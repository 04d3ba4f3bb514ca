//! Endpoints, relations and the list of relations that a document holds.
use vstd::prelude::*;
use vstd::string::*;
use crate::errors::Error;
use crate::graph_model::{build, lemma_build_counts, lemma_with_edge};
use crate::petgraph_wrappers::HashBackedUnGraphWithParallelEdges;
use crate::text::{
    find_colon, first_colon, lemma_first_colon_exists, lemma_first_colon_unique,
    lemma_lex_trichotomy, lex_less, lex_max, lex_min, str_less,
};

verus! {

/// One side of a relation: an entity and the role it plays.
#[derive(Debug, PartialEq)]
pub struct AppRel {
    pub app: String,
    pub rel: String,
}

impl View for AppRel {
    type V = (Seq<char>, Seq<char>);

    /// Entity and role.
    open spec fn view(&self) -> (Seq<char>, Seq<char>) {
        (self.app@, self.rel@)
    }
}

/// Entity and role of the endpoint written as `s`: what stands before
/// the first colon and what stands behind it. `None` without a colon.
pub open spec fn parse_endpoint(s: Seq<char>) -> Option<(Seq<char>, Seq<char>)> {
    if s.contains(':') {
        Some((s.subrange(0, first_colon(s)), s.subrange(first_colon(s) + 1, s.len() as int)))
    } else {
        None
    }
}

/// An endpoint is its entity, a colon and its role, and the entity
/// holds no colon.
pub proof fn lemma_parse_endpoint_splits(s: Seq<char>)
    requires
        s.contains(':'),
    ensures
        parse_endpoint(s) is Some,
        s == parse_endpoint(s).unwrap().0 + seq![':'] + parse_endpoint(s).unwrap().1,
        !parse_endpoint(s).unwrap().0.contains(':'),
{
    lemma_first_colon_exists(s);
    let i = first_colon(s);
    let entity = s.subrange(0, i);
    assert(s =~= entity + seq![':'] + s.subrange(i + 1, s.len() as int));
    if entity.contains(':') {
        let j = choose|j: int| 0 <= j < entity.len() && entity[j] == ':';
        assert(s[j] == ':');
    }
}

/// An entity without a colon, a colon and a role, whatever it holds,
/// are read back as that entity and that role.
pub proof fn lemma_parse_endpoint_joins(entity: Seq<char>, role: Seq<char>)
    requires
        !entity.contains(':'),
    ensures
        parse_endpoint(entity + seq![':'] + role) == Some((entity, role)),
{
    let s = entity + seq![':'] + role;
    let i = entity.len() as int;
    assert(s[i] == ':');
    assert forall|j: int| 0 <= j < i implies s[j] != ':' by {
        assert(s[j] == entity[j]);
        assert(entity.contains(entity[j]));
    }
    lemma_first_colon_unique(s, i);
    assert(s.subrange(0, i) =~= entity);
    assert(s.subrange(i + 1, s.len() as int) =~= role);
}

/// The label of an edge between endpoints with roles `r1` and `r2`: the
/// role itself where both are equal, else the smaller role, a colon and
/// the larger one.
pub open spec fn relation_label(r1: Seq<char>, r2: Seq<char>) -> Seq<char> {
    if r1 == r2 {
        r1
    } else if lex_less(r1, r2) {
        r1 + seq![':'] + r2
    } else {
        r2 + seq![':'] + r1
    }
}

/// Two endpoints with the same role are labelled by that role, in
/// either order.
pub proof fn lemma_label_equal_roles(r: Seq<char>)
    ensures
        relation_label(r, r) == r,
{
}

/// The label does not depend on the order of the two endpoints, and for
/// different roles it is the smaller role, a colon, and the larger.
pub proof fn lemma_label_commutes(r1: Seq<char>, r2: Seq<char>)
    ensures
        relation_label(r1, r2) == relation_label(r2, r1),
        r1 != r2 ==> relation_label(r1, r2) == lex_min(r1, r2) + seq![':'] + lex_max(r1, r2),
{
    lemma_lex_trichotomy(r1, r2);
}

impl AppRel {
    /// Reads an endpoint in colon notation, such as `hydra:pg-database`.
    /// Only the first colon splits.
    pub fn from_colon_notation(colon_notation: &str) -> (r: Result<Self, Error>)
        ensures
            match r {
                Ok(e) => parse_endpoint(colon_notation@) == Some(e@),
                Err(e) => e == Error::MalformedEndpoint && parse_endpoint(colon_notation@) is None,
            },
    {
        match find_colon(colon_notation) {
            Some(i) => {
                let n: usize = colon_notation.unicode_len();
                let app = colon_notation.substring_char(0, i);
                let rel = colon_notation.substring_char(i + 1, n);
                Ok(AppRel { app: String::from_str(app), rel: String::from_str(rel) })
            },
            None => Err(Error::MalformedEndpoint),
        }
    }

    /// The label of a relation between this endpoint and `other`.
    pub fn get_relation_label(&self, other: &Self) -> (label: String)
        ensures
            label@ == relation_label(self.rel@, other.rel@),
    {
        if self.rel == other.rel {
            self.rel.clone()
        } else if str_less(self.rel.as_str(), other.rel.as_str()) {
            let mut label = self.rel.clone();
            label.append(":");
            label.append(other.rel.as_str());
            proof {
                reveal_strlit(":");
                assert(":"@ =~= seq![':']);
            }
            label
        } else {
            let mut label = other.rel.clone();
            label.append(":");
            label.append(self.rel.as_str());
            proof {
                reveal_strlit(":");
                assert(":"@ =~= seq![':']);
            }
            label
        }
    }
}

/// The relation between the endpoints written as `first` and `second`:
/// the two entity names and the label of their roles. `None` where one
/// of the two has no colon.
pub open spec fn relation_of(first: Seq<char>, second: Seq<char>) -> Option<(Seq<char>, Seq<char>, Seq<char>)> {
    match (parse_endpoint(first), parse_endpoint(second)) {
        (Some(left), Some(right)) => Some((left.0, right.0, relation_label(left.1, right.1))),
        _ => None,
    }
}

/// One relation: the names of the two entities and the label of the
/// edge between them.
#[derive(Debug, PartialEq)]
pub struct Relation {
    pub first: String,
    pub second: String,
    pub label: String,
}

impl View for Relation {
    type V = (Seq<char>, Seq<char>, Seq<char>);

    /// The two entity names and the label.
    open spec fn view(&self) -> (Seq<char>, Seq<char>, Seq<char>) {
        (self.first@, self.second@, self.label@)
    }
}

impl Relation {
    /// Reads a relation from its two endpoints in colon notation.
    pub fn from_string_pair(first: &str, second: &str) -> (r: Result<Self, Error>)
        ensures
            match r {
                Ok(rel) => relation_of(first@, second@) == Some(rel@),
                Err(e) => e == Error::MalformedEndpoint && relation_of(first@, second@) is None,
            },
    {
        let left = match AppRel::from_colon_notation(first) {
            Ok(p) => p,
            Err(e) => { return Err(e); },
        };
        let right = match AppRel::from_colon_notation(second) {
            Ok(p) => p,
            Err(e) => { return Err(e); },
        };
        let edge = left.get_relation_label(&right);
        Ok(Self { first: left.app, second: right.app, label: edge })
    }
}

/// The relations of a document, each a pair of endpoints in colon
/// notation:
///
/// ```text
/// relations:
///   - [hydra:pg-database, postgresql-k8s:database]
///   - [kratos:pg-database, postgresql-k8s:database]
/// ```
#[derive(Debug)]
pub struct Bundle {
    pub relations: Vec<[String; 2]>,
}

impl View for Bundle {
    type V = Seq<(Seq<char>, Seq<char>)>;

    /// The pairs of endpoints as they are written.
    open spec fn view(&self) -> Seq<(Seq<char>, Seq<char>)> {
        Seq::new(self.relations@.len(), |i: int| (self.relations@[i]@[0]@, self.relations@[i]@[1]@))
    }
}

/// Whether every endpoint of `pairs` holds a colon.
pub open spec fn readable(pairs: Seq<(Seq<char>, Seq<char>)>) -> bool {
    forall|i: int| 0 <= i < pairs.len() ==> relation_of((#[trigger] pairs[i]).0, pairs[i].1) is Some
}

/// The relations that `pairs` stand for, as entity names and labels, in
/// their order.
pub open spec fn labelled(pairs: Seq<(Seq<char>, Seq<char>)>) -> Seq<(Seq<char>, Seq<char>, Seq<char>)> {
    Seq::new(pairs.len(), |i: int| relation_of(pairs[i].0, pairs[i].1).unwrap())
}

impl Bundle {
    /// The graph of the relations: one node for each entity, in the
    /// order in which the entities first appear, and one edge for each
    /// relation, in the order of the relations. The first endpoint
    /// without a colon fails the whole.
    pub fn to_graph(&self) -> (r: Result<HashBackedUnGraphWithParallelEdges, Error>)
        requires
            self@.len() * 2 <= u32::MAX,
        ensures
            match r {
                Ok(graph) => readable(self@) && graph.wf() && graph@ == build(labelled(self@)),
                Err(e) => e == Error::MalformedEndpoint && !readable(self@),
            },
    {
        let mut graph = HashBackedUnGraphWithParallelEdges::new();
        let ghost all = labelled(self@);
        let mut i: usize = 0;
        while i < self.relations.len()
            invariant
                i <= self.relations@.len(),
                self.relations@.len() * 2 <= u32::MAX,
                all == labelled(self@),
                graph.wf(),
                graph@ == build(all.take(i as int)),
                forall|k: int| 0 <= k < i ==> relation_of((#[trigger] self@[k]).0, self@[k].1) is Some,
            decreases self.relations@.len() - i,
        {
            let pair = &self.relations[i];
            let rel = match Relation::from_string_pair(pair[0].as_str(), pair[1].as_str()) {
                Ok(rel) => rel,
                Err(e) => {
                    assert(relation_of(self@[i as int].0, self@[i as int].1) is None);
                    return Err(e);
                },
            };
            proof {
                assert(self@[i as int] == (pair@[0]@, pair@[1]@));
                lemma_build_counts(all.take(i as int));
                lemma_with_edge(graph@, rel.first@, rel.second@, rel.label@);
                assert(all.take(i as int + 1).drop_last() =~= all.take(i as int));
                assert(all.take(i as int + 1).last() == (rel.first@, rel.second@, rel.label@));
                lemma_node_bound(all.take(i as int));
            }
            graph.add_edge(&rel.first, &rel.second, &rel.label);
            i += 1;
        }
        proof {
            assert(all.take(i as int) =~= all);
        }
        Ok(graph)
    }
}

/// A graph has at most two nodes for each relation it was built from.
proof fn lemma_node_bound(relations: Seq<(Seq<char>, Seq<char>, Seq<char>)>)
    ensures
        build(relations).nodes.len() <= 2 * relations.len(),
    decreases relations.len(),
{
    if relations.len() > 0 {
        lemma_node_bound(relations.drop_last());
        lemma_build_counts(relations.drop_last());
        let last = relations.last();
        lemma_with_edge(build(relations.drop_last()), last.0, last.1, last.2);
    }
}

} // verus!

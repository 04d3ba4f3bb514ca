//! Sequences of characters: the first colon of an endpoint, and the
//! lexicographic order by which two roles are arranged in a label.
use vstd::prelude::*;
use vstd::string::*;

verus! {

/// `i` is the position of the first `:` of `s`.
pub open spec fn colon_at(s: Seq<char>, i: int) -> bool {
    &&& 0 <= i < s.len()
    &&& s[i] == ':'
    &&& forall|j: int| 0 <= j < i ==> s[j] != ':'
}

/// The position of the first `:` of `s`, where it has one.
pub open spec fn first_colon(s: Seq<char>) -> int {
    choose|i: int| colon_at(s, i)
}

/// A sequence has at most one first colon.
pub proof fn lemma_first_colon_unique(s: Seq<char>, i: int)
    requires
        colon_at(s, i),
    ensures
        first_colon(s) == i,
        s.contains(':'),
{
    let k = first_colon(s);
    assert(colon_at(s, k));
    if k < i {
        assert(s[k] != ':');
    }
    if i < k {
        assert(s[i] != ':');
    }
}

/// A sequence that holds a colon has a first one.
pub proof fn lemma_first_colon_exists(s: Seq<char>)
    requires
        s.contains(':'),
    ensures
        colon_at(s, first_colon(s)),
{
    let w = choose|i: int| 0 <= i < s.len() && s[i] == ':';
    lemma_first_colon_upto(s, w);
}

proof fn lemma_first_colon_upto(s: Seq<char>, w: int)
    requires
        0 <= w < s.len(),
        s[w] == ':',
    ensures
        exists|i: int| colon_at(s, i),
    decreases w,
{
    if exists|j: int| 0 <= j < w && s[j] == ':' {
        let j = choose|j: int| 0 <= j < w && s[j] == ':';
        lemma_first_colon_upto(s, j);
    } else {
        assert(colon_at(s, w));
    }
}

/// Strict lexicographic order of `a` and `b` from position `i` on, the
/// characters before `i` being equal: by the first character that
/// differs, a proper prefix coming first.
pub open spec fn lex_less_from(a: Seq<char>, b: Seq<char>, i: int) -> bool
    decreases a.len() - i,
{
    if i < 0 || i >= b.len() {
        false
    } else if i >= a.len() {
        true
    } else if a[i] != b[i] {
        (a[i] as int) < (b[i] as int)
    } else {
        lex_less_from(a, b, i + 1)
    }
}

/// Strict lexicographic order on character sequences, by code point.
pub open spec fn lex_less(a: Seq<char>, b: Seq<char>) -> bool {
    lex_less_from(a, b, 0)
}

/// The smaller of two sequences in lexicographic order.
pub open spec fn lex_min(a: Seq<char>, b: Seq<char>) -> Seq<char> {
    if lex_less(b, a) { b } else { a }
}

/// The larger of two sequences in lexicographic order.
pub open spec fn lex_max(a: Seq<char>, b: Seq<char>) -> Seq<char> {
    if lex_less(b, a) { a } else { b }
}

proof fn lemma_lex_trichotomy_from(a: Seq<char>, b: Seq<char>, i: int)
    requires
        0 <= i <= a.len(),
        i <= b.len(),
        forall|j: int| 0 <= j < i ==> a[j] == b[j],
    ensures
        a == b ==> !lex_less_from(a, b, i) && !lex_less_from(b, a, i),
        a != b ==> (lex_less_from(a, b, i) <==> !lex_less_from(b, a, i)),
    decreases a.len() - i,
{
    if i >= a.len() || i >= b.len() {
        if a.len() == b.len() {
            assert(a =~= b);
        }
    } else if a[i] != b[i] {
        assert(a != b);
    } else {
        lemma_lex_trichotomy_from(a, b, i + 1);
    }
}

/// Of two different sequences exactly one is less than the other; a
/// sequence is not less than itself.
pub proof fn lemma_lex_trichotomy(a: Seq<char>, b: Seq<char>)
    ensures
        a == b ==> !lex_less(a, b) && !lex_less(b, a),
        a != b ==> (lex_less(a, b) <==> !lex_less(b, a)),
{
    lemma_lex_trichotomy_from(a, b, 0);
}

/// Position of the first `:` in `s`.
pub fn find_colon(s: &str) -> (r: Option<usize>)
    ensures
        match r {
            Some(i) => colon_at(s@, i as int) && first_colon(s@) == i,
            None => !s@.contains(':'),
        },
{
    let n: usize = s.unicode_len();
    let mut i: usize = 0;
    while i < n
        invariant
            i <= n,
            n == s@.len(),
            forall|j: int| 0 <= j < i ==> s@[j] != ':',
        decreases n - i,
    {
        if s.get_char(i) == ':' {
            proof {
                lemma_first_colon_unique(s@, i as int);
            }
            return Some(i);
        }
        i += 1;
    }
    None
}

/// Whether `a` comes strictly before `b` in lexicographic order.
pub fn str_less(a: &str, b: &str) -> (r: bool)
    ensures
        r == lex_less(a@, b@),
{
    let na: usize = a.unicode_len();
    let nb: usize = b.unicode_len();
    let mut i: usize = 0;
    while i < na && i < nb
        invariant
            i <= na,
            i <= nb,
            na == a@.len(),
            nb == b@.len(),
            lex_less(a@, b@) == lex_less_from(a@, b@, i as int),
        decreases na - i,
    {
        let ca: char = a.get_char(i);
        let cb: char = b.get_char(i);
        if ca != cb {
            return (ca as u32) < (cb as u32);
        }
        i += 1;
    }
    i < nb
}

} // verus!

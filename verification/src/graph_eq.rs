//! Equality of relationship graphs: two graphs are equal where their
//! flowcharts are, so neither the order of an edge's two ends nor an
//! entity without an edge tells them apart.
use vstd::prelude::*;
use vstd::std_specs::cmp::PartialEqSpecImpl;
use crate::graph_model::mermaid_text;
use crate::petgraph_wrappers::{GraphAsCode, HashBackedUnGraphWithParallelEdges};

verus! {

impl PartialEq for HashBackedUnGraphWithParallelEdges {
    fn eq(&self, other: &Self) -> (same: bool) {
        self.graph().to_mermaid() == other.graph().to_mermaid()
    }
}

impl PartialEqSpecImpl for HashBackedUnGraphWithParallelEdges {
    open spec fn obeys_eq_spec() -> bool {
        true
    }

    open spec fn eq_spec(&self, other: &Self) -> bool {
        mermaid_text(self@) == mermaid_text(other@)
    }
}

} // verus!

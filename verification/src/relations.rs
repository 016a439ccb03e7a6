//! Equality and order of nodes, spans and cells. Nodes are compared by kind
//! and span, spans are ordered by their length alone, and cells by the span
//! of the node they got last.

use crate::tree::{Cell, Node, Span};
use core::cmp::Ordering;
use vstd::prelude::*;
use vstd::std_specs::cmp::{PartialEqSpecImpl, PartialOrdSpecImpl};

verus! {

/// The two nodes have the same kind over the same span.
pub open spec fn same_node(a: Node, b: Node) -> bool {
    a.kind == b.kind && a.span == b.span
}

/// How the lengths of the two spans compare.
pub open spec fn length_order(a: Span, b: Span) -> Option<Ordering> {
    if a.1 < b.1 {
        Some(Ordering::Less)
    } else if a.1 == b.1 {
        Some(Ordering::Equal)
    } else {
        Some(Ordering::Greater)
    }
}

impl PartialEq for Node {
    /// Two nodes are equal when they have the same kind over the same span,
    /// whatever stands below them.
    fn eq(&self, other: &Self) -> (same: bool) {
        self.kind == other.kind && self.span == other.span
    }
}

impl PartialEqSpecImpl for Node {
    open spec fn obeys_eq_spec() -> bool {
        true
    }

    open spec fn eq_spec(&self, other: &Self) -> bool {
        same_node(*self, *other)
    }
}

impl PartialEq for Cell {
    /// Two cells are equal when they hold equal nodes in the same order.
    fn eq(&self, other: &Self) -> (same: bool) {
        if self.0.len() != other.0.len() {
            return false;
        }
        let mut i: usize = 0;
        while i < self.0.len()
            invariant
                i <= self.0@.len() == other.0@.len(),
                forall|j: int| 0 <= j < i ==> same_node(#[trigger] self.0@[j], other.0@[j]),
            decreases self.0@.len() - i,
        {
            if !(self.0[i] == other.0[i]) {
                return false;
            }
            i += 1;
        }
        true
    }
}

impl PartialEqSpecImpl for Cell {
    open spec fn obeys_eq_spec() -> bool {
        true
    }

    open spec fn eq_spec(&self, other: &Self) -> bool {
        &&& self.0@.len() == other.0@.len()
        &&& forall|j: int| 0 <= j < self.0@.len() ==> same_node(#[trigger] self.0@[j], other.0@[j])
    }
}

impl PartialOrd for Span {
    /// Spans are ordered by their length; where they start plays no part.
    fn partial_cmp(&self, other: &Self) -> (order: Option<Ordering>) {
        if self.1 < other.1 {
            Some(Ordering::Less)
        } else if self.1 == other.1 {
            Some(Ordering::Equal)
        } else {
            Some(Ordering::Greater)
        }
    }
}

impl PartialOrdSpecImpl for Span {
    open spec fn obeys_partial_cmp_spec() -> bool {
        true
    }

    open spec fn partial_cmp_spec(&self, other: &Self) -> Option<Ordering> {
        length_order(*self, *other)
    }
}

impl PartialOrd for Cell {
    /// Cells are ordered as the spans of the nodes they got last; a cell
    /// without a node is not comparable.
    fn partial_cmp(&self, other: &Self) -> (order: Option<Ordering>) {
        let mine = self.0.len();
        let theirs = other.0.len();
        if mine == 0 || theirs == 0 {
            None
        } else {
            self.0[mine - 1].span.partial_cmp(&other.0[theirs - 1].span)
        }
    }
}

impl PartialOrdSpecImpl for Cell {
    open spec fn obeys_partial_cmp_spec() -> bool {
        true
    }

    open spec fn partial_cmp_spec(&self, other: &Self) -> Option<Ordering> {
        if self.0@.len() == 0 || other.0@.len() == 0 {
            None
        } else {
            length_order(self.0@.last().span, other.0@.last().span)
        }
    }
}

} // verus!

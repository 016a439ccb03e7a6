//! The parse tree and the cells of the chart.

use crate::symbol::{Interner, Symbol};
use vstd::prelude::*;
use vstd::string::StringExecFns;

verus! {

/// The half-open interval `[start, start + len)` of character positions.
#[derive(Copy, Clone, Debug, PartialEq, Eq, Structural, Hash)]
pub struct Span(pub usize, pub usize);

impl Span {
    pub fn new(start: usize, len: usize) -> (span: Span)
        ensures
            span == Span(start, len),
    {
        Span(start, len)
    }

    pub fn start(self) -> (start: usize)
        ensures
            start == self.0,
    {
        self.0
    }

    /// The position just behind the span.
    pub fn end(self) -> (end: usize)
        requires
            self.0 + self.1 <= usize::MAX,
        ensures
            end == self.0 + self.1,
    {
        self.0 + self.1
    }

    pub fn len(self) -> (len: usize)
        ensures
            len == self.1,
    {
        self.1
    }
}

/// What a node was derived from: nothing (it is one input character), one
/// node below it (a unit rule), or two adjacent nodes (a binary rule).
#[derive(Debug)]
pub enum NodeChildren {
    Leaf,
    Single(Box<Node>),
    Double(Box<Node>, Box<Node>),
}

/// One node of a parse tree.
#[derive(Debug)]
pub struct Node {
    pub kind: Symbol,
    pub span: Span,
    pub children: NodeChildren,
}

impl Clone for NodeChildren {
    fn clone(&self) -> (copy: NodeChildren)
        ensures
            copy == *self,
        decreases self,
    {
        match self {
            NodeChildren::Leaf => NodeChildren::Leaf,
            NodeChildren::Single(child) => NodeChildren::Single(Box::new((**child).clone())),
            NodeChildren::Double(left, right) => NodeChildren::Double(
                Box::new((**left).clone()),
                Box::new((**right).clone()),
            ),
        }
    }
}

impl Clone for Node {
    fn clone(&self) -> (copy: Node)
        ensures
            copy == *self,
        decreases self,
    {
        Node { kind: self.kind, span: self.span, children: self.children.clone() }
    }
}

impl Node {
    pub fn new(kind: Symbol, span: Span, children: NodeChildren) -> (node: Node)
        ensures
            node == (Node { kind, span, children }),
    {
        Node { kind, span, children }
    }

    pub fn kind(self) -> (kind: Symbol)
        ensures
            kind == self.kind,
    {
        self.kind
    }

    pub fn span(self) -> (span: Span)
        ensures
            span == self.span,
    {
        self.span
    }

    pub fn children(self) -> (children: NodeChildren)
        ensures
            children == self.children,
    {
        self.children
    }

    /// The text that the node stands for: the string of its symbol for a node
    /// without children, else the texts of its children, left to right.
    pub open spec fn text(self, interner: &Interner) -> Seq<char>
        decreases self,
    {
        match self.children {
            NodeChildren::Leaf => interner.text_of(self.kind),
            NodeChildren::Single(child) => child.text(interner),
            NodeChildren::Double(left, right) => left.text(interner) + right.text(interner),
        }
    }

    /// Every node without children carries a symbol of `interner`.
    pub open spec fn resolvable(self, interner: &Interner) -> bool
        decreases self,
    {
        match self.children {
            NodeChildren::Leaf => interner.has_symbol(self.kind),
            NodeChildren::Single(child) => child.resolvable(interner),
            NodeChildren::Double(left, right) => left.resolvable(interner) && right.resolvable(
                interner,
            ),
        }
    }

    /// Whether every node without children carries a symbol of `interner`.
    pub fn is_resolvable(&self, interner: &Interner) -> (resolvable: bool)
        ensures
            resolvable == self.resolvable(interner),
        decreases self,
    {
        match &self.children {
            NodeChildren::Leaf => interner.holds(self.kind),
            NodeChildren::Single(child) => child.is_resolvable(interner),
            NodeChildren::Double(left, right) => left.is_resolvable(interner)
                && right.is_resolvable(interner),
        }
    }

    fn render_into(&self, interner: &Interner, out: &mut String)
        requires
            self.resolvable(interner),
        ensures
            final(out)@ == old(out)@ + self.text(interner),
        decreases self,
    {
        match &self.children {
            NodeChildren::Leaf => {
                out.append(interner.get(self.kind));
            },
            NodeChildren::Single(child) => {
                child.render_into(interner, out);
            },
            NodeChildren::Double(left, right) => {
                left.render_into(interner, out);
                right.render_into(interner, out);
            },
        }
    }

    /// The text of the node as a string.
    pub fn render(&self, interner: &Interner) -> (text: String)
        requires
            self.resolvable(interner),
        ensures
            text@ == self.text(interner),
    {
        let mut out = String::new();
        self.render_into(interner, &mut out);
        out
    }

    /// The text of the node as a string, and `None` when a node without
    /// children carries a symbol that `interner` does not hold.
    pub fn try_render(&self, interner: &Interner) -> (text: Option<String>)
        ensures
            match text {
                Some(text) => self.resolvable(interner) && text@ == self.text(interner),
                None => !self.resolvable(interner),
            },
    {
        if self.is_resolvable(interner) {
            Some(self.render(interner))
        } else {
            None
        }
    }
}

/// The first node of `nodes` whose kind is `kind`.
pub open spec fn first_of_kind(nodes: Seq<Node>, kind: Symbol) -> Option<Node>
    decreases nodes.len(),
{
    if nodes.len() == 0 {
        None
    } else if nodes[0].kind == kind {
        Some(nodes[0])
    } else {
        first_of_kind(nodes.drop_first(), kind)
    }
}

/// `first_of_kind` finds the node at the least position that has the kind.
pub proof fn lemma_first_of_kind(nodes: Seq<Node>, kind: Symbol)
    ensures
        match first_of_kind(nodes, kind) {
            Some(node) => exists|i: int|
                0 <= i < nodes.len() && nodes[i] == node && node.kind == kind && forall|j: int|
                    0 <= j < i ==> (#[trigger] nodes[j]).kind != kind,
            None => forall|j: int| 0 <= j < nodes.len() ==> (#[trigger] nodes[j]).kind != kind,
        },
    decreases nodes.len(),
{
    if nodes.len() == 0 {
    } else if nodes[0].kind == kind {
        assert(forall|j: int| 0 <= j < 0 ==> (#[trigger] nodes[j]).kind != kind);
    } else {
        let rest = nodes.drop_first();
        lemma_first_of_kind(rest, kind);
        match first_of_kind(rest, kind) {
            Some(node) => {
                let i = choose|i: int|
                    0 <= i < rest.len() && rest[i] == node && node.kind == kind && forall|j: int|
                        0 <= j < i ==> (#[trigger] rest[j]).kind != kind;
                assert forall|j: int| 0 <= j < i + 1 implies (#[trigger] nodes[j]).kind != kind by {
                    if j > 0 {
                        assert(nodes[j] == rest[j - 1]);
                    }
                }
                assert(nodes[i + 1] == node);
            },
            None => {
                assert forall|j: int| 0 <= j < nodes.len() implies (#[trigger] nodes[j]).kind
                    != kind by {
                    if j > 0 {
                        assert(nodes[j] == rest[j - 1]);
                    }
                }
            },
        }
    }
}

/// The alternative nodes derived for one span, in the order they were found.
#[derive(Debug)]
pub struct Cell(pub Vec<Node>, pub Span);

impl Clone for Cell {
    fn clone(&self) -> (copy: Cell)
        ensures
            copy.0@ == self.0@,
            copy.1 == self.1,
    {
        let mut nodes: Vec<Node> = Vec::new();
        let mut i: usize = 0;
        while i < self.0.len()
            invariant
                i <= self.0@.len(),
                nodes@ == self.0@.take(i as int),
            decreases self.0@.len() - i,
        {
            nodes.push(self.0[i].clone());
            assert(self.0@.take(i + 1) == self.0@.take(i as int).push(self.0@[i as int]));
            i += 1;
        }
        assert(self.0@.take(i as int) == self.0@);
        Cell(nodes, self.1)
    }
}

impl Cell {
    pub fn new(nodes: Vec<Node>, span: Span) -> (cell: Cell)
        ensures
            cell.0 == nodes,
            cell.1 == span,
    {
        Cell(nodes, span)
    }

    /// The node at position `n`, if there is one.
    pub fn nth(self, n: usize) -> (node: Option<Node>)
        ensures
            node == (if n < self.0@.len() {
                Some(self.0@[n as int])
            } else {
                None
            }),
    {
        if n < self.0.len() {
            Some(self.0[n].clone())
        } else {
            None
        }
    }

    /// The span of the node added last, if the cell holds a node.
    pub fn span(self) -> (span: Option<Span>)
        ensures
            span == (if self.0@.len() > 0 {
                Some(self.0@.last().span)
            } else {
                None
            }),
    {
        let count = self.0.len();
        if count > 0 {
            Some(self.0[count - 1].span)
        } else {
            None
        }
    }

    pub fn len(self) -> (len: usize)
        ensures
            len == self.0@.len(),
    {
        self.0.len()
    }

    pub fn is_empty(&self) -> (empty: bool)
        ensures
            empty == (self.0@.len() == 0),
    {
        self.0.len() == 0
    }

    /// Moves the nodes of `another` behind those of this cell.
    pub fn append(&mut self, another: Cell)
        ensures
            final(self).0@ == old(self).0@ + another.0@,
            final(self).1 == old(self).1,
    {
        let mut another = another;
        self.0.append(&mut another.0);
    }

    /// Moves `nodes` behind the nodes of this cell.
    pub fn append_nodes(&mut self, nodes: Vec<Node>)
        ensures
            final(self).0@ == old(self).0@ + nodes@,
            final(self).1 == old(self).1,
    {
        let mut nodes = nodes;
        self.0.append(&mut nodes);
    }

    pub fn push_nodes(&mut self, node: Node)
        ensures
            final(self).0@ == old(self).0@.push(node),
            final(self).1 == old(self).1,
    {
        self.0.push(node);
    }

    /// The first node of the cell whose kind is `symbol`.
    pub fn has(&self, symbol: Symbol) -> (node: Option<Node>)
        ensures
            node == first_of_kind(self.0@, symbol),
    {
        let mut i: usize = 0;
        assert(self.0@.skip(0) == self.0@);
        while i < self.0.len()
            invariant
                i <= self.0@.len(),
                first_of_kind(self.0@, symbol) == first_of_kind(self.0@.skip(i as int), symbol),
            decreases self.0@.len() - i,
        {
            if self.0[i].kind == symbol {
                return Some(self.0[i].clone());
            }
            assert(self.0@.skip(i as int).drop_first() == self.0@.skip(i + 1));
            i += 1;
        }
        None
    }
}

} // verus!

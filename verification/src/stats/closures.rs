//! Closure expressions.
//!
//! Every closure expression has a row, which says whether the closure stands in
//! the callee of a call expression, as in `(|x| x + 1)(2)`, or anywhere else. The
//! body of a closure and the arguments of a call are anywhere else again.

use crate::stats::{
    finding_views,
    lemma_finding_views_index,
    lemma_finding_views_push,
    Detail,
    DetailView,
    Finding,
    FindingView,
};
use crate::syntax::{views, NodeKind, NodeView, SyntaxNode};
use vstd::prelude::*;

verus! {

/// One closure expression.
#[derive(Clone, Copy, Debug, PartialEq, Eq, Structural)]
pub struct Row {
    /// Whether the closure stands in the callee of a call expression.
    pub is_in_call: bool,
}

/// The row of a closure on a line.
pub open spec fn closure_finding(line: usize, is_in_call: bool) -> FindingView {
    FindingView { line, detail: DetailView::Closure(Row { is_in_call }) }
}

/// The rows of a tree that stands in the callee of a call (`is_in_call`) or
/// anywhere else. The row of a closure comes before the rows of its body.
pub open spec fn node_rows(node: NodeView, is_in_call: bool) -> Seq<FindingView>
    decreases node,
{
    match node.kind {
        NodeKind::ExprClosure => seq![closure_finding(node.first_line, is_in_call)] + children_rows(
            node.children,
            false,
        ),
        NodeKind::ExprCall(_) => children_rows(node.children, false),
        NodeKind::Callee => children_rows(node.children, true),
        _ => children_rows(node.children, is_in_call),
    }
}

/// The rows of a sequence of trees, one tree after the other.
pub open spec fn children_rows(children: Seq<NodeView>, is_in_call: bool) -> Seq<FindingView>
    decreases children,
{
    if children.len() == 0 {
        Seq::empty()
    } else {
        children_rows(children.drop_last(), is_in_call) + node_rows(children.last(), is_in_call)
    }
}

/// The rows of the first `i + 1` trees are those of the first `i` and then
/// those of the tree at `i`.
pub proof fn lemma_children_rows_step(children: Seq<NodeView>, is_in_call: bool, i: int)
    requires
        0 <= i < children.len(),
    ensures
        children_rows(children.take(i + 1), is_in_call) == children_rows(
            children.take(i),
            is_in_call,
        ) + node_rows(children[i], is_in_call),
        children_rows(children.take(0), is_in_call) == Seq::<FindingView>::empty(),
{
    let next = children.take(i + 1);
    assert(next.drop_last() =~= children.take(i));
    assert(next.last() == children[i]);
    assert(children_rows(next, is_in_call) == children_rows(next.drop_last(), is_in_call)
        + node_rows(next.last(), is_in_call));
    assert(children.take(0).len() == 0);
}

/// Whether every finding of a sequence is the row of a closure.
pub open spec fn all_closures(rows: Seq<FindingView>) -> bool {
    forall|i: int| 0 <= i < rows.len() ==> (#[trigger] rows[i]).detail is Closure
}

/// The analysis reports nothing but closures.
pub proof fn lemma_rows_are_closures(node: NodeView, is_in_call: bool)
    ensures
        all_closures(node_rows(node, is_in_call)),
    decreases node,
{
    match node.kind {
        NodeKind::ExprClosure => {
            lemma_children_rows_are_closures(node.children, false);
        },
        NodeKind::ExprCall(_) => {
            lemma_children_rows_are_closures(node.children, false);
        },
        NodeKind::Callee => {
            lemma_children_rows_are_closures(node.children, true);
        },
        _ => {
            lemma_children_rows_are_closures(node.children, is_in_call);
        },
    }
}

/// The analysis reports nothing but closures for a sequence of trees.
pub proof fn lemma_children_rows_are_closures(children: Seq<NodeView>, is_in_call: bool)
    ensures
        all_closures(children_rows(children, is_in_call)),
    decreases children,
{
    if children.len() > 0 {
        lemma_children_rows_are_closures(children.drop_last(), is_in_call);
        lemma_rows_are_closures(children.last(), is_in_call);
    }
}

/// The rows that the analysis has reported so far.
#[derive(Debug)]
pub struct Stats {
    pub rows: Vec<Finding>,
}

impl View for Stats {
    type V = Seq<FindingView>;

    open spec fn view(&self) -> Seq<FindingView> {
        finding_views(self.rows@)
    }
}

impl Stats {
    /// An analysis that has reported nothing yet.
    pub fn new() -> (stats: Stats)
        ensures
            stats@ == Seq::<FindingView>::empty(),
    {
        let stats = Stats { rows: Vec::new() };
        proof {
            assert(stats@ =~= Seq::<FindingView>::empty());
        }
        stats
    }

    /// Reports a closure and then what its parameters, its result type and its
    /// body hold.
    fn visit_expr_closure(&mut self, node: &SyntaxNode, is_in_call: bool)
        requires
            node@.kind is ExprClosure,
        ensures
            final(self)@ == old(self)@ + node_rows(node@, is_in_call),
        decreases node@, 1nat,
    {
        let finding = Finding {
            line: node.first_line(),
            detail: Detail::Closure(Row { is_in_call }),
        };
        proof {
            lemma_finding_views_push(self.rows@, finding);
        }
        self.rows.push(finding);
        self.visit_children(node.children(), false);
        proof {
            let own = seq![closure_finding(node@.first_line, is_in_call)];
            let below = children_rows(node@.children, false);
            assert((old(self)@ + own) + below =~= old(self)@ + (own + below));
        }
    }

    /// Reports what a call holds: its callee as the callee of a call, and its
    /// arguments as anything else.
    fn visit_expr_call(&mut self, node: &SyntaxNode)
        requires
            node@.kind is ExprCall,
        ensures
            final(self)@ == old(self)@ + children_rows(node@.children, false),
        decreases node@, 1nat,
    {
        self.visit_children(node.children(), false);
    }

    /// Reports the rows of a sequence of trees, one tree after the other.
    pub fn visit_children(&mut self, children: &Vec<SyntaxNode>, is_in_call: bool)
        ensures
            final(self)@ == old(self)@ + children_rows(views(children@), is_in_call),
        decreases views(children@), 0nat,
    {
        let ghost below = views(children@);
        let mut i: usize = 0;
        proof {
            assert(below.take(0).len() == 0);
            assert(self@ + Seq::<FindingView>::empty() =~= self@);
        }
        while i < children.len()
            invariant
                0 <= i <= children.len(),
                below == views(children@),
                self@ == old(self)@ + children_rows(below.take(i as int), is_in_call),
            decreases children.len() - i,
        {
            proof {
                lemma_children_rows_step(below, is_in_call, i as int);
            }
            self.visit(&children[i], is_in_call);
            proof {
                let done = children_rows(below.take(i as int), is_in_call);
                let step = node_rows(below[i as int], is_in_call);
                assert((old(self)@ + done) + step =~= old(self)@ + (done + step));
            }
            i = i + 1;
        }
        proof {
            assert(below.take(i as int) =~= below);
        }
    }

    /// Reports the rows of a tree that stands in the callee of a call
    /// (`is_in_call`) or anywhere else.
    pub fn visit(&mut self, node: &SyntaxNode, is_in_call: bool)
        ensures
            final(self)@ == old(self)@ + node_rows(node@, is_in_call),
        decreases node@, 2nat,
    {
        match node.kind() {
            NodeKind::ExprClosure => self.visit_expr_closure(node, is_in_call),
            NodeKind::ExprCall(_) => self.visit_expr_call(node),
            NodeKind::Callee => self.visit_children(node.children(), true),
            _ => self.visit_children(node.children(), is_in_call),
        }
    }
}

/// The rows of the closure analysis for one source file.
pub fn collect(file: &SyntaxNode) -> (rows: Vec<Finding>)
    ensures
        finding_views(rows@) == node_rows(file@, false),
        rows@.len() == node_rows(file@, false).len(),
        forall|i: int| 0 <= i < rows@.len() ==> (#[trigger] rows@[i])@ == node_rows(file@, false)[i],
{
    let mut stats = Stats::new();
    stats.visit(file, false);
    proof {
        assert(Seq::<FindingView>::empty() + node_rows(file@, false) =~= node_rows(file@, false));
        lemma_finding_views_index(stats.rows@);
    }
    stats.rows
}

} // verus!

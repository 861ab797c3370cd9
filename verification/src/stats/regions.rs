//! `unsafe` and `async` regions, and calls of `transmute`.
//!
//! A region is a block of the kind in question, or a function that carries the
//! qualifier. A function without the qualifier is no region and has no row. Every
//! function keeps the blocks of its body to itself: they are not counted for a
//! function around it.
//! The row of a region follows the rows of everything it encloses, so the rows of
//! a file come innermost first. A region is outermost when no region of the same
//! kind is open around it.

use crate::counting::{count, lemma_count_add, lemma_count_one};
use crate::stats::{
    finding_views,
    lemma_finding_views_index,
    lemma_finding_views_push,
    Detail,
    DetailView,
    Finding,
    FindingView,
};
use crate::syntax::{
    children_weight,
    lemma_children_weight_prefix,
    node_weight,
    views,
    GenericArgument,
    NodeKind,
    NodeView,
    Path,
    PathArguments,
    PathSegment,
    SyntaxNode,
};
use vstd::prelude::*;

verus! {

/// The kind of region that an analysis looks for.
#[derive(Clone, Copy, Debug, PartialEq, Eq, Structural)]
pub enum Qualifier {
    Unsafe,
    Async,
}

/// Whether a region is a whole function or a block.
#[derive(Clone, Copy, Debug, PartialEq, Eq, Structural)]
pub enum RegionType {
    Function,
    Block,
}

/// One region: a function that carries the qualifier, or a block.
#[derive(Clone, Copy, Debug, PartialEq, Eq)]
pub struct Row {
    pub ty: RegionType,
    /// For a function, the number of blocks of the same kind in its body.
    pub block_count: Option<usize>,
    pub first_line: usize,
    pub last_line: usize,
    /// Whether no region of the same kind encloses this one.
    pub outermost: bool,
}

/// [`Row`] as a mathematical value.
pub struct RowView {
    pub ty: RegionType,
    pub block_count: Option<nat>,
    pub first_line: usize,
    pub last_line: usize,
    pub outermost: bool,
}

impl View for Row {
    type V = RowView;

    open spec fn view(&self) -> RowView {
        RowView {
            ty: self.ty,
            block_count: match self.block_count {
                Some(n) => Some(n as nat),
                None => None,
            },
            first_line: self.first_line,
            last_line: self.last_line,
            outermost: self.outermost,
        }
    }
}

/// One call of `transmute` or `transmute_copy`, with the first and the second type
/// argument of the call as far as they are written.
#[derive(Clone, Debug, PartialEq, Eq)]
pub struct Transmute {
    pub from_type: Option<String>,
    pub to_type: Option<String>,
}

/// [`Transmute`] as a mathematical value.
pub struct TransmuteView {
    pub from_type: Option<Seq<char>>,
    pub to_type: Option<Seq<char>>,
}

impl View for Transmute {
    type V = TransmuteView;

    open spec fn view(&self) -> TransmuteView {
        TransmuteView {
            from_type: match self.from_type {
                Some(s) => Some(s@),
                None => None,
            },
            to_type: match self.to_type {
                Some(s) => Some(s@),
                None => None,
            },
        }
    }
}

impl Transmute {
    /// A row that says the same.
    pub fn duplicate(&self) -> (row: Transmute)
        ensures
            row@ == self@,
    {
        Transmute {
            from_type: match &self.from_type {
                Some(s) => Some(s.clone()),
                None => None,
            },
            to_type: match &self.to_type {
                Some(s) => Some(s.clone()),
                None => None,
            },
        }
    }
}

/// Whether a node is a block of the kind in question.
pub open spec fn is_block(kind: NodeKind, qualifier: Qualifier) -> bool {
    match qualifier {
        Qualifier::Unsafe => kind is ExprUnsafe,
        Qualifier::Async => kind is ExprAsync,
    }
}

/// Whether a node is a function that carries the qualifier.
pub open spec fn is_qualified_fn(kind: NodeKind, qualifier: Qualifier) -> bool {
    match kind {
        NodeKind::ItemFn { is_unsafe, is_async } => match qualifier {
            Qualifier::Unsafe => is_unsafe,
            Qualifier::Async => is_async,
        },
        _ => false,
    }
}

/// Whether a node is a region: it has a row, and what it encloses is not
/// outermost.
pub open spec fn is_region(kind: NodeKind, qualifier: Qualifier) -> bool {
    is_block(kind, qualifier) || is_qualified_fn(kind, qualifier)
}

/// The blocks that a tree adds to the count of the function around it: the
/// blocks of the kind in question in the tree, but for those inside a function of
/// the tree.
pub open spec fn block_count(node: NodeView, qualifier: Qualifier) -> nat
    decreases node,
{
    if node.kind is ItemFn {
        0
    } else if is_block(node.kind, qualifier) {
        1 + children_block_count(node.children, qualifier)
    } else {
        children_block_count(node.children, qualifier)
    }
}

/// The sum of [`block_count`] over a sequence of trees.
pub open spec fn children_block_count(children: Seq<NodeView>, qualifier: Qualifier) -> nat
    decreases children,
{
    if children.len() == 0 {
        0
    } else {
        children_block_count(children.drop_last(), qualifier) + block_count(
            children.last(),
            qualifier,
        )
    }
}

/// The type arguments among the arguments of a segment, as they are written.
pub open spec fn type_names(args: Seq<GenericArgument>) -> Seq<Seq<char>>
    decreases args.len(),
{
    if args.len() == 0 {
        Seq::empty()
    } else {
        match args.last() {
            GenericArgument::Type(name) => type_names(args.drop_last()).push(name@),
            _ => type_names(args.drop_last()),
        }
    }
}

/// The type arguments of a segment, as they are written.
pub open spec fn segment_type_names(segment: PathSegment) -> Seq<Seq<char>> {
    match segment.arguments {
        PathArguments::AngleBracketed(args) => type_names(args@),
        _ => Seq::empty(),
    }
}

/// Whether a function name is that of a call that reinterprets bytes.
pub open spec fn is_transmute(name: Seq<char>) -> bool {
    name == "transmute"@ || name == "transmute_copy"@
}

/// The element of a sequence at a position, if there is one.
pub open spec fn name_at(names: Seq<Seq<char>>, i: int) -> Option<Seq<char>> {
    if 0 <= i < names.len() {
        Some(names[i])
    } else {
        None
    }
}

/// The row of a call: one row if the callee is a path whose last segment is
/// named `transmute` or `transmute_copy`, with the first two type arguments of
/// that segment.
pub open spec fn call_rows(callee: Option<Path>, line: usize) -> Seq<FindingView> {
    match callee {
        Some(path) => if path.segments@.len() > 0 && is_transmute(
            path.segments@.last().ident@,
        ) {
            seq![
                FindingView {
                    line,
                    detail: DetailView::Transmute(
                        TransmuteView {
                            from_type: name_at(segment_type_names(path.segments@.last()), 0),
                            to_type: name_at(segment_type_names(path.segments@.last()), 1),
                        },
                    ),
                },
            ]
        } else {
            Seq::empty()
        },
        None => Seq::empty(),
    }
}

/// A region row as a finding of the analysis for `qualifier`.
pub open spec fn region_finding(qualifier: Qualifier, row: RowView) -> FindingView {
    FindingView {
        line: row.first_line,
        detail: match qualifier {
            Qualifier::Unsafe => DetailView::Unsafe(row),
            Qualifier::Async => DetailView::Async(row),
        },
    }
}

/// The row of a block.
pub open spec fn block_row(node: NodeView, inside: bool) -> RowView {
    RowView {
        ty: RegionType::Block,
        block_count: None,
        first_line: node.first_line,
        last_line: node.last_line,
        outermost: !inside,
    }
}

/// The row of a function that carries the qualifier.
pub open spec fn function_row(node: NodeView, qualifier: Qualifier, inside: bool) -> RowView {
    RowView {
        ty: RegionType::Function,
        block_count: Some(children_block_count(node.children, qualifier)),
        first_line: node.first_line,
        last_line: node.last_line,
        outermost: !inside,
    }
}

/// The rows of a tree that is met inside an open region of the same kind
/// (`inside`) or outside of any.
pub open spec fn node_rows(node: NodeView, qualifier: Qualifier, inside: bool) -> Seq<FindingView>
    decreases node,
{
    if is_block(node.kind, qualifier) {
        children_rows(node.children, qualifier, true).push(
            region_finding(qualifier, block_row(node, inside)),
        )
    } else if is_qualified_fn(node.kind, qualifier) {
        children_rows(node.children, qualifier, true).push(
            region_finding(qualifier, function_row(node, qualifier, inside)),
        )
    } else if qualifier == Qualifier::Unsafe && node.kind is ExprCall {
        children_rows(node.children, qualifier, inside) + call_rows(
            node.kind->ExprCall_0,
            node.first_line,
        )
    } else {
        children_rows(node.children, qualifier, inside)
    }
}

/// The rows of a sequence of trees, one tree after the other.
pub open spec fn children_rows(children: Seq<NodeView>, qualifier: Qualifier, inside: bool) -> Seq<
    FindingView,
>
    decreases children,
{
    if children.len() == 0 {
        Seq::empty()
    } else {
        children_rows(children.drop_last(), qualifier, inside) + node_rows(
            children.last(),
            qualifier,
            inside,
        )
    }
}

/// The rows and the count of the first `i + 1` trees are those of the first `i`
/// and then those of the tree at `i`.
pub proof fn lemma_children_step(children: Seq<NodeView>, qualifier: Qualifier, inside: bool, i: int)
    requires
        0 <= i < children.len(),
    ensures
        children_rows(children.take(i + 1), qualifier, inside) == children_rows(
            children.take(i),
            qualifier,
            inside,
        ) + node_rows(children[i], qualifier, inside),
        children_block_count(children.take(i + 1), qualifier) == children_block_count(
            children.take(i),
            qualifier,
        ) + block_count(children[i], qualifier),
        children_rows(children.take(0), qualifier, inside) == Seq::<FindingView>::empty(),
        children_block_count(children.take(0), qualifier) == 0,
{
    let next = children.take(i + 1);
    assert(next.drop_last() =~= children.take(i));
    assert(next.last() == children[i]);
    assert(children_rows(next, qualifier, inside) == children_rows(
        next.drop_last(),
        qualifier,
        inside,
    ) + node_rows(next.last(), qualifier, inside));
    assert(children_block_count(next, qualifier) == children_block_count(
        next.drop_last(),
        qualifier,
    ) + block_count(next.last(), qualifier));
    assert(children.take(0).len() == 0);
}

/// A tree holds no more blocks than it weighs.
pub proof fn lemma_block_count_bound(node: NodeView, qualifier: Qualifier)
    ensures
        block_count(node, qualifier) <= node_weight(node),
        children_block_count(node.children, qualifier) < node_weight(node),
    decreases node,
{
    lemma_children_block_count_bound(node.children, qualifier);
}

/// A sequence of trees holds no more blocks than it weighs.
pub proof fn lemma_children_block_count_bound(children: Seq<NodeView>, qualifier: Qualifier)
    ensures
        children_block_count(children, qualifier) <= children_weight(children),
    decreases children,
{
    if children.len() > 0 {
        lemma_children_block_count_bound(children.drop_last(), qualifier);
        lemma_block_count_bound(children.last(), qualifier);
    }
}

/// Whether a finding is a region row that is marked as outermost.
pub open spec fn is_outermost_region(finding: FindingView) -> bool {
    match finding.detail {
        DetailView::Unsafe(row) => row.outermost,
        DetailView::Async(row) => row.outermost,
        _ => false,
    }
}

/// Whether no finding of a sequence is a region row marked as outermost.
pub open spec fn none_outermost(rows: Seq<FindingView>) -> bool {
    forall|i: int| 0 <= i < rows.len() ==> !is_outermost_region(#[trigger] rows[i])
}

/// No region that is met inside an open region is marked as outermost.
pub proof fn lemma_enclosed_rows_not_outermost(node: NodeView, qualifier: Qualifier)
    ensures
        none_outermost(node_rows(node, qualifier, true)),
    decreases node,
{
    lemma_enclosed_children_not_outermost(node.children, qualifier);
}

/// No region of a sequence of trees that is met inside an open region is marked
/// as outermost.
pub proof fn lemma_enclosed_children_not_outermost(children: Seq<NodeView>, qualifier: Qualifier)
    ensures
        none_outermost(children_rows(children, qualifier, true)),
    decreases children,
{
    if children.len() > 0 {
        lemma_enclosed_children_not_outermost(children.drop_last(), qualifier);
        lemma_enclosed_rows_not_outermost(children.last(), qualifier);
    }
}

/// Outermost uniqueness: the row of a region is the last of its rows, after the
/// rows of all that it encloses; it is marked as outermost exactly when the
/// region was met outside of any open region; and none of the regions that it
/// encloses is marked as outermost. So of the regions along a chain of regions
/// that enclose one another, the topmost is marked and no other.
pub proof fn lemma_outermost_is_topmost(node: NodeView, qualifier: Qualifier, inside: bool)
    requires
        is_region(node.kind, qualifier),
    ensures
        node_rows(node, qualifier, inside).len() == children_rows(
            node.children,
            qualifier,
            true,
        ).len() + 1,
        node_rows(node, qualifier, inside).drop_last() == children_rows(
            node.children,
            qualifier,
            true,
        ),
        is_outermost_region(node_rows(node, qualifier, inside).last()) == !inside,
        none_outermost(node_rows(node, qualifier, inside).drop_last()),
{
    lemma_enclosed_children_not_outermost(node.children, qualifier);
    assert(node_rows(node, qualifier, inside).drop_last() =~= children_rows(
        node.children,
        qualifier,
        true,
    ));
}

/// What holds of every row of the analysis for `qualifier`: it is a region row
/// of that analysis or, in the analysis of `unsafe` code, a call of `transmute`;
/// and a region row carries a count exactly when it is the row of a function.
pub open spec fn is_shaped(qualifier: Qualifier, finding: FindingView) -> bool {
    match finding.detail {
        DetailView::Unsafe(row) => qualifier == Qualifier::Unsafe && (row.block_count is Some
            <==> row.ty == RegionType::Function),
        DetailView::Async(row) => qualifier == Qualifier::Async && (row.block_count is Some
            <==> row.ty == RegionType::Function),
        DetailView::Transmute(_) => qualifier == Qualifier::Unsafe,
        _ => false,
    }
}

/// Whether every finding of a sequence is shaped as the analysis shapes its rows.
pub open spec fn all_shaped(qualifier: Qualifier, rows: Seq<FindingView>) -> bool {
    forall|i: int| 0 <= i < rows.len() ==> is_shaped(qualifier, #[trigger] rows[i])
}

/// Every row of the analysis is a region row or a call of `transmute`, and the
/// rows of functions are those that carry a count.
pub proof fn lemma_rows_shaped(node: NodeView, qualifier: Qualifier, inside: bool)
    ensures
        all_shaped(qualifier, node_rows(node, qualifier, inside)),
    decreases node,
{
    lemma_children_rows_shaped(node.children, qualifier, inside);
    lemma_children_rows_shaped(node.children, qualifier, true);
}

/// Every row of the analysis for a sequence of trees is shaped as the analysis
/// shapes its rows.
pub proof fn lemma_children_rows_shaped(children: Seq<NodeView>, qualifier: Qualifier, inside: bool)
    ensures
        all_shaped(qualifier, children_rows(children, qualifier, inside)),
    decreases children,
{
    if children.len() > 0 {
        lemma_children_rows_shaped(children.drop_last(), qualifier, inside);
        lemma_rows_shaped(children.last(), qualifier, inside);
    }
}

/// Whether a tree holds a function.
pub open spec fn holds_function(node: NodeView) -> bool
    decreases node,
{
    node.kind is ItemFn || some_holds_function(node.children)
}

/// Whether one of the trees of a sequence holds a function.
pub open spec fn some_holds_function(children: Seq<NodeView>) -> bool
    decreases children,
{
    children.len() > 0 && (some_holds_function(children.drop_last()) || holds_function(
        children.last(),
    ))
}

/// Whether a finding is the row of a block.
pub open spec fn is_block_row() -> spec_fn(FindingView) -> bool {
    |finding: FindingView|
        match finding.detail {
            DetailView::Unsafe(row) => row.ty == RegionType::Block,
            DetailView::Async(row) => row.ty == RegionType::Block,
            _ => false,
        }
}

/// A tree that holds no function has as many block rows as it adds to the count
/// of the function around it.
proof fn lemma_block_rows_counted(node: NodeView, qualifier: Qualifier, inside: bool)
    requires
        !holds_function(node),
    ensures
        count(node_rows(node, qualifier, inside), is_block_row()) == block_count(node, qualifier),
    decreases node,
{
    let own = seq![region_finding(qualifier, block_row(node, inside))];
    if is_block(node.kind, qualifier) {
        lemma_children_block_rows_counted(node.children, qualifier, true);
        let below = children_rows(node.children, qualifier, true);
        assert(below.push(own[0]) =~= below + own);
        lemma_count_add(below, own, is_block_row());
        lemma_count_one(own[0], is_block_row());
        assert(own =~= seq![own[0]]);
    } else if qualifier == Qualifier::Unsafe && node.kind is ExprCall {
        lemma_children_block_rows_counted(node.children, qualifier, inside);
        let below = children_rows(node.children, qualifier, inside);
        let call = call_rows(node.kind->ExprCall_0, node.first_line);
        lemma_count_add(below, call, is_block_row());
        if call.len() > 0 {
            lemma_count_one(call[0], is_block_row());
            assert(call =~= seq![call[0]]);
        }
    } else {
        lemma_children_block_rows_counted(node.children, qualifier, inside);
    }
}

/// Trees that hold no function have as many block rows as they add to the count
/// of the function around them.
proof fn lemma_children_block_rows_counted(
    children: Seq<NodeView>,
    qualifier: Qualifier,
    inside: bool,
)
    requires
        !some_holds_function(children),
    ensures
        count(children_rows(children, qualifier, inside), is_block_row()) == children_block_count(
            children,
            qualifier,
        ),
    decreases children,
{
    if children.len() > 0 {
        lemma_children_block_rows_counted(children.drop_last(), qualifier, inside);
        lemma_block_rows_counted(children.last(), qualifier, inside);
        lemma_count_add(
            children_rows(children.drop_last(), qualifier, inside),
            node_rows(children.last(), qualifier, inside),
            is_block_row(),
        );
    }
}

/// Post-order emission: the row of a function that carries the qualifier is the
/// last of its rows, and where the function holds no function of its own, the
/// count of the row is the number of block rows that come before it.
pub proof fn lemma_function_counts_its_block_rows(
    node: NodeView,
    qualifier: Qualifier,
    inside: bool,
)
    requires
        is_qualified_fn(node.kind, qualifier),
        !some_holds_function(node.children),
    ensures
        node_rows(node, qualifier, inside).last() == region_finding(
            qualifier,
            function_row(node, qualifier, inside),
        ),
        function_row(node, qualifier, inside).block_count == Some(
            count(node_rows(node, qualifier, inside).drop_last(), is_block_row()),
        ),
{
    lemma_children_block_rows_counted(node.children, qualifier, true);
    assert(node_rows(node, qualifier, inside).drop_last() =~= children_rows(
        node.children,
        qualifier,
        true,
    ));
}

/// The tree that a path leads to: the path names, from `root` down, the
/// position of each node among the children of the node before it.
pub open spec fn subtree(root: NodeView, path: Seq<int>) -> Option<NodeView>
    decreases path.len(),
{
    if path.len() == 0 {
        Some(root)
    } else if 0 <= path[0] < root.children.len() {
        subtree(root.children[path[0]], path.skip(1))
    } else {
        None
    }
}

/// Whether the tree that a path leads to lies in a region: whether a node on
/// the path, from `root` down to the parent of that tree, is a region.
pub open spec fn is_enclosed(root: NodeView, path: Seq<int>, qualifier: Qualifier) -> bool
    decreases path.len(),
{
    path.len() > 0 && (is_region(root.kind, qualifier) || (0 <= path[0] < root.children.len()
        && is_enclosed(root.children[path[0]], path.skip(1), qualifier)))
}

/// Whether the findings `part` stand in `whole` at the position `at`, one after
/// the other.
pub open spec fn stands_at(part: Seq<FindingView>, whole: Seq<FindingView>, at: int) -> bool {
    0 <= at && at + part.len() <= whole.len() && whole.subrange(at, at + part.len()) == part
}

/// Whether the findings `part` stand somewhere in `whole`, one after the other.
pub open spec fn stands_in(part: Seq<FindingView>, whole: Seq<FindingView>) -> bool {
    exists|at: int| stands_at(part, whole, at)
}

/// What stands in a sequence stands in it with anything before and behind.
proof fn lemma_stands_in_longer(
    part: Seq<FindingView>,
    middle: Seq<FindingView>,
    before: Seq<FindingView>,
    after: Seq<FindingView>,
)
    requires
        stands_in(part, middle),
    ensures
        stands_in(part, before + middle + after),
{
    let at = choose|at: int| stands_at(part, middle, at);
    let whole = before + middle + after;
    assert(whole.subrange(before.len() + at, before.len() + at + part.len()) =~= middle.subrange(
        at,
        at + part.len(),
    ));
    assert(stands_at(part, whole, before.len() + at));
}

/// The rows of each tree of a sequence stand in the rows of the sequence.
proof fn lemma_child_rows_stand_in(
    children: Seq<NodeView>,
    qualifier: Qualifier,
    inside: bool,
    i: int,
)
    requires
        0 <= i < children.len(),
    ensures
        stands_in(node_rows(children[i], qualifier, inside), children_rows(
            children,
            qualifier,
            inside,
        )),
    decreases children.len(),
{
    let front = children_rows(children.drop_last(), qualifier, inside);
    let last = node_rows(children.last(), qualifier, inside);
    let none = Seq::<FindingView>::empty();
    assert(children_rows(children, qualifier, inside) == front + last);
    if i == children.len() - 1 {
        assert(stands_at(last, last, 0)) by {
            assert(last.subrange(0, last.len() as int) =~= last);
        }
        lemma_stands_in_longer(last, last, front, none);
        assert(front + last + none =~= front + last);
    } else {
        assert(children.drop_last()[i] == children[i]);
        lemma_child_rows_stand_in(children.drop_last(), qualifier, inside, i);
        lemma_stands_in_longer(node_rows(children[i], qualifier, inside), front, none, last);
        assert(none + front + last =~= front + last);
    }
}

/// The rows of a tree within the rows of a tree around it: what the analysis
/// reports for the tree that a path leads to stands in its report for `root` in
/// one piece, and it is what is reported for a tree that is met inside a region
/// exactly when `root` was or a region on the path encloses the tree.
pub proof fn lemma_rows_of_subtree(
    root: NodeView,
    path: Seq<int>,
    qualifier: Qualifier,
    inside: bool,
)
    requires
        subtree(root, path) is Some,
    ensures
        stands_in(
            node_rows(
                subtree(root, path).unwrap(),
                qualifier,
                inside || is_enclosed(root, path, qualifier),
            ),
            node_rows(root, qualifier, inside),
        ),
    decreases path.len(),
{
    let whole = node_rows(root, qualifier, inside);
    let none = Seq::<FindingView>::empty();
    if path.len() == 0 {
        assert(stands_at(whole, whole, 0)) by {
            assert(whole.subrange(0, whole.len() as int) =~= whole);
        }
    } else {
        let child = root.children[path[0]];
        let below = inside || is_region(root.kind, qualifier);
        let part = node_rows(
            subtree(root, path).unwrap(),
            qualifier,
            inside || is_enclosed(root, path, qualifier),
        );
        lemma_rows_of_subtree(child, path.skip(1), qualifier, below);
        let of_child = node_rows(child, qualifier, below);
        let of_children = children_rows(root.children, qualifier, below);
        lemma_child_rows_stand_in(root.children, qualifier, below, path[0]);
        let at = choose|at: int| stands_at(part, of_child, at);
        let at_child = choose|at: int| stands_at(of_child, of_children, at);
        assert(stands_at(part, of_children, at_child + at)) by {
            assert(of_children.subrange(at_child + at, at_child + at + part.len())
                =~= of_children.subrange(at_child, at_child + of_child.len()).subrange(
                at,
                at + part.len(),
            ));
        }
        if is_block(root.kind, qualifier) {
            let own = seq![region_finding(qualifier, block_row(root, inside))];
            lemma_stands_in_longer(part, of_children, none, own);
            assert(none + of_children + own =~= whole);
        } else if is_qualified_fn(root.kind, qualifier) {
            let own = seq![region_finding(qualifier, function_row(root, qualifier, inside))];
            lemma_stands_in_longer(part, of_children, none, own);
            assert(none + of_children + own =~= whole);
        } else if qualifier == Qualifier::Unsafe && root.kind is ExprCall {
            let own = call_rows(root.kind->ExprCall_0, root.first_line);
            lemma_stands_in_longer(part, of_children, none, own);
            assert(none + of_children + own =~= whole);
        } else {
            lemma_stands_in_longer(part, of_children, none, none);
            assert(none + of_children + none =~= whole);
        }
    }
}

/// Outermost uniqueness, from the root of a file: the region that a path leads
/// to has its row among the rows of the file, behind the rows of what it
/// encloses, and the row is marked as outermost exactly when no region on the
/// path encloses it. So of the regions on a path, each in the one before, the
/// first is marked and no other.
pub proof fn lemma_outermost_iff_not_enclosed(file: NodeView, path: Seq<int>, qualifier: Qualifier)
    requires
        subtree(file, path) is Some,
        is_region(subtree(file, path).unwrap().kind, qualifier),
    ensures
        exists|at: int|
            0 <= at < node_rows(file, qualifier, false).len() && node_rows(
                file,
                qualifier,
                false,
            )[at] == node_rows(
                subtree(file, path).unwrap(),
                qualifier,
                is_enclosed(file, path, qualifier),
            ).last() && is_outermost_region(#[trigger] node_rows(file, qualifier, false)[at])
                == !is_enclosed(file, path, qualifier),
{
    let region = subtree(file, path).unwrap();
    let enclosed = is_enclosed(file, path, qualifier);
    let part = node_rows(region, qualifier, enclosed);
    let whole = node_rows(file, qualifier, false);
    lemma_rows_of_subtree(file, path, qualifier, false);
    lemma_outermost_is_topmost(region, qualifier, enclosed);
    let at = choose|at: int| stands_at(part, whole, at);
    let last = at + part.len() - 1;
    assert(whole.subrange(at, at + part.len())[part.len() - 1] == whole[last]);
    assert(is_outermost_region(whole[last]) == !enclosed);
}

/// The views of a sequence of strings.
pub open spec fn string_views(names: Seq<String>) -> Seq<Seq<char>> {
    Seq::new(names.len(), |i: int| names[i]@)
}

/// The type arguments of a call, as they are written.
#[derive(Debug)]
pub struct CallParamList {
    pub params: Vec<String>,
}

impl CallParamList {
    /// Keeps the argument if it is a type.
    fn visit_generic_argument(&mut self, node: &GenericArgument)
        ensures
            string_views(final(self).params@) == match *node {
                GenericArgument::Type(name) => string_views(old(self).params@).push(name@),
                _ => string_views(old(self).params@),
            },
    {
        match node {
            GenericArgument::Type(t) => {
                self.params.push(t.clone());
                proof {
                    assert(string_views(self.params@) =~= string_views(old(self).params@).push(
                        t@,
                    ));
                }
            },
            _ => {},
        }
    }

    /// Keeps the type arguments of a segment.
    fn visit_path_segment(&mut self, segment: &PathSegment)
        ensures
            string_views(final(self).params@) == string_views(old(self).params@)
                + segment_type_names(*segment),
    {
        match &segment.arguments {
            PathArguments::AngleBracketed(args) => {
                let mut i: usize = 0;
                proof {
                    assert(args@.take(0).len() == 0);
                    assert(string_views(self.params@) + Seq::<Seq<char>>::empty() =~= string_views(
                        self.params@,
                    ));
                }
                while i < args.len()
                    invariant
                        0 <= i <= args.len(),
                        string_views(self.params@) == string_views(old(self).params@) + type_names(
                            args@.take(i as int),
                        ),
                    decreases args.len() - i,
                {
                    proof {
                        let next = args@.take(i as int + 1);
                        assert(next.drop_last() =~= args@.take(i as int));
                        assert(next.last() == args@[i as int]);
                        assert(type_names(next) == match next.last() {
                            GenericArgument::Type(name) => type_names(next.drop_last()).push(name@),
                            _ => type_names(next.drop_last()),
                        });
                    }
                    self.visit_generic_argument(&args[i]);
                    proof {
                        let before = string_views(old(self).params@);
                        let names = type_names(args@.take(i as int));
                        match args@[i as int] {
                            GenericArgument::Type(name) => {
                                assert((before + names).push(name@) =~= before + names.push(
                                    name@,
                                ));
                            },
                            _ => {},
                        }
                    }
                    i = i + 1;
                }
                proof {
                    assert(args@.take(i as int) =~= args@);
                }
            },
            _ => {
                proof {
                    assert(string_views(self.params@) + Seq::<Seq<char>>::empty() =~= string_views(
                        self.params@,
                    ));
                }
            },
        }
    }
}

/// Whether a function name is that of a call that reinterprets bytes.
pub fn is_transmute_name(name: &String) -> (b: bool)
    ensures
        b == is_transmute(name@),
{
    *name == String::from_str("transmute") || *name == String::from_str("transmute_copy")
}

/// The rows that an analysis has reported so far.
#[derive(Debug)]
pub struct Stats {
    pub rows: Vec<Finding>,
}

impl View for Stats {
    type V = Seq<FindingView>;

    open spec fn view(&self) -> Seq<FindingView> {
        finding_views(self.rows@)
    }
}

impl Stats {
    /// An analysis that has reported nothing yet.
    pub fn new() -> (stats: Stats)
        ensures
            stats@ == Seq::<FindingView>::empty(),
    {
        let stats = Stats { rows: Vec::new() };
        proof {
            assert(stats@ =~= Seq::<FindingView>::empty());
        }
        stats
    }

    /// Reports a region row.
    fn push(&mut self, qualifier: Qualifier, row: Row)
        ensures
            final(self)@ == old(self)@.push(region_finding(qualifier, row@)),
    {
        let finding = Finding {
            line: row.first_line,
            detail: match qualifier {
                Qualifier::Unsafe => Detail::Unsafe(row),
                Qualifier::Async => Detail::Async(row),
            },
        };
        proof {
            lemma_finding_views_push(self.rows@, finding);
        }
        self.rows.push(finding);
    }

    /// Reports what a function encloses and then, if the function carries the
    /// qualifier, the function itself with the number of blocks in its body.
    /// Returns what the function adds to the count of a function around it:
    /// nothing.
    fn visit_item_fn(&mut self, node: &SyntaxNode, qualifier: Qualifier, inside: bool) -> (count:
        usize)
        requires
            node@.kind is ItemFn,
        ensures
            final(self)@ == old(self)@ + node_rows(node@, qualifier, inside),
            count == block_count(node@, qualifier),
        decreases node@, 1nat,
    {
        // A tree weighs no more than a `usize` holds, so nothing counted in it does.
        let _ = node.weight();
        proof {
            lemma_block_count_bound(node@, qualifier);
        }
        let qualified = match node.kind() {
            NodeKind::ItemFn { is_unsafe, is_async } => match qualifier {
                Qualifier::Unsafe => *is_unsafe,
                Qualifier::Async => *is_async,
            },
            _ => false,
        };
        if !qualified {
            let _ = self.visit_children(node.children(), qualifier, inside);
            return 0;
        }
        let count = self.visit_children(node.children(), qualifier, true);
        let ghost enclosed = self@;
        self.push(
            qualifier,
            Row {
                ty: RegionType::Function,
                block_count: Some(count),
                first_line: node.first_line(),
                last_line: node.last_line(),
                outermost: !inside,
            },
        );
        proof {
            let below = children_rows(node@.children, qualifier, true);
            let own = region_finding(qualifier, function_row(node@, qualifier, inside));
            assert((old(self)@ + below).push(own) =~= old(self)@ + below.push(own));
        }
        0
    }

    /// Reports what a block encloses and then the block itself. Returns what the
    /// block adds to the count of the function around it: itself and the blocks
    /// that it encloses.
    fn visit_expr_block(&mut self, node: &SyntaxNode, qualifier: Qualifier, inside: bool) -> (count:
        usize)
        requires
            is_block(node@.kind, qualifier),
        ensures
            final(self)@ == old(self)@ + node_rows(node@, qualifier, inside),
            count == block_count(node@, qualifier),
        decreases node@, 1nat,
    {
        // A tree weighs no more than a `usize` holds, so nothing counted in it does.
        let _ = node.weight();
        proof {
            lemma_block_count_bound(node@, qualifier);
        }
        let count = self.visit_children(node.children(), qualifier, true);
        self.push(
            qualifier,
            Row {
                ty: RegionType::Block,
                block_count: None,
                first_line: node.first_line(),
                last_line: node.last_line(),
                outermost: !inside,
            },
        );
        proof {
            let below = children_rows(node@.children, qualifier, true);
            let own = region_finding(qualifier, block_row(node@, inside));
            assert((old(self)@ + below).push(own) =~= old(self)@ + below.push(own));
        }
        count + 1
    }

    /// Reports what an `unsafe` block encloses and then the block itself.
    fn visit_expr_unsafe(&mut self, node: &SyntaxNode, inside: bool) -> (count: usize)
        requires
            node@.kind is ExprUnsafe,
        ensures
            final(self)@ == old(self)@ + node_rows(node@, Qualifier::Unsafe, inside),
            count == block_count(node@, Qualifier::Unsafe),
        decreases node@, 2nat,
    {
        self.visit_expr_block(node, Qualifier::Unsafe, inside)
    }

    /// Reports what an `async` block encloses and then the block itself.
    fn visit_expr_async(&mut self, node: &SyntaxNode, inside: bool) -> (count: usize)
        requires
            node@.kind is ExprAsync,
        ensures
            final(self)@ == old(self)@ + node_rows(node@, Qualifier::Async, inside),
            count == block_count(node@, Qualifier::Async),
        decreases node@, 2nat,
    {
        self.visit_expr_block(node, Qualifier::Async, inside)
    }

    /// Reports what a call encloses and then, if it is a call of `transmute` or
    /// `transmute_copy`, the call itself. Returns the blocks that the call
    /// encloses.
    fn visit_expr_call(&mut self, node: &SyntaxNode, inside: bool) -> (count: usize)
        requires
            node@.kind is ExprCall,
        ensures
            final(self)@ == old(self)@ + node_rows(node@, Qualifier::Unsafe, inside),
            count == block_count(node@, Qualifier::Unsafe),
        decreases node@, 1nat,
    {
        // A tree weighs no more than a `usize` holds, so nothing counted in it does.
        let _ = node.weight();
        proof {
            lemma_block_count_bound(node@, Qualifier::Unsafe);
        }
        let count = self.visit_children(node.children(), Qualifier::Unsafe, inside);
        let ghost below = children_rows(node@.children, Qualifier::Unsafe, inside);
        proof {
            assert((old(self)@ + below) + Seq::<FindingView>::empty() =~= old(self)@ + (below
                + Seq::<FindingView>::empty()));
        }
        let path = match node.kind() {
            NodeKind::ExprCall(Some(path)) => path,
            _ => {
                return count;
            },
        };
        let n = path.segments.len();
        if n == 0 {
            return count;
        }
        let segment = &path.segments[n - 1];
        let mut list = CallParamList { params: Vec::new() };
        list.visit_path_segment(segment);
        if !is_transmute_name(&segment.ident) {
            return count;
        }
        proof {
            assert(string_views(list.params@) =~= segment_type_names(*segment));
        }
        let from_type = if list.params.len() > 0 {
            Some(list.params[0].clone())
        } else {
            None
        };
        let to_type = if list.params.len() > 1 {
            Some(list.params[1].clone())
        } else {
            None
        };
        let finding = Finding {
            line: node.first_line(),
            detail: Detail::Transmute(Transmute { from_type, to_type }),
        };
        proof {
            lemma_finding_views_push(self.rows@, finding);
            assert((old(self)@ + below) + seq![finding@] =~= old(self)@ + (below + seq![finding@]));
        }
        self.rows.push(finding);
        count
    }

    /// Reports the rows of a sequence of trees, one tree after the other, and
    /// returns what they add to the count of the function around them.
    fn visit_children(
        &mut self,
        children: &Vec<SyntaxNode>,
        qualifier: Qualifier,
        inside: bool,
    ) -> (count: usize)
        requires
            children_weight(views(children@)) <= usize::MAX,
        ensures
            final(self)@ == old(self)@ + children_rows(views(children@), qualifier, inside),
            count == children_block_count(views(children@), qualifier),
        decreases views(children@), 0nat,
    {
        let ghost below = views(children@);
        let mut count: usize = 0;
        let mut i: usize = 0;
        proof {
            assert(below.take(0).len() == 0);
            assert(self@ + Seq::<FindingView>::empty() =~= self@);
        }
        while i < children.len()
            invariant
                0 <= i <= children.len(),
                below == views(children@),
                children_weight(below) <= usize::MAX,
                self@ == old(self)@ + children_rows(below.take(i as int), qualifier, inside),
                count == children_block_count(below.take(i as int), qualifier),
            decreases children.len() - i,
        {
            proof {
                lemma_children_step(below, qualifier, inside, i as int);
                lemma_children_block_count_bound(below.take(i as int + 1), qualifier);
                lemma_children_weight_prefix(below, i as int + 1);
            }
            let added = self.visit(&children[i], qualifier, inside);
            proof {
                let done = children_rows(below.take(i as int), qualifier, inside);
                let step = node_rows(below[i as int], qualifier, inside);
                assert((old(self)@ + done) + step =~= old(self)@ + (done + step));
            }
            count = count + added;
            i = i + 1;
        }
        proof {
            assert(below.take(i as int) =~= below);
        }
        count
    }

    /// Reports the rows of a tree that is met inside an open region of the same
    /// kind (`inside`) or outside of any, and returns what the tree adds to the
    /// count of the function around it.
    pub fn visit(&mut self, node: &SyntaxNode, qualifier: Qualifier, inside: bool) -> (count: usize)
        ensures
            final(self)@ == old(self)@ + node_rows(node@, qualifier, inside),
            count == block_count(node@, qualifier),
        decreases node@, 3nat,
    {
        // A tree weighs no more than a `usize` holds, so nothing counted in it does.
        let _ = node.weight();
        proof {
            lemma_block_count_bound(node@, qualifier);
        }
        match node.kind() {
            NodeKind::ItemFn { is_unsafe, is_async } => self.visit_item_fn(node, qualifier, inside),
            NodeKind::ExprUnsafe => match qualifier {
                Qualifier::Unsafe => self.visit_expr_unsafe(node, inside),
                Qualifier::Async => self.visit_children(node.children(), qualifier, inside),
            },
            NodeKind::ExprAsync => match qualifier {
                Qualifier::Unsafe => self.visit_children(node.children(), qualifier, inside),
                Qualifier::Async => self.visit_expr_async(node, inside),
            },
            NodeKind::ExprCall(_) => match qualifier {
                Qualifier::Unsafe => self.visit_expr_call(node, inside),
                Qualifier::Async => self.visit_children(node.children(), qualifier, inside),
            },
            _ => self.visit_children(node.children(), qualifier, inside),
        }
    }
}

/// The rows of the analysis of `unsafe` code for one source file: its `unsafe`
/// regions and its calls of `transmute`.
pub fn collect_unsafe(file: &SyntaxNode) -> (rows: Vec<Finding>)
    ensures
        finding_views(rows@) == node_rows(file@, Qualifier::Unsafe, false),
        rows@.len() == node_rows(file@, Qualifier::Unsafe, false).len(),
        forall|i: int|
            0 <= i < rows@.len() ==> (#[trigger] rows@[i])@ == node_rows(
                file@,
                Qualifier::Unsafe,
                false,
            )[i],
{
    let mut stats = Stats::new();
    let _ = stats.visit(file, Qualifier::Unsafe, false);
    proof {
        let rows = node_rows(file@, Qualifier::Unsafe, false);
        assert(Seq::<FindingView>::empty() + rows =~= rows);
        lemma_finding_views_index(stats.rows@);
    }
    stats.rows
}

/// The rows of the analysis of `async` code for one source file: its `async`
/// regions.
pub fn collect_async(file: &SyntaxNode) -> (rows: Vec<Finding>)
    ensures
        finding_views(rows@) == node_rows(file@, Qualifier::Async, false),
        rows@.len() == node_rows(file@, Qualifier::Async, false).len(),
        forall|i: int|
            0 <= i < rows@.len() ==> (#[trigger] rows@[i])@ == node_rows(
                file@,
                Qualifier::Async,
                false,
            )[i],
{
    let mut stats = Stats::new();
    let _ = stats.visit(file, Qualifier::Async, false);
    proof {
        let rows = node_rows(file@, Qualifier::Async, false);
        assert(Seq::<FindingView>::empty() + rows =~= rows);
        lemma_finding_views_index(stats.rows@);
    }
    stats.rows
}

} // verus!

//! The syntax tree that the analyses read.
//!
//! A parsed source file is handed over as a tree of [`SyntaxNode`]s in the order
//! in which the source is written. A node is kept for every construct that some
//! analysis looks at; what lies between such constructs is left out, so that the
//! children of a node are the nearest constructs of interest below it.

use crate::counting::{lemma_total_prefix, lemma_total_step, total};
use vstd::prelude::*;

verus! {

/// One argument between the angle brackets of a path segment.
#[derive(Clone, Debug, PartialEq, Eq)]
pub enum GenericArgument {
    /// A lifetime, as in `Ref<'a>`.
    Lifetime,
    /// A type, as in `Vec<u8>`, with the type as it is written.
    Type(String),
    /// A constant expression, as in `Array<3>`.
    Const,
    /// A binding of an associated type, as in `Iterator<Item = u8>`.
    Binding,
    /// A bound on an associated type, as in `Iterator<Item: Display>`.
    Constraint,
}

/// The arguments of one path segment.
#[derive(Clone, Debug, PartialEq, Eq)]
pub enum PathArguments {
    /// No arguments, as in `Iterator`.
    Absent,
    /// Arguments in angle brackets, as in `Iterator<Item = u8>`.
    AngleBracketed(Vec<GenericArgument>),
    /// Arguments in parentheses, as in `Fn(u8, u8) -> bool`: the number of
    /// argument types, and whether a result type is written.
    Parenthesized { inputs: usize, output: bool },
}

/// One segment of a path: a name and its arguments.
#[derive(Clone, Debug, PartialEq, Eq)]
pub struct PathSegment {
    pub ident: String,
    pub arguments: PathArguments,
}

/// A path such as `std::iter::Iterator<Item = u8>`, and the line it starts on.
#[derive(Clone, Debug, PartialEq, Eq)]
pub struct Path {
    pub segments: Vec<PathSegment>,
    pub line: usize,
}

/// One bound of a bound list such as `Iterator + Send + 'a`.
#[derive(Clone, Debug, PartialEq, Eq)]
pub enum TypeParamBound {
    Trait(Path),
    Lifetime,
}

/// The kind of a generic parameter of a declaration.
#[derive(Clone, Copy, Debug, PartialEq, Eq)]
pub enum GenericParam {
    Type,
    Lifetime,
    Const,
}

/// An item in the body of a trait or of an impl block.
#[derive(Clone, Copy, Debug, PartialEq, Eq)]
pub enum AssocItem {
    /// An associated type; `generic` when it has generic parameters of its own.
    Type { generic: bool },
    /// A method, a constant or anything else.
    Other,
}

/// A trait declaration: its name, the line of the name, its generic parameters
/// and the items of its body.
#[derive(Clone, Debug, PartialEq, Eq)]
pub struct ItemTrait {
    pub ident: String,
    pub line: usize,
    pub params: Vec<GenericParam>,
    pub items: Vec<AssocItem>,
}

/// An impl block: the path of the trait it implements, if it implements one, and
/// the items of its body.
#[derive(Clone, Debug, PartialEq, Eq)]
pub struct ItemImpl {
    pub trait_path: Option<Path>,
    pub items: Vec<AssocItem>,
}

/// What a node of the tree is.
#[derive(Clone, Debug, PartialEq, Eq)]
pub enum NodeKind {
    /// A construct that only groups its children (a file, a module, a block).
    Other,
    /// A function: a free function, or a method of an impl block or of a trait.
    ItemFn { is_unsafe: bool, is_async: bool },
    /// A trait declaration.
    ItemTrait(ItemTrait),
    /// An impl block.
    ItemImpl(ItemImpl),
    /// A parameter of a function or of a closure.
    FnArg,
    /// The result type of a function, of a closure or of parenthesized path
    /// arguments.
    ReturnType,
    /// A type `impl A + B`, with its bounds.
    TypeImplTrait(Vec<TypeParamBound>),
    /// A type `dyn A + B`, with its bounds.
    TypeTraitObject(Vec<TypeParamBound>),
    /// A predicate `T: A + B` of a `where` clause, with its bounds.
    PredicateType(Vec<TypeParamBound>),
    /// A closure expression.
    ExprClosure,
    /// A call expression, with the path of the function that is called where the
    /// callee is written as a path. The callee's own constructs stand below a
    /// child of kind [`NodeKind::Callee`]; the other children belong to the
    /// arguments.
    ExprCall(Option<Path>),
    /// The callee of a call expression.
    Callee,
    /// An `unsafe` block.
    ExprUnsafe,
    /// An `async` block.
    ExprAsync,
}

/// How many arguments a path segment carries.
pub open spec fn arguments_size(arguments: PathArguments) -> nat {
    match arguments {
        PathArguments::Absent => 0,
        PathArguments::AngleBracketed(args) => args@.len(),
        PathArguments::Parenthesized { inputs, output } => inputs as nat + if output {
            1nat
        } else {
            0nat
        },
    }
}

/// [`arguments_size`] of a segment, as a function.
pub open spec fn segment_size() -> spec_fn(PathSegment) -> nat {
    |s: PathSegment| arguments_size(s.arguments)
}

/// How many arguments the segments of a path carry together.
pub open spec fn path_size(path: Path) -> nat {
    total(path.segments@, segment_size())
}

/// [`path_size`] of a trait bound, `0` for a lifetime, as a function.
pub open spec fn bound_size() -> spec_fn(TypeParamBound) -> nat {
    |b: TypeParamBound|
        match b {
            TypeParamBound::Trait(p) => path_size(p),
            TypeParamBound::Lifetime => 0,
        }
}

/// How many items and path arguments the description of a node holds that the
/// analyses add up.
pub open spec fn kind_size(kind: NodeKind) -> nat {
    match kind {
        NodeKind::ItemImpl(i) => i.items@.len() + match i.trait_path {
            Some(p) => path_size(p),
            None => 0,
        },
        NodeKind::TypeImplTrait(bounds) => total(bounds@, bound_size()),
        NodeKind::TypeTraitObject(bounds) => total(bounds@, bound_size()),
        NodeKind::PredicateType(bounds) => total(bounds@, bound_size()),
        _ => 0,
    }
}

/// A syntax tree as a mathematical value.
pub struct NodeView {
    pub kind: NodeKind,
    pub first_line: usize,
    pub last_line: usize,
    pub children: Seq<NodeView>,
}

/// The number of nodes of a tree plus the sizes of their descriptions.
pub open spec fn node_weight(node: NodeView) -> nat
    decreases node,
{
    1 + kind_size(node.kind) + children_weight(node.children)
}

/// The sum of [`node_weight`] over a sequence of trees.
pub open spec fn children_weight(children: Seq<NodeView>) -> nat
    decreases children,
{
    if children.len() == 0 {
        0
    } else {
        children_weight(children.drop_last()) + node_weight(children.last())
    }
}

/// A node of a syntax tree with the subtree below it.
///
/// A tree can only be built if the number of its nodes, items and path arguments
/// fits in a `usize`, so that the analyses can count them without overflow.
#[derive(Debug)]
pub struct SyntaxNode {
    kind: NodeKind,
    first_line: usize,
    last_line: usize,
    children: Vec<SyntaxNode>,
    weight: usize,
}

/// The trees of a sequence of nodes.
pub open spec fn views(nodes: Seq<SyntaxNode>) -> Seq<NodeView> {
    Seq::new(nodes.len(), |i: int| nodes[i]@)
}

impl View for SyntaxNode {
    type V = NodeView;

    closed spec fn view(&self) -> NodeView
        decreases self,
    {
        NodeView {
            kind: self.kind,
            first_line: self.first_line,
            last_line: self.last_line,
            children: views_below(self.children@),
        }
    }
}

/// The trees of the nodes below a node, one after the other.
spec fn views_below(nodes: Seq<SyntaxNode>) -> Seq<NodeView>
    decreases nodes,
{
    if nodes.len() == 0 {
        Seq::empty()
    } else {
        views_below(nodes.drop_last()).push(nodes.last().view())
    }
}

/// The trees below a node are the views of the nodes below it.
proof fn lemma_views_below(nodes: Seq<SyntaxNode>)
    ensures
        views_below(nodes) == views(nodes),
    decreases nodes.len(),
{
    if nodes.len() > 0 {
        lemma_views_below(nodes.drop_last());
        assert(views_below(nodes) == views_below(nodes.drop_last()).push(nodes.last().view()));
        assert(views(nodes.drop_last()).len() == nodes.len() - 1);
        assert forall|i: int| 0 <= i < nodes.len() implies views_below(nodes)[i] == nodes[i]@ by {
            if i < nodes.len() - 1 {
                assert(nodes.drop_last()[i] == nodes[i]);
            }
        }
    }
    assert(views_below(nodes) =~= views(nodes));
}

/// The arguments that a path carries, if their number fits in a `usize`.
fn path_weight(path: &Path) -> (w: Option<usize>)
    ensures
        w == if path_size(*path) <= usize::MAX {
            Some(path_size(*path) as usize)
        } else {
            None
        },
{
    let mut sum: usize = 0;
    let mut i: usize = 0;
    while i < path.segments.len()
        invariant
            0 <= i <= path.segments.len(),
            sum == total(path.segments@.take(i as int), segment_size()),
        decreases path.segments.len() - i,
    {
        proof {
            lemma_total_step(path.segments@, segment_size(), i as int);
            lemma_total_prefix(path.segments@, segment_size(), i as int + 1);
        }
        let size: Option<usize> = match &path.segments[i].arguments {
            PathArguments::Absent => Some(0),
            PathArguments::AngleBracketed(args) => Some(args.len()),
            PathArguments::Parenthesized { inputs, output } => inputs.checked_add(
                if *output {
                    1
                } else {
                    0
                },
            ),
        };
        let next = match size {
            Some(s) => sum.checked_add(s),
            None => None,
        };
        match next {
            Some(n) => {
                sum = n;
            },
            None => {
                return None;
            },
        }
        i = i + 1;
    }
    proof {
        assert(path.segments@.take(i as int) =~= path.segments@);
    }
    Some(sum)
}

/// The arguments that the trait paths of a bound list carry together, if their
/// number fits in a `usize`.
fn bounds_weight(bounds: &Vec<TypeParamBound>) -> (w: Option<usize>)
    ensures
        w == if total(bounds@, bound_size()) <= usize::MAX {
            Some(total(bounds@, bound_size()) as usize)
        } else {
            None
        },
{
    let mut sum: usize = 0;
    let mut i: usize = 0;
    while i < bounds.len()
        invariant
            0 <= i <= bounds.len(),
            sum == total(bounds@.take(i as int), bound_size()),
        decreases bounds.len() - i,
    {
        proof {
            lemma_total_step(bounds@, bound_size(), i as int);
            lemma_total_prefix(bounds@, bound_size(), i as int + 1);
        }
        let size: Option<usize> = match &bounds[i] {
            TypeParamBound::Trait(p) => path_weight(p),
            TypeParamBound::Lifetime => Some(0),
        };
        let next = match size {
            Some(s) => sum.checked_add(s),
            None => None,
        };
        match next {
            Some(n) => {
                sum = n;
            },
            None => {
                return None;
            },
        }
        i = i + 1;
    }
    proof {
        assert(bounds@.take(i as int) =~= bounds@);
    }
    Some(sum)
}

/// The size of a node's description, if it fits in a `usize`.
fn kind_weight(kind: &NodeKind) -> (w: Option<usize>)
    ensures
        w == if kind_size(*kind) <= usize::MAX {
            Some(kind_size(*kind) as usize)
        } else {
            None
        },
{
    match kind {
        NodeKind::ItemImpl(i) => {
            let path = match &i.trait_path {
                Some(p) => path_weight(p),
                None => Some(0),
            };
            match path {
                Some(p) => i.items.len().checked_add(p),
                None => None,
            }
        },
        NodeKind::TypeImplTrait(bounds) => bounds_weight(bounds),
        NodeKind::TypeTraitObject(bounds) => bounds_weight(bounds),
        NodeKind::PredicateType(bounds) => bounds_weight(bounds),
        _ => Some(0),
    }
}

/// The weights of the first `i + 1` trees add the tree at `i` to the weights of
/// the first `i`.
pub proof fn lemma_children_weight_step(children: Seq<NodeView>, i: int)
    requires
        0 <= i < children.len(),
    ensures
        children_weight(children.take(i + 1)) == children_weight(children.take(i)) + node_weight(
            children[i],
        ),
        children_weight(children.take(0)) == 0,
{
    assert(children.take(i + 1).drop_last() =~= children.take(i));
    assert(children.take(0).len() == 0);
}

/// The weights of a prefix are at most the weights of the whole sequence.
pub proof fn lemma_children_weight_prefix(children: Seq<NodeView>, i: int)
    requires
        0 <= i <= children.len(),
    ensures
        children_weight(children.take(i)) <= children_weight(children),
    decreases children.len() - i,
{
    if i < children.len() {
        lemma_children_weight_step(children, i);
        lemma_children_weight_prefix(children, i + 1);
    } else {
        assert(children.take(i) =~= children);
    }
}

impl SyntaxNode {
    #[verifier::type_invariant]
    spec fn weighed(self) -> bool {
        self.weight == node_weight(self@)
    }

    /// A node with the given description and children; `None` if the tree would
    /// hold more nodes, items and path arguments than a `usize` can count.
    pub fn new(kind: NodeKind, first_line: usize, last_line: usize, children: Vec<SyntaxNode>) -> (r:
        Option<SyntaxNode>)
        ensures
            match r {
                Some(node) => node@ == (NodeView {
                    kind,
                    first_line,
                    last_line,
                    children: views(children@),
                }) && node_weight(node@) <= usize::MAX,
                None => node_weight(
                    NodeView { kind, first_line, last_line, children: views(children@) },
                ) > usize::MAX,
            },
    {
        let ghost below = views(children@);
        let mut sum: usize = 0;
        let mut i: usize = 0;
        while i < children.len()
            invariant
                0 <= i <= children.len(),
                below == views(children@),
                sum == children_weight(below.take(i as int)),
            decreases children.len() - i,
        {
            let child = &children[i];
            proof {
                use_type_invariant(child);
                lemma_children_weight_step(below, i as int);
                lemma_children_weight_prefix(below, i as int + 1);
            }
            match sum.checked_add(child.weight) {
                Some(n) => {
                    sum = n;
                },
                None => {
                    return None;
                },
            }
            i = i + 1;
        }
        proof {
            assert(below.take(i as int) =~= below);
        }
        let own = match kind_weight(&kind) {
            Some(k) => k.checked_add(1),
            None => None,
        };
        let weight = match own {
            Some(o) => o.checked_add(sum),
            None => None,
        };
        match weight {
            Some(w) => {
                proof {
                    lemma_views_below(children@);
                }
                Some(SyntaxNode { kind, first_line, last_line, children, weight: w })
            },
            None => None,
        }
    }

    /// What the node is.
    pub fn kind(&self) -> (k: &NodeKind)
        ensures
            *k == self@.kind,
    {
        &self.kind
    }

    /// The line on which the construct starts.
    pub fn first_line(&self) -> (l: usize)
        ensures
            l == self@.first_line,
    {
        self.first_line
    }

    /// The line on which the construct ends.
    pub fn last_line(&self) -> (l: usize)
        ensures
            l == self@.last_line,
    {
        self.last_line
    }

    /// The nodes directly below this one, in source order.
    pub fn children(&self) -> (c: &Vec<SyntaxNode>)
        ensures
            views(c@) == self@.children,
    {
        proof {
            lemma_views_below(self.children@);
        }
        &self.children
    }

    /// The number of nodes of the tree plus the sizes of their descriptions.
    pub fn weight(&self) -> (w: usize)
        ensures
            w == node_weight(self@),
    {
        proof {
            use_type_invariant(self);
        }
        self.weight
    }
}

} // verus!

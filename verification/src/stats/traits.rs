//! Trait declarations and the places where traits are used.
//!
//! A row is reported for every trait declaration, for every impl block of a
//! trait, for every trait bound of a `where` predicate, and for every trait bound
//! of an `impl Trait` or `dyn Trait` type that stands in a parameter or in a
//! result type, however deep. Whether such a type stands in a parameter or in a
//! result type is decided by the outermost parameter or result type around it.
//! The marker traits `Sync`, `Send`, `Copy`, `Sized` and `Unpin` are never
//! reported.

use crate::counting::{
    count,
    lemma_count_bound,
    lemma_count_step,
    lemma_total_element,
    lemma_total_prefix,
    lemma_total_step,
    total,
};
use crate::stats::{
    finding_views,
    lemma_finding_views_index,
    lemma_finding_views_push,
    Detail,
    DetailView,
    Finding,
    FindingView,
};
use crate::syntax::{
    arguments_size,
    bound_size,
    kind_size,
    path_size,
    segment_size,
    views,
    AssocItem,
    GenericArgument,
    GenericParam,
    ItemImpl,
    ItemTrait,
    NodeKind,
    NodeView,
    Path,
    PathArguments,
    PathSegment,
    SyntaxNode,
    TypeParamBound,
};
use vstd::prelude::*;

verus! {

/// The construct that a row describes.
#[derive(Clone, Copy, Debug, PartialEq, Eq, Structural)]
pub enum SyntaxType {
    /// A trait declaration.
    TraitDef,
    /// An impl block for a trait.
    ImplFor,
    /// A bound of a type `impl A + B`.
    TypeImpl,
    /// A bound of a type `dyn A + B`.
    TypeDyn,
    /// A bound of a predicate of a `where` clause.
    WhereClause,
}

/// Where in a signature a type stands.
#[derive(Clone, Copy, Debug, PartialEq, Eq, Structural)]
pub enum PositionType {
    Argument,
    Return,
}

/// One trait declaration or one use of a trait.
#[derive(Clone, Debug, PartialEq, Eq)]
pub struct Row {
    pub syntax: SyntaxType,
    pub position: Option<PositionType>,
    pub generic_count: usize,
    pub at_count: usize,
    pub gat_count: Option<usize>,
    pub trait_name: String,
    pub trait_bounds_count: usize,
    pub lifetime_bounds_count: usize,
}

/// [`Row`] as a mathematical value.
pub struct RowView {
    pub syntax: SyntaxType,
    pub position: Option<PositionType>,
    pub generic_count: nat,
    pub at_count: nat,
    pub gat_count: Option<nat>,
    pub trait_name: Seq<char>,
    pub trait_bounds_count: nat,
    pub lifetime_bounds_count: nat,
}

impl View for Row {
    type V = RowView;

    open spec fn view(&self) -> RowView {
        RowView {
            syntax: self.syntax,
            position: self.position,
            generic_count: self.generic_count as nat,
            at_count: self.at_count as nat,
            gat_count: match self.gat_count {
                Some(n) => Some(n as nat),
                None => None,
            },
            trait_name: self.trait_name@,
            trait_bounds_count: self.trait_bounds_count as nat,
            lifetime_bounds_count: self.lifetime_bounds_count as nat,
        }
    }
}

impl Row {
    /// A row that says the same.
    pub fn duplicate(&self) -> (row: Row)
        ensures
            row@ == self@,
    {
        Row {
            syntax: self.syntax,
            position: self.position,
            generic_count: self.generic_count,
            at_count: self.at_count,
            gat_count: self.gat_count,
            trait_name: self.trait_name.clone(),
            trait_bounds_count: self.trait_bounds_count,
            lifetime_bounds_count: self.lifetime_bounds_count,
        }
    }
}

/// Whether a bound names a trait.
pub open spec fn is_trait_bound() -> spec_fn(TypeParamBound) -> bool {
    |b: TypeParamBound| b is Trait
}

/// Whether a generic parameter is a type parameter.
pub open spec fn is_type_param() -> spec_fn(GenericParam) -> bool {
    |p: GenericParam| p is Type
}

/// Whether an item is an associated type.
pub open spec fn is_assoc_type() -> spec_fn(AssocItem) -> bool {
    |i: AssocItem| i is Type
}

/// Whether an item is an associated type with generic parameters of its own.
pub open spec fn is_generic_assoc_type() -> spec_fn(AssocItem) -> bool {
    |i: AssocItem| i == (AssocItem::Type { generic: true })
}

/// Whether an argument is a type.
pub open spec fn is_type_argument() -> spec_fn(GenericArgument) -> bool {
    |a: GenericArgument| a is Type
}

/// Whether an argument binds an associated type.
pub open spec fn is_binding() -> spec_fn(GenericArgument) -> bool {
    |a: GenericArgument| a is Binding
}

/// The type arguments of a segment: the types between angle brackets, or the
/// argument types between parentheses.
pub open spec fn segment_generics() -> spec_fn(PathSegment) -> nat {
    |s: PathSegment|
        match s.arguments {
            PathArguments::Absent => 0,
            PathArguments::AngleBracketed(args) => count(args@, is_type_argument()),
            PathArguments::Parenthesized { inputs, output } => inputs as nat,
        }
}

/// The associated types that a segment binds: the bindings between angle
/// brackets, or the result type behind parentheses.
pub open spec fn segment_bindings() -> spec_fn(PathSegment) -> nat {
    |s: PathSegment|
        match s.arguments {
            PathArguments::Absent => 0,
            PathArguments::AngleBracketed(args) => count(args@, is_binding()),
            PathArguments::Parenthesized { inputs, output } => if output {
                1nat
            } else {
                0nat
            },
        }
}

/// The type arguments of all segments of a path.
pub open spec fn generic_count(path: Path) -> nat {
    total(path.segments@, segment_generics())
}

/// The associated types that the segments of a path bind.
pub open spec fn binding_count(path: Path) -> nat {
    total(path.segments@, segment_bindings())
}

/// Whether a trait name is one of the marker traits that are never reported.
pub open spec fn is_marker(name: Seq<char>) -> bool {
    name == "Sync"@ || name == "Send"@ || name == "Copy"@ || name == "Sized"@ || name
        == "Unpin"@
}

/// What reporting a row on a line adds: the row, unless it names a marker trait.
pub open spec fn pushed(row: RowView, line: usize) -> Seq<FindingView> {
    if is_marker(row.trait_name) {
        Seq::empty()
    } else {
        seq![FindingView { line, detail: DetailView::Trait(row) }]
    }
}

/// The row of a trait path: named by the last segment, with the type arguments
/// and bindings of all segments. A path without segments has no row.
pub open spec fn path_rows(
    path: Path,
    syntax: SyntaxType,
    position: Option<PositionType>,
    base_at_count: nat,
    gat_count: Option<nat>,
    trait_bounds_count: nat,
    lifetime_bounds_count: nat,
) -> Seq<FindingView> {
    if path.segments@.len() == 0 {
        Seq::empty()
    } else {
        pushed(
            RowView {
                syntax,
                position,
                generic_count: generic_count(path),
                at_count: binding_count(path) + base_at_count,
                gat_count,
                trait_name: path.segments@.last().ident@,
                trait_bounds_count,
                lifetime_bounds_count,
            },
            path.line,
        )
    }
}

/// The row of one bound of a bound list with the given numbers of trait bounds
/// and lifetime bounds. A lifetime bound has no row.
pub open spec fn bound_rows(
    bound: TypeParamBound,
    syntax: SyntaxType,
    position: Option<PositionType>,
    trait_bounds_count: nat,
    lifetime_bounds_count: nat,
) -> Seq<FindingView> {
    match bound {
        TypeParamBound::Trait(path) => path_rows(
            path,
            syntax,
            position,
            0,
            None,
            trait_bounds_count,
            lifetime_bounds_count,
        ),
        TypeParamBound::Lifetime => Seq::empty(),
    }
}

/// The rows of the first `n` bounds of a bound list, each with the numbers of
/// trait bounds and lifetime bounds of the whole list.
pub open spec fn bounds_rows_upto(
    bounds: Seq<TypeParamBound>,
    n: int,
    syntax: SyntaxType,
    position: Option<PositionType>,
) -> Seq<FindingView>
    decreases n,
{
    if n <= 0 {
        Seq::empty()
    } else {
        bounds_rows_upto(bounds, n - 1, syntax, position) + bound_rows(
            bounds[n - 1],
            syntax,
            position,
            count(bounds, is_trait_bound()),
            (bounds.len() - count(bounds, is_trait_bound())) as nat,
        )
    }
}

/// The rows of a bound list.
pub open spec fn bounds_rows(
    bounds: Seq<TypeParamBound>,
    syntax: SyntaxType,
    position: Option<PositionType>,
) -> Seq<FindingView> {
    bounds_rows_upto(bounds, bounds.len() as int, syntax, position)
}

/// The row of a trait declaration: its type parameters, its associated types,
/// and those of them that have generic parameters.
pub open spec fn trait_rows(node: ItemTrait) -> Seq<FindingView> {
    pushed(
        RowView {
            syntax: SyntaxType::TraitDef,
            position: None,
            generic_count: count(node.params@, is_type_param()),
            at_count: count(node.items@, is_assoc_type()),
            gat_count: Some(count(node.items@, is_generic_assoc_type())),
            trait_name: node.ident@,
            trait_bounds_count: 0,
            lifetime_bounds_count: 0,
        },
        node.line,
    )
}

/// The row of an impl block: that of the path of the trait, with the associated
/// types that the block provides added to those that the path binds. An impl
/// block that implements no trait has no row.
pub open spec fn impl_rows(node: ItemImpl) -> Seq<FindingView> {
    match node.trait_path {
        Some(path) => path_rows(
            path,
            SyntaxType::ImplFor,
            None,
            count(node.items@, is_assoc_type()),
            Some(count(node.items@, is_generic_assoc_type())),
            0,
            0,
        ),
        None => Seq::empty(),
    }
}

/// The position of what stands below a node: below a parameter or a result type
/// it is that parameter or result type, unless the node stands in one itself.
pub open spec fn position_below(kind: NodeKind, position: Option<PositionType>) -> Option<
    PositionType,
> {
    match position {
        Some(_) => position,
        None => match kind {
            NodeKind::FnArg => Some(PositionType::Argument),
            NodeKind::ReturnType => Some(PositionType::Return),
            _ => None,
        },
    }
}

/// The rows of a node by itself. Only the rows of `impl Trait` and `dyn Trait`
/// types depend on the position, and there are none outside of parameters and
/// result types.
pub open spec fn own_rows(kind: NodeKind, position: Option<PositionType>) -> Seq<FindingView> {
    match kind {
        NodeKind::ItemTrait(t) => trait_rows(t),
        NodeKind::ItemImpl(i) => impl_rows(i),
        NodeKind::PredicateType(bounds) => bounds_rows(bounds@, SyntaxType::WhereClause, None),
        NodeKind::TypeImplTrait(bounds) => if position is Some {
            bounds_rows(bounds@, SyntaxType::TypeImpl, position)
        } else {
            Seq::empty()
        },
        NodeKind::TypeTraitObject(bounds) => if position is Some {
            bounds_rows(bounds@, SyntaxType::TypeDyn, position)
        } else {
            Seq::empty()
        },
        _ => Seq::empty(),
    }
}

/// The rows of a tree: those of its root and then those of the trees below it.
/// `position` is `None` outside of parameters and result types.
pub open spec fn node_rows(node: NodeView, position: Option<PositionType>) -> Seq<FindingView>
    decreases node,
{
    own_rows(node.kind, position) + children_rows(
        node.children,
        position_below(node.kind, position),
    )
}

/// The rows of a sequence of trees, one tree after the other.
pub open spec fn children_rows(children: Seq<NodeView>, position: Option<PositionType>) -> Seq<
    FindingView,
>
    decreases children,
{
    if children.len() == 0 {
        Seq::empty()
    } else {
        children_rows(children.drop_last(), position) + node_rows(children.last(), position)
    }
}

/// The rows of the first `i + 1` trees are those of the first `i` and then
/// those of the tree at `i`.
pub proof fn lemma_children_rows_step(
    children: Seq<NodeView>,
    position: Option<PositionType>,
    i: int,
)
    requires
        0 <= i < children.len(),
    ensures
        children_rows(children.take(i + 1), position) == children_rows(
            children.take(i),
            position,
        ) + node_rows(children[i], position),
        children_rows(children.take(0), position) == Seq::<FindingView>::empty(),
{
    assert(children.take(i + 1).drop_last() =~= children.take(i));
    assert(children.take(i + 1).last() == children[i]);
    assert(children_rows(children.take(i + 1), position) == children_rows(
        children.take(i + 1).drop_last(),
        position,
    ) + node_rows(children.take(i + 1).last(), position));
    assert(children.take(0).len() == 0);
}

/// Whether rows of this kind say where in a signature the type stands.
pub open spec fn is_positional(syntax: SyntaxType) -> bool {
    syntax == SyntaxType::TypeImpl || syntax == SyntaxType::TypeDyn
}

/// Whether rows of this kind count associated types with generic parameters.
pub open spec fn counts_generic_assoc_types(syntax: SyntaxType) -> bool {
    syntax == SyntaxType::TraitDef || syntax == SyntaxType::ImplFor
}

/// What holds of every row of the analysis: it is a trait row; it carries a
/// position exactly when it describes an `impl Trait` or `dyn Trait` type, and a
/// count of generic associated types exactly when it describes a trait
/// declaration or an impl block; and it does not name a marker trait.
pub open spec fn is_lawful(finding: FindingView) -> bool {
    match finding.detail {
        DetailView::Trait(row) => {
            &&& row.position is Some <==> is_positional(row.syntax)
            &&& row.gat_count is Some <==> counts_generic_assoc_types(row.syntax)
            &&& !is_marker(row.trait_name)
        },
        _ => false,
    }
}

/// Whether every finding of a sequence is lawful.
pub open spec fn all_lawful(rows: Seq<FindingView>) -> bool {
    forall|i: int| 0 <= i < rows.len() ==> is_lawful(#[trigger] rows[i])
}

/// The rows of a bound list are lawful where the position fits the kind of row.
proof fn lemma_bounds_rows_lawful(
    bounds: Seq<TypeParamBound>,
    n: int,
    syntax: SyntaxType,
    position: Option<PositionType>,
)
    requires
        n <= bounds.len(),
        position is Some <==> is_positional(syntax),
        !counts_generic_assoc_types(syntax),
    ensures
        all_lawful(bounds_rows_upto(bounds, n, syntax, position)),
    decreases n,
{
    if n > 0 {
        lemma_bounds_rows_lawful(bounds, n - 1, syntax, position);
    }
}

/// Every row of the analysis is lawful.
pub proof fn lemma_node_rows_lawful(node: NodeView, position: Option<PositionType>)
    ensures
        all_lawful(node_rows(node, position)),
    decreases node,
{
    match node.kind {
        NodeKind::PredicateType(bounds) => {
            lemma_bounds_rows_lawful(bounds@, bounds@.len() as int, SyntaxType::WhereClause, None);
        },
        NodeKind::TypeImplTrait(bounds) => {
            if position is Some {
                lemma_bounds_rows_lawful(
                    bounds@,
                    bounds@.len() as int,
                    SyntaxType::TypeImpl,
                    position,
                );
            }
        },
        NodeKind::TypeTraitObject(bounds) => {
            if position is Some {
                lemma_bounds_rows_lawful(
                    bounds@,
                    bounds@.len() as int,
                    SyntaxType::TypeDyn,
                    position,
                );
            }
        },
        _ => {},
    }
    lemma_children_rows_lawful(node.children, position_below(node.kind, position));
}

/// Every row of the analysis for a sequence of trees is lawful.
pub proof fn lemma_children_rows_lawful(children: Seq<NodeView>, position: Option<PositionType>)
    ensures
        all_lawful(children_rows(children, position)),
    decreases children,
{
    if children.len() > 0 {
        lemma_children_rows_lawful(children.drop_last(), position);
        lemma_node_rows_lawful(children.last(), position);
    }
}

/// No position leakage: of the rows of a source file, those that describe an
/// `impl Trait` or `dyn Trait` type carry a position, and no other row does: not
/// the row of a trait declaration, of an impl block or of a `where` predicate.
pub proof fn lemma_position_only_on_positional_rows(file: NodeView, i: int)
    requires
        0 <= i < node_rows(file, None).len(),
    ensures
        node_rows(file, None)[i].detail is Trait,
        node_rows(file, None)[i].detail->Trait_0.position is Some <==> is_positional(
            node_rows(file, None)[i].detail->Trait_0.syntax,
        ),
{
    lemma_node_rows_lawful(file, None);
    assert(is_lawful(node_rows(file, None)[i]));
}

/// Skip list: no row of a source file names one of the marker traits.
pub proof fn lemma_marker_traits_never_reported(file: NodeView, i: int)
    requires
        0 <= i < node_rows(file, None).len(),
    ensures
        node_rows(file, None)[i].detail is Trait,
        !is_marker(node_rows(file, None)[i].detail->Trait_0.trait_name),
{
    lemma_node_rows_lawful(file, None);
    assert(is_lawful(node_rows(file, None)[i]));
}

/// The arguments of a path that count as type arguments, and those that bind
/// an associated type.
#[derive(Debug)]
pub struct TraitParamCounter {
    pub generic_count: usize,
    pub at_count: usize,
}

impl TraitParamCounter {
    /// Counts one argument between angle brackets.
    fn visit_generic_argument(&mut self, node: &GenericArgument)
        requires
            old(self).generic_count < usize::MAX,
            old(self).at_count < usize::MAX,
        ensures
            final(self).generic_count == old(self).generic_count + if is_type_argument()(*node) {
                1nat
            } else {
                0nat
            },
            final(self).at_count == old(self).at_count + if is_binding()(*node) {
                1nat
            } else {
                0nat
            },
    {
        match node {
            GenericArgument::Lifetime => {},
            GenericArgument::Type(_) => {
                self.generic_count = self.generic_count + 1;
            },
            GenericArgument::Const => {},
            GenericArgument::Binding => {
                self.at_count = self.at_count + 1;
            },
            GenericArgument::Constraint => {},
        }
    }

    /// Counts arguments between parentheses: every argument type is a type
    /// argument, and the result type binds an associated type.
    fn visit_parenthesized_generic_arguments(&mut self, inputs: usize, output: bool)
        requires
            old(self).generic_count + inputs <= usize::MAX,
            output ==> old(self).at_count < usize::MAX,
        ensures
            final(self).generic_count == old(self).generic_count + inputs,
            final(self).at_count == old(self).at_count + if output {
                1nat
            } else {
                0nat
            },
    {
        self.generic_count = self.generic_count + inputs;
        if output {
            self.at_count = self.at_count + 1;
        }
    }

    /// Counts the arguments of one segment.
    fn visit_path_segment(&mut self, segment: &PathSegment)
        requires
            old(self).generic_count + arguments_size(segment.arguments) <= usize::MAX,
            old(self).at_count + arguments_size(segment.arguments) <= usize::MAX,
        ensures
            final(self).generic_count == old(self).generic_count + segment_generics()(*segment),
            final(self).at_count == old(self).at_count + segment_bindings()(*segment),
            segment_generics()(*segment) <= arguments_size(segment.arguments),
            segment_bindings()(*segment) <= arguments_size(segment.arguments),
    {
        match &segment.arguments {
            PathArguments::Absent => {},
            PathArguments::AngleBracketed(args) => {
                let mut i: usize = 0;
                while i < args.len()
                    invariant
                        0 <= i <= args.len(),
                        old(self).generic_count + args.len() <= usize::MAX,
                        old(self).at_count + args.len() <= usize::MAX,
                        self.generic_count == old(self).generic_count + count(
                            args@.take(i as int),
                            is_type_argument(),
                        ),
                        self.at_count == old(self).at_count + count(
                            args@.take(i as int),
                            is_binding(),
                        ),
                    decreases args.len() - i,
                {
                    proof {
                        lemma_count_step(args@, is_type_argument(), i as int);
                        lemma_count_step(args@, is_binding(), i as int);
                        lemma_count_bound(args@.take(i as int), is_type_argument());
                        lemma_count_bound(args@.take(i as int), is_binding());
                    }
                    self.visit_generic_argument(&args[i]);
                    i = i + 1;
                }
                proof {
                    assert(args@.take(i as int) =~= args@);
                    lemma_count_bound(args@, is_type_argument());
                    lemma_count_bound(args@, is_binding());
                }
            },
            PathArguments::Parenthesized { inputs, output } => {
                self.visit_parenthesized_generic_arguments(*inputs, *output);
            },
        }
    }

    /// Counts the arguments of all segments of a path.
    fn visit_path(&mut self, path: &Path)
        requires
            old(self).generic_count + path_size(*path) <= usize::MAX,
            old(self).at_count + path_size(*path) <= usize::MAX,
        ensures
            final(self).generic_count == old(self).generic_count + generic_count(*path),
            final(self).at_count == old(self).at_count + binding_count(*path),
    {
        let mut i: usize = 0;
        let ghost segments = path.segments@;
        while i < path.segments.len()
            invariant
                0 <= i <= path.segments.len(),
                segments == path.segments@,
                old(self).generic_count + path_size(*path) <= usize::MAX,
                old(self).at_count + path_size(*path) <= usize::MAX,
                self.generic_count == old(self).generic_count + total(
                    segments.take(i as int),
                    segment_generics(),
                ),
                self.at_count == old(self).at_count + total(
                    segments.take(i as int),
                    segment_bindings(),
                ),
                total(segments.take(i as int), segment_generics()) <= total(
                    segments.take(i as int),
                    segment_size(),
                ),
                total(segments.take(i as int), segment_bindings()) <= total(
                    segments.take(i as int),
                    segment_size(),
                ),
            decreases path.segments.len() - i,
        {
            proof {
                lemma_total_step(segments, segment_generics(), i as int);
                lemma_total_step(segments, segment_bindings(), i as int);
                lemma_total_step(segments, segment_size(), i as int);
                lemma_total_prefix(segments, segment_size(), i as int + 1);
            }
            self.visit_path_segment(&path.segments[i]);
            i = i + 1;
        }
        proof {
            assert(segments.take(i as int) =~= segments);
        }
    }
}

/// Whether a trait name is one of the marker traits that are never reported.
pub fn is_marker_name(name: &String) -> (b: bool)
    ensures
        b == is_marker(name@),
{
    *name == String::from_str("Sync") || *name == String::from_str("Send") || *name
        == String::from_str("Copy") || *name == String::from_str("Sized") || *name
        == String::from_str("Unpin")
}

/// How many bounds of a bound list name a trait.
pub fn trait_bounds_count(bounds: &Vec<TypeParamBound>) -> (n: usize)
    ensures
        n == count(bounds@, is_trait_bound()),
        n <= bounds@.len(),
{
    let mut n: usize = 0;
    let mut i: usize = 0;
    while i < bounds.len()
        invariant
            0 <= i <= bounds.len(),
            n == count(bounds@.take(i as int), is_trait_bound()),
            n <= i,
        decreases bounds.len() - i,
    {
        proof {
            lemma_count_step(bounds@, is_trait_bound(), i as int);
        }
        match &bounds[i] {
            TypeParamBound::Trait(_) => {
                n = n + 1;
            },
            TypeParamBound::Lifetime => {},
        }
        i = i + 1;
    }
    proof {
        assert(bounds@.take(i as int) =~= bounds@);
    }
    n
}

/// How many items are associated types, and how many of those have generic
/// parameters of their own.
pub fn assoc_type_counts(items: &Vec<AssocItem>) -> (n: (usize, usize))
    ensures
        n.0 == count(items@, is_assoc_type()),
        n.1 == count(items@, is_generic_assoc_type()),
        n.0 <= items@.len(),
        n.1 <= items@.len(),
{
    let mut types: usize = 0;
    let mut generic_types: usize = 0;
    let mut i: usize = 0;
    while i < items.len()
        invariant
            0 <= i <= items.len(),
            types == count(items@.take(i as int), is_assoc_type()),
            generic_types == count(items@.take(i as int), is_generic_assoc_type()),
            types <= i,
            generic_types <= i,
        decreases items.len() - i,
    {
        proof {
            lemma_count_step(items@, is_assoc_type(), i as int);
            lemma_count_step(items@, is_generic_assoc_type(), i as int);
        }
        match &items[i] {
            AssocItem::Type { generic } => {
                types = types + 1;
                if *generic {
                    generic_types = generic_types + 1;
                }
            },
            AssocItem::Other => {},
        }
        i = i + 1;
    }
    proof {
        assert(items@.take(i as int) =~= items@);
    }
    (types, generic_types)
}

/// How many generic parameters are type parameters.
pub fn type_param_count(params: &Vec<GenericParam>) -> (n: usize)
    ensures
        n == count(params@, is_type_param()),
{
    let mut n: usize = 0;
    let mut i: usize = 0;
    while i < params.len()
        invariant
            0 <= i <= params.len(),
            n == count(params@.take(i as int), is_type_param()),
            n <= i,
        decreases params.len() - i,
    {
        proof {
            lemma_count_step(params@, is_type_param(), i as int);
        }
        match &params[i] {
            GenericParam::Type => {
                n = n + 1;
            },
            _ => {},
        }
        i = i + 1;
    }
    proof {
        assert(params@.take(i as int) =~= params@);
    }
    n
}

/// The rows that the analysis has reported so far.
#[derive(Debug)]
pub struct Stats {
    pub rows: Vec<Finding>,
}

impl View for Stats {
    type V = Seq<FindingView>;

    open spec fn view(&self) -> Seq<FindingView> {
        finding_views(self.rows@)
    }
}

impl Stats {
    /// An analysis that has reported nothing yet.
    pub fn new() -> (stats: Stats)
        ensures
            stats@ == Seq::<FindingView>::empty(),
    {
        let stats = Stats { rows: Vec::new() };
        proof {
            assert(stats@ =~= Seq::<FindingView>::empty());
        }
        stats
    }

    /// Reports a row for the construct on `line`, unless the row names a marker
    /// trait.
    pub fn push(&mut self, row: Row, line: usize)
        ensures
            final(self)@ == old(self)@ + pushed(row@, line),
    {
        if is_marker_name(&row.trait_name) {
            proof {
                assert(self@ + Seq::<FindingView>::empty() =~= self@);
            }
        } else {
            let finding = Finding { line, detail: Detail::Trait(row) };
            proof {
                lemma_finding_views_push(self.rows@, finding);
            }
            self.rows.push(finding);
        }
    }

    /// Reports the row of a trait path.
    fn collect_trait_path(
        &mut self,
        path: &Path,
        syntax: SyntaxType,
        position: Option<PositionType>,
        base_at_count: usize,
        gat_count: Option<usize>,
        trait_bounds_count: usize,
        lifetime_bounds_count: usize,
    )
        requires
            path_size(*path) + base_at_count <= usize::MAX,
        ensures
            final(self)@ == old(self)@ + path_rows(
                *path,
                syntax,
                position,
                base_at_count as nat,
                match gat_count {
                    Some(n) => Some(n as nat),
                    None => None,
                },
                trait_bounds_count as nat,
                lifetime_bounds_count as nat,
            ),
    {
        let n = path.segments.len();
        if n == 0 {
            proof {
                assert(self@ + Seq::<FindingView>::empty() =~= self@);
            }
            return ;
        }
        let trait_name = path.segments[n - 1].ident.clone();
        let mut counter = TraitParamCounter { generic_count: 0, at_count: base_at_count };
        counter.visit_path(path);
        self.push(
            Row {
                syntax,
                position,
                generic_count: counter.generic_count,
                at_count: counter.at_count,
                gat_count,
                trait_name,
                trait_bounds_count,
                lifetime_bounds_count,
            },
            path.line,
        );
    }

    /// Reports the row of one bound of a bound list.
    fn collect_type_param_bound(
        &mut self,
        bound: &TypeParamBound,
        syntax: SyntaxType,
        position: Option<PositionType>,
        trait_bounds_count: usize,
        lifetime_bounds_count: usize,
    )
        requires
            bound_size()(*bound) <= usize::MAX,
        ensures
            final(self)@ == old(self)@ + bound_rows(
                *bound,
                syntax,
                position,
                trait_bounds_count as nat,
                lifetime_bounds_count as nat,
            ),
    {
        match bound {
            TypeParamBound::Trait(path) => {
                self.collect_trait_path(
                    path,
                    syntax,
                    position,
                    0,
                    None,
                    trait_bounds_count,
                    lifetime_bounds_count,
                );
            },
            TypeParamBound::Lifetime => {
                proof {
                    assert(self@ + Seq::<FindingView>::empty() =~= self@);
                }
            },
        }
    }

    /// Reports the rows of a bound list.
    fn collect_bounds(
        &mut self,
        bounds: &Vec<TypeParamBound>,
        syntax: SyntaxType,
        position: Option<PositionType>,
    )
        requires
            total(bounds@, bound_size()) <= usize::MAX,
        ensures
            final(self)@ == old(self)@ + bounds_rows(bounds@, syntax, position),
    {
        let trait_bounds_count = trait_bounds_count(bounds);
        let lifetime_bounds_count = bounds.len() - trait_bounds_count;
        let mut i: usize = 0;
        proof {
            assert(self@ + Seq::<FindingView>::empty() =~= self@);
        }
        while i < bounds.len()
            invariant
                0 <= i <= bounds.len(),
                total(bounds@, bound_size()) <= usize::MAX,
                trait_bounds_count == count(bounds@, is_trait_bound()),
                lifetime_bounds_count == bounds@.len() - count(bounds@, is_trait_bound()),
                self@ == old(self)@ + bounds_rows_upto(bounds@, i as int, syntax, position),
            decreases bounds.len() - i,
        {
            let ghost before = self@;
            proof {
                lemma_total_element(bounds@, bound_size(), i as int);
            }
            self.collect_type_param_bound(
                &bounds[i],
                syntax,
                position,
                trait_bounds_count,
                lifetime_bounds_count,
            );
            proof {
                let step = bound_rows(
                    bounds@[i as int],
                    syntax,
                    position,
                    trait_bounds_count as nat,
                    lifetime_bounds_count as nat,
                );
                assert(bounds_rows_upto(bounds@, i as int + 1, syntax, position)
                    == bounds_rows_upto(bounds@, i as int, syntax, position) + step);
                assert((old(self)@ + bounds_rows_upto(bounds@, i as int, syntax, position)) + step
                    =~= old(self)@ + (bounds_rows_upto(bounds@, i as int, syntax, position)
                    + step));
            }
            i = i + 1;
        }
    }

    /// Reports the bounds of a type `impl A + B` that stands in a parameter or
    /// in a result type.
    fn visit_type_impl_trait(&mut self, bounds: &Vec<TypeParamBound>, position: PositionType)
        requires
            total(bounds@, bound_size()) <= usize::MAX,
        ensures
            final(self)@ == old(self)@ + bounds_rows(
                bounds@,
                SyntaxType::TypeImpl,
                Some(position),
            ),
    {
        self.collect_bounds(bounds, SyntaxType::TypeImpl, Some(position));
    }

    /// Reports the bounds of a type `dyn A + B` that stands in a parameter or in
    /// a result type.
    fn visit_type_trait_object(&mut self, bounds: &Vec<TypeParamBound>, position: PositionType)
        requires
            total(bounds@, bound_size()) <= usize::MAX,
        ensures
            final(self)@ == old(self)@ + bounds_rows(bounds@, SyntaxType::TypeDyn, Some(position)),
    {
        self.collect_bounds(bounds, SyntaxType::TypeDyn, Some(position));
    }

    /// Reports the bounds of a predicate of a `where` clause.
    fn visit_predicate_type(&mut self, bounds: &Vec<TypeParamBound>)
        requires
            total(bounds@, bound_size()) <= usize::MAX,
        ensures
            final(self)@ == old(self)@ + bounds_rows(bounds@, SyntaxType::WhereClause, None),
    {
        self.collect_bounds(bounds, SyntaxType::WhereClause, None);
    }

    /// Reports an impl block, if it implements a trait.
    fn visit_item_impl(&mut self, node: &ItemImpl)
        requires
            kind_size(NodeKind::ItemImpl(*node)) <= usize::MAX,
        ensures
            final(self)@ == old(self)@ + impl_rows(*node),
    {
        let path = match &node.trait_path {
            Some(path) => path,
            None => {
                proof {
                    assert(self@ + Seq::<FindingView>::empty() =~= self@);
                }
                return ;
            },
        };
        let counts = assoc_type_counts(&node.items);
        self.collect_trait_path(path, SyntaxType::ImplFor, None, counts.0, Some(counts.1), 0, 0);
    }

    /// Reports a trait declaration.
    pub fn visit_item_trait(&mut self, node: &ItemTrait)
        ensures
            final(self)@ == old(self)@ + trait_rows(*node),
    {
        let counts = assoc_type_counts(&node.items);
        let generic_count = type_param_count(&node.params);
        self.push(
            Row {
                syntax: SyntaxType::TraitDef,
                position: None,
                generic_count,
                gat_count: Some(counts.1),
                at_count: counts.0,
                trait_name: node.ident.clone(),
                trait_bounds_count: 0,
                lifetime_bounds_count: 0,
            },
            node.line,
        );
    }

    /// Reports the rows of a sequence of trees, one tree after the other.
    pub fn visit_children(&mut self, children: &Vec<SyntaxNode>, position: Option<PositionType>)
        ensures
            final(self)@ == old(self)@ + children_rows(views(children@), position),
        decreases views(children@), 0nat,
    {
        let ghost below = views(children@);
        let mut i: usize = 0;
        proof {
            assert(below.take(0).len() == 0);
            assert(self@ + Seq::<FindingView>::empty() =~= self@);
        }
        while i < children.len()
            invariant
                0 <= i <= children.len(),
                below == views(children@),
                self@ == old(self)@ + children_rows(below.take(i as int), position),
            decreases children.len() - i,
        {
            proof {
                lemma_children_rows_step(below, position, i as int);
            }
            self.visit(&children[i], position);
            proof {
                assert((old(self)@ + children_rows(below.take(i as int), position)) + node_rows(
                    below[i as int],
                    position,
                ) =~= old(self)@ + (children_rows(below.take(i as int), position) + node_rows(
                    below[i as int],
                    position,
                )));
            }
            i = i + 1;
        }
        proof {
            assert(below.take(i as int) =~= below);
        }
    }

    /// Reports what stands below a parameter.
    fn visit_fn_arg(&mut self, node: &SyntaxNode, position: Option<PositionType>)
        requires
            node@.kind is FnArg,
        ensures
            final(self)@ == old(self)@ + node_rows(node@, position),
        decreases node@, 1nat,
    {
        let below = match position {
            Some(p) => p,
            None => PositionType::Argument,
        };
        self.visit_children(node.children(), Some(below));
        proof {
            let rows = children_rows(node@.children, Some(below));
            assert(Seq::<FindingView>::empty() + rows =~= rows);
        }
    }

    /// Reports what stands below a result type.
    fn visit_return_type(&mut self, node: &SyntaxNode, position: Option<PositionType>)
        requires
            node@.kind is ReturnType,
        ensures
            final(self)@ == old(self)@ + node_rows(node@, position),
        decreases node@, 1nat,
    {
        let below = match position {
            Some(p) => p,
            None => PositionType::Return,
        };
        self.visit_children(node.children(), Some(below));
        proof {
            let rows = children_rows(node@.children, Some(below));
            assert(Seq::<FindingView>::empty() + rows =~= rows);
        }
    }

    /// Reports the rows of a tree: those of its root and then those of the trees
    /// below it. `position` is `None` outside of parameters and result types.
    pub fn visit(&mut self, node: &SyntaxNode, position: Option<PositionType>)
        ensures
            final(self)@ == old(self)@ + node_rows(node@, position),
        decreases node@, 2nat,
    {
        // A tree weighs no more than a `usize` holds, so nothing counted in it does.
        let _ = node.weight();
        let ghost own = own_rows(node@.kind, position);
        let ghost below = children_rows(node@.children, position_below(node@.kind, position));
        proof {
            assert((old(self)@ + own) + below =~= old(self)@ + (own + below));
            assert(own.len() == 0 ==> own + below =~= below);
        }
        match node.kind() {
            NodeKind::ItemTrait(t) => {
                self.visit_item_trait(t);
                self.visit_children(node.children(), position);
            },
            NodeKind::ItemImpl(i) => {
                self.visit_item_impl(i);
                self.visit_children(node.children(), position);
            },
            NodeKind::PredicateType(bounds) => {
                self.visit_predicate_type(bounds);
                self.visit_children(node.children(), position);
            },
            NodeKind::TypeImplTrait(bounds) => {
                match position {
                    Some(p) => {
                        self.visit_type_impl_trait(bounds, p);
                    },
                    None => {},
                }
                self.visit_children(node.children(), position);
            },
            NodeKind::TypeTraitObject(bounds) => {
                match position {
                    Some(p) => {
                        self.visit_type_trait_object(bounds, p);
                    },
                    None => {},
                }
                self.visit_children(node.children(), position);
            },
            NodeKind::FnArg => self.visit_fn_arg(node, position),
            NodeKind::ReturnType => self.visit_return_type(node, position),
            _ => {
                self.visit_children(node.children(), position);
            },
        }
    }
}

/// The rows of the trait analysis for one source file.
pub fn collect(file: &SyntaxNode) -> (rows: Vec<Finding>)
    ensures
        finding_views(rows@) == node_rows(file@, None),
        rows@.len() == node_rows(file@, None).len(),
        forall|i: int| 0 <= i < rows@.len() ==> (#[trigger] rows@[i])@ == node_rows(file@, None)[i],
{
    let mut stats = Stats::new();
    stats.visit(file, None);
    proof {
        assert(Seq::<FindingView>::empty() + node_rows(file@, None) =~= node_rows(file@, None));
        lemma_finding_views_index(stats.rows@);
    }
    stats.rows
}

} // verus!

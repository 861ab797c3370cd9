//! The analyses on source text, parsed with syn.

use quote::ToTokens;
use syn::spanned::Spanned;
use syn::visit::{self, Visit};
use syntax_survey::stats::closures;
use syntax_survey::stats::regions::{self, RegionType};
use syntax_survey::stats::traits::{self, PositionType, Row, SyntaxType};
use syntax_survey::stats::{all_runners, collect_file, Category, Detail, Finding, Logger, Runner};
use syntax_survey::syntax::{
    AssocItem, GenericArgument, GenericParam, ItemImpl, ItemTrait, NodeKind, Path, PathArguments,
    PathSegment, SyntaxNode, TypeParamBound,
};

/// Builds the tree of a file while syn walks it.
struct Builder {
    open: Vec<Vec<SyntaxNode>>,
}

impl Builder {
    fn enter(&mut self) {
        self.open.push(Vec::new());
    }

    fn leave(&mut self, kind: NodeKind, span: proc_macro2::Span) {
        let children = self.open.pop().unwrap();
        let node = SyntaxNode::new(kind, span.start().line, span.end().line, children).unwrap();
        self.open.last_mut().unwrap().push(node);
    }
}

fn path(path: &syn::Path) -> Path {
    let segments = path
        .segments
        .iter()
        .map(|segment| PathSegment {
            ident: segment.ident.to_string(),
            arguments: match &segment.arguments {
                syn::PathArguments::None => PathArguments::Absent,
                syn::PathArguments::AngleBracketed(list) => PathArguments::AngleBracketed(
                    list.args
                        .iter()
                        .map(|argument| match argument {
                            syn::GenericArgument::Lifetime(_) => GenericArgument::Lifetime,
                            syn::GenericArgument::Type(t) => {
                                GenericArgument::Type(t.to_token_stream().to_string())
                            }
                            syn::GenericArgument::Const(_) => GenericArgument::Const,
                            syn::GenericArgument::Binding(_) => GenericArgument::Binding,
                            syn::GenericArgument::Constraint(_) => GenericArgument::Constraint,
                        })
                        .collect(),
                ),
                syn::PathArguments::Parenthesized(list) => PathArguments::Parenthesized {
                    inputs: list.inputs.len(),
                    output: matches!(list.output, syn::ReturnType::Type(_, _)),
                },
            },
        })
        .collect();
    Path { segments, line: path.span().start().line }
}

fn bounds<'a>(list: impl Iterator<Item = &'a syn::TypeParamBound>) -> Vec<TypeParamBound> {
    list.map(|bound| match bound {
        syn::TypeParamBound::Trait(t) => TypeParamBound::Trait(path(&t.path)),
        syn::TypeParamBound::Lifetime(_) => TypeParamBound::Lifetime,
    })
    .collect()
}

impl<'ast> Visit<'ast> for Builder {
    fn visit_item_fn(&mut self, node: &'ast syn::ItemFn) {
        self.enter();
        visit::visit_item_fn(self, node);
        let kind = NodeKind::ItemFn {
            is_unsafe: node.sig.unsafety.is_some(),
            is_async: node.sig.asyncness.is_some(),
        };
        self.leave(kind, node.span());
    }

    fn visit_impl_item_method(&mut self, node: &'ast syn::ImplItemMethod) {
        self.enter();
        visit::visit_impl_item_method(self, node);
        let kind = NodeKind::ItemFn {
            is_unsafe: node.sig.unsafety.is_some(),
            is_async: node.sig.asyncness.is_some(),
        };
        self.leave(kind, node.span());
    }

    fn visit_trait_item_method(&mut self, node: &'ast syn::TraitItemMethod) {
        self.enter();
        visit::visit_trait_item_method(self, node);
        let kind = NodeKind::ItemFn {
            is_unsafe: node.sig.unsafety.is_some(),
            is_async: node.sig.asyncness.is_some(),
        };
        self.leave(kind, node.span());
    }

    fn visit_item_trait(&mut self, node: &'ast syn::ItemTrait) {
        self.enter();
        visit::visit_item_trait(self, node);
        let params = node
            .generics
            .params
            .iter()
            .map(|param| match param {
                syn::GenericParam::Type(_) => GenericParam::Type,
                syn::GenericParam::Lifetime(_) => GenericParam::Lifetime,
                syn::GenericParam::Const(_) => GenericParam::Const,
            })
            .collect();
        let items = node
            .items
            .iter()
            .map(|item| match item {
                syn::TraitItem::Type(t) => AssocItem::Type { generic: !t.generics.params.is_empty() },
                _ => AssocItem::Other,
            })
            .collect();
        let kind = NodeKind::ItemTrait(ItemTrait {
            ident: node.ident.to_string(),
            line: node.ident.span().start().line,
            params,
            items,
        });
        self.leave(kind, node.span());
    }

    fn visit_item_impl(&mut self, node: &'ast syn::ItemImpl) {
        self.enter();
        visit::visit_item_impl(self, node);
        let items = node
            .items
            .iter()
            .map(|item| match item {
                syn::ImplItem::Type(t) => AssocItem::Type { generic: !t.generics.params.is_empty() },
                _ => AssocItem::Other,
            })
            .collect();
        let kind = NodeKind::ItemImpl(ItemImpl {
            trait_path: node.trait_.as_ref().map(|(_, p, _)| path(p)),
            items,
        });
        self.leave(kind, node.span());
    }

    fn visit_fn_arg(&mut self, node: &'ast syn::FnArg) {
        self.enter();
        visit::visit_fn_arg(self, node);
        self.leave(NodeKind::FnArg, node.span());
    }

    fn visit_return_type(&mut self, node: &'ast syn::ReturnType) {
        self.enter();
        visit::visit_return_type(self, node);
        self.leave(NodeKind::ReturnType, node.span());
    }

    fn visit_type_impl_trait(&mut self, node: &'ast syn::TypeImplTrait) {
        self.enter();
        visit::visit_type_impl_trait(self, node);
        self.leave(NodeKind::TypeImplTrait(bounds(node.bounds.iter())), node.span());
    }

    fn visit_type_trait_object(&mut self, node: &'ast syn::TypeTraitObject) {
        self.enter();
        visit::visit_type_trait_object(self, node);
        self.leave(NodeKind::TypeTraitObject(bounds(node.bounds.iter())), node.span());
    }

    fn visit_predicate_type(&mut self, node: &'ast syn::PredicateType) {
        self.enter();
        visit::visit_predicate_type(self, node);
        self.leave(NodeKind::PredicateType(bounds(node.bounds.iter())), node.span());
    }

    fn visit_expr_closure(&mut self, node: &'ast syn::ExprClosure) {
        self.enter();
        for attr in &node.attrs {
            self.visit_attribute(attr);
        }
        for input in &node.inputs {
            self.enter();
            self.visit_pat(input);
            self.leave(NodeKind::FnArg, input.span());
        }
        self.visit_return_type(&node.output);
        self.visit_expr(&node.body);
        self.leave(NodeKind::ExprClosure, node.span());
    }

    fn visit_expr_call(&mut self, node: &'ast syn::ExprCall) {
        self.enter();
        for attr in &node.attrs {
            self.visit_attribute(attr);
        }
        self.enter();
        self.visit_expr(&node.func);
        self.leave(NodeKind::Callee, node.func.span());
        for arg in &node.args {
            self.visit_expr(arg);
        }
        let callee = match &*node.func {
            syn::Expr::Path(p) => Some(path(&p.path)),
            _ => None,
        };
        self.leave(NodeKind::ExprCall(callee), node.span());
    }

    fn visit_expr_unsafe(&mut self, node: &'ast syn::ExprUnsafe) {
        self.enter();
        visit::visit_expr_unsafe(self, node);
        self.leave(NodeKind::ExprUnsafe, node.span());
    }

    fn visit_expr_async(&mut self, node: &'ast syn::ExprAsync) {
        self.enter();
        visit::visit_expr_async(self, node);
        self.leave(NodeKind::ExprAsync, node.span());
    }
}

fn parse(source: &str) -> SyntaxNode {
    let file = syn::parse_file(source).expect("could not parse mock");
    let mut builder = Builder { open: vec![Vec::new()] };
    visit::visit_file(&mut builder, &file);
    let children = builder.open.pop().unwrap();
    let lines = source.lines().count();
    SyntaxNode::new(NodeKind::Other, 1, lines, children).unwrap()
}

/// What an analysis reports for a source text, one line for each row.
fn collect_mock(runner: Runner, source: &str) -> Vec<String> {
    runner
        .collect(&parse(source))
        .iter()
        .map(|finding| match &finding.detail {
            Detail::Trait(row) => format!("row={:?}", row),
            Detail::Closure(row) => format!("is_in_call={}", row.is_in_call),
            Detail::Unsafe(row) | Detail::Async(row) => match row.block_count {
                Some(count) => {
                    format!("count={} ty=\"{:?}\" outermost={}", count, row.ty, row.outermost)
                }
                None => format!("ty=\"{:?}\" outermost={}", row.ty, row.outermost),
            },
            Detail::Transmute(row) => {
                let mut line = String::from("transmute=true");
                if let Some(from) = &row.from_type {
                    line.push_str(&format!(" from={:?}", from));
                }
                if let Some(to) = &row.to_type {
                    line.push_str(&format!(" to={:?}", to));
                }
                line
            }
        })
        .collect()
}

fn logs_contain(logs: &[String], text: &str) -> bool {
    logs.iter().any(|line| line.contains(text))
}

const IMPL_FOR: &str = "struct Mock;

impl Iterator for Mock {
    type Item = u32;

    fn next(&mut self) -> Option<u32> {
        None
    }
}
";

const ITERATOR_ARG: &str = "fn mock(iter: impl Iterator<Item = u32>) -> u32 {
    iter.sum()
}
";

const ITERATOR_RET: &str = "fn mock() -> impl Iterator<Item = u32> {
    std::iter::empty()
}

fn mock_bounds<'a, 'b>(a: &'a u32, b: &'b u32) -> impl Iterator<Item = u32> + 'a + 'b {
    [*a, *b].into_iter()
}
";

const DYN_ITERATOR_ARG: &str = "fn mock(iter: &mut dyn Iterator<Item = u32>) -> Option<u32> {
    iter.next()
}
";

const MANY_GENERICS: &str = "trait Mock<A, B, C> {
    type Out;
}

fn mock(x: impl Mock<u8, u16, u32>) {}
";

const DEFINE_GAT: &str = "struct Mock;

trait LendingIterator {
    type Item<'a>;

    fn next(&'a self) -> Self::Item<'a>;
}
";

const WHERE_CLAUSE: &str = "fn mock<T>(iter: T) -> u32
where
    T: Iterator<Item = u32>,
{
    iter.sum()
}
";

const UNSAFE_FN: &str = "unsafe fn mock() {
    unsafe {
        unsafe {}
    }
    unsafe {
        unsafe {}
    }
}
";

const ASYNC_FN: &str = "async fn mock() {
    let a = async {
        async {}
    };
    let b = async {
        async {}
    };
}
";

const TRANSMUTE_WITH_ARGUMENTS: &str = "fn mock() -> u32 {
    unsafe { std::mem::transmute::<[u8; 4], u32>([0; 4]) }
}
";

const TRANSMUTE_WITHOUT_ARGUMENTS: &str = "fn mock() -> u32 {
    unsafe { std::mem::transmute([0u8; 4]) }
}
";

#[test]
fn test_impl_for() {
    let logs = collect_mock(Runner::Traits, IMPL_FOR);
    assert!(logs_contain(
        &logs,
        r#"row=Row { syntax: ImplFor, position: None, generic_count: 0, at_count: 1, gat_count: Some(0), trait_name: "Iterator", trait_bounds_count: 0, lifetime_bounds_count: 0 }"#,
    ));
}

#[test]
fn test_iterator_arg() {
    let logs = collect_mock(Runner::Traits, ITERATOR_ARG);
    assert!(logs_contain(
        &logs,
        r#"row=Row { syntax: TypeImpl, position: Some(Argument), generic_count: 0, at_count: 1, gat_count: None, trait_name: "Iterator", trait_bounds_count: 1, lifetime_bounds_count: 0 }"#,
    ));
}

#[test]
fn test_iterator_ret() {
    let logs = collect_mock(Runner::Traits, ITERATOR_RET);
    assert!(logs_contain(
        &logs,
        r#"row=Row { syntax: TypeImpl, position: Some(Return), generic_count: 0, at_count: 1, gat_count: None, trait_name: "Iterator", trait_bounds_count: 1, lifetime_bounds_count: 0 }"#,
    ));
}

#[test]
fn test_iterator_ret_lifetime_bounds() {
    let logs = collect_mock(Runner::Traits, ITERATOR_RET);
    assert!(logs_contain(
        &logs,
        r#"row=Row { syntax: TypeImpl, position: Some(Return), generic_count: 0, at_count: 1, gat_count: None, trait_name: "Iterator", trait_bounds_count: 1, lifetime_bounds_count: 2 }"#,
    ));
}

#[test]
fn test_dyn_iterator_arg() {
    let logs = collect_mock(Runner::Traits, DYN_ITERATOR_ARG);
    assert!(logs_contain(
        &logs,
        r#"row=Row { syntax: TypeDyn, position: Some(Argument), generic_count: 0, at_count: 1, gat_count: None, trait_name: "Iterator", trait_bounds_count: 1, lifetime_bounds_count: 0 }"#,
    ));
}

#[test]
fn test_many_generics() {
    let logs = collect_mock(Runner::Traits, MANY_GENERICS);
    assert!(logs_contain(
        &logs,
        r#"row=Row { syntax: TraitDef, position: None, generic_count: 3, at_count: 1, gat_count: Some(0), trait_name: "Mock", trait_bounds_count: 0, lifetime_bounds_count: 0 }"#,
    ));
    assert!(logs_contain(
        &logs,
        r#"row=Row { syntax: TypeImpl, position: Some(Argument), generic_count: 3, at_count: 0, gat_count: None, trait_name: "Mock", trait_bounds_count: 1, lifetime_bounds_count: 0 }"#,
    ));
}

#[test]
fn test_define_gat() {
    let logs = collect_mock(Runner::Traits, DEFINE_GAT);
    assert!(logs_contain(
        &logs,
        r#"row=Row { syntax: TraitDef, position: None, generic_count: 0, at_count: 1, gat_count: Some(1), trait_name: "LendingIterator", trait_bounds_count: 0, lifetime_bounds_count: 0 }"#,
    ));
}

#[test]
fn test_where_clause() {
    let logs = collect_mock(Runner::Traits, WHERE_CLAUSE);
    assert!(logs_contain(
        &logs,
        r#"row=Row { syntax: WhereClause, position: None, generic_count: 0, at_count: 1, gat_count: None, trait_name: "Iterator", trait_bounds_count: 1, lifetime_bounds_count: 0 }"#,
    ));
}

#[test]
fn test_unsafe_fn() {
    let logs = collect_mock(Runner::UnsafeCode, UNSAFE_FN);
    assert!(logs_contain(&logs, r#"ty="Block" outermost=false"#));
    assert!(logs_contain(&logs, r#"count=4 ty="Function" outermost=true"#));
}

#[test]
fn test_safe_fn() {
    let logs = collect_mock(Runner::UnsafeCode, ITERATOR_ARG);
    assert!(!logs_contain(&logs, r#"ty="Block""#));
    assert!(!logs_contain(&logs, r#"count=0 ty="Function""#));
}

#[test]
fn test_transmute_with_arguments() {
    let logs = collect_mock(Runner::UnsafeCode, TRANSMUTE_WITH_ARGUMENTS);
    assert!(logs_contain(&logs, r#"transmute=true from="[u8 ; 4]" to="u32""#));
}

#[test]
fn test_transmute_without_arguments() {
    let logs = collect_mock(Runner::UnsafeCode, TRANSMUTE_WITHOUT_ARGUMENTS);
    assert!(logs_contain(&logs, r#"transmute=true"#));
}

#[test]
fn test_async_fn() {
    let logs = collect_mock(Runner::AsyncCode, ASYNC_FN);
    assert!(logs_contain(&logs, r#"ty="Block" outermost=false"#));
    assert!(!logs_contain(&logs, r#"ty="Block" outermost=true"#));
    assert!(logs_contain(&logs, r#"count=4 ty="Function" outermost=true"#));
}

#[test]
fn unsafe_rows_come_innermost_first() {
    let logs = collect_mock(Runner::UnsafeCode, UNSAFE_FN);
    assert_eq!(
        logs,
        vec![
            r#"ty="Block" outermost=false"#,
            r#"ty="Block" outermost=false"#,
            r#"ty="Block" outermost=false"#,
            r#"ty="Block" outermost=false"#,
            r#"count=4 ty="Function" outermost=true"#,
        ]
    );
    let rows = Runner::UnsafeCode.collect(&parse(UNSAFE_FN));
    let lines: Vec<usize> = rows.iter().map(|row| row.line).collect();
    assert_eq!(lines, vec![3, 2, 6, 5, 1]);
}

#[test]
fn function_with_one_unsafe_block() {
    let rows = regions::collect_unsafe(&parse("unsafe fn mock() {\n    unsafe {}\n}\n"));
    assert_eq!(
        rows,
        vec![
            Finding {
                line: 2,
                detail: Detail::Unsafe(regions::Row {
                    ty: RegionType::Block,
                    block_count: None,
                    first_line: 2,
                    last_line: 2,
                    outermost: false,
                }),
            },
            Finding {
                line: 1,
                detail: Detail::Unsafe(regions::Row {
                    ty: RegionType::Function,
                    block_count: Some(1),
                    first_line: 1,
                    last_line: 3,
                    outermost: true,
                }),
            },
        ]
    );
}

#[test]
fn block_in_plain_function_is_outermost() {
    let logs = collect_mock(Runner::UnsafeCode, "fn mock() {\n    unsafe { unsafe {} }\n}\n");
    assert_eq!(logs, vec![r#"ty="Block" outermost=false"#, r#"ty="Block" outermost=true"#]);
}

#[test]
fn blocks_of_a_nested_function_count_for_it_alone() {
    let source = "unsafe fn outer() {
    unsafe {}
    unsafe fn inner() {
        unsafe {}
        unsafe {}
    }
}
";
    let logs = collect_mock(Runner::UnsafeCode, source);
    assert_eq!(
        logs,
        vec![
            r#"ty="Block" outermost=false"#,
            r#"ty="Block" outermost=false"#,
            r#"ty="Block" outermost=false"#,
            r#"count=2 ty="Function" outermost=false"#,
            r#"count=1 ty="Function" outermost=true"#,
        ]
    );
}

#[test]
fn methods_are_functions() {
    let source = "struct Mock;
impl Mock {
    unsafe fn raw(&self) {
        unsafe {}
    }
    async fn later(&self) {
        unsafe {}
    }
}
trait Shape {
    unsafe fn given(&self) {
        unsafe {}
    }
    unsafe fn asked(&self);
}
";
    let rows = regions::collect_unsafe(&parse(source));
    let seen: Vec<(usize, RegionType, Option<usize>, bool)> = rows
        .iter()
        .map(|finding| match &finding.detail {
            Detail::Unsafe(row) => (finding.line, row.ty, row.block_count, row.outermost),
            _ => panic!("not a region row"),
        })
        .collect();
    assert_eq!(
        seen,
        vec![
            (4, RegionType::Block, None, false),
            (3, RegionType::Function, Some(1), true),
            (7, RegionType::Block, None, true),
            (12, RegionType::Block, None, false),
            (11, RegionType::Function, Some(1), true),
            (14, RegionType::Function, Some(0), true),
        ]
    );
    assert_eq!(
        collect_mock(Runner::AsyncCode, source),
        vec![r#"count=0 ty="Function" outermost=true"#]
    );
}

#[test]
fn unsafe_and_async_do_not_mix() {
    let source = "async unsafe fn mock() {\n    unsafe { async {} };\n}\n";
    assert_eq!(
        collect_mock(Runner::UnsafeCode, source),
        vec![r#"ty="Block" outermost=false"#, r#"count=1 ty="Function" outermost=true"#]
    );
    assert_eq!(
        collect_mock(Runner::AsyncCode, source),
        vec![r#"ty="Block" outermost=false"#, r#"count=1 ty="Function" outermost=true"#]
    );
}

#[test]
fn transmute_call_with_both_types() {
    let rows = regions::collect_unsafe(&parse("fn mock(x: [u8; 4]) -> u32 {\n    transmute::<[u8;4], u32>(x)\n}\n"));
    assert_eq!(
        rows,
        vec![Finding {
            line: 2,
            detail: Detail::Transmute(regions::Transmute {
                from_type: Some(String::from("[u8 ; 4]")),
                to_type: Some(String::from("u32")),
            }),
        }]
    );
}

#[test]
fn transmute_copy_with_one_type() {
    let logs = collect_mock(
        Runner::UnsafeCode,
        "fn mock(x: &u32) -> u32 {\n    core::mem::transmute_copy::<u32>(x)\n}\n",
    );
    assert_eq!(logs, vec![r#"transmute=true from="u32""#]);
}

#[test]
fn other_calls_are_not_reported() {
    let logs = collect_mock(
        Runner::UnsafeCode,
        "fn mock() {\n    let f = |x: u32| x;\n    forget::<u32>(1);\n    f(2);\n    (transmute)(3);\n}\n",
    );
    assert!(logs.is_empty());
}

#[test]
fn trait_with_generics_and_impl_trait_argument() {
    let source = "trait Mock<A,B,C> { type Out<'a>; }\nfn f(x: impl Mock<A,B,C>) {}\n";
    let rows = traits::collect(&parse(source));
    assert_eq!(
        rows,
        vec![
            Finding {
                line: 1,
                detail: Detail::Trait(Row {
                    syntax: SyntaxType::TraitDef,
                    position: None,
                    generic_count: 3,
                    at_count: 1,
                    gat_count: Some(1),
                    trait_name: String::from("Mock"),
                    trait_bounds_count: 0,
                    lifetime_bounds_count: 0,
                }),
            },
            Finding {
                line: 2,
                detail: Detail::Trait(Row {
                    syntax: SyntaxType::TypeImpl,
                    position: Some(PositionType::Argument),
                    generic_count: 3,
                    at_count: 0,
                    gat_count: None,
                    trait_name: String::from("Mock"),
                    trait_bounds_count: 1,
                    lifetime_bounds_count: 0,
                }),
            },
        ]
    );
}

#[test]
fn marker_traits_are_never_reported() {
    let source = "trait Send {}
struct Mock;
unsafe impl Sync for Mock {}
impl Copy for Mock {}
fn mock<T>(a: impl Iterator<Item = T> + Send + Unpin, b: &dyn Sized) -> Box<dyn Fn(u8) -> u8 + Sync>
where
    T: Copy + Sized + Clone,
{
    loop {}
}
";
    let rows = traits::collect(&parse(source));
    let names: Vec<(String, usize, usize)> = rows
        .iter()
        .map(|finding| match &finding.detail {
            Detail::Trait(row) => {
                (row.trait_name.clone(), row.trait_bounds_count, row.lifetime_bounds_count)
            }
            _ => panic!("not a trait row"),
        })
        .collect();
    assert_eq!(
        names,
        vec![
            (String::from("Clone"), 3, 0),
            (String::from("Iterator"), 3, 0),
            (String::from("Fn"), 2, 0),
        ]
    );
}

#[test]
fn position_only_on_impl_and_dyn_rows() {
    let source = "trait Shape { type Unit; }
struct Mock;
impl Shape for Mock { type Unit = u8; }
fn mock<T>(a: impl Shape, b: Box<dyn Shape<Unit = u8>>) -> impl Shape + 'static
where
    T: Shape,
{
    Mock
}
";
    let rows = traits::collect(&parse(source));
    let seen: Vec<(Category, Option<PositionType>)> = rows
        .iter()
        .map(|finding| match &finding.detail {
            Detail::Trait(row) => (finding.detail.category(), row.position),
            _ => panic!("not a trait row"),
        })
        .collect();
    assert_eq!(
        seen,
        vec![
            (Category::TraitDefinition, None),
            (Category::ImplementationFor, None),
            (Category::WhereClausePredicate, None),
            (Category::PositionalImplTrait, Some(PositionType::Argument)),
            (Category::PositionalDynTrait, Some(PositionType::Argument)),
            (Category::PositionalImplTrait, Some(PositionType::Return)),
        ]
    );
}

#[test]
fn traits_outside_of_signatures_are_not_reported() {
    let source = "type Alias = Box<dyn Iterator<Item = u8>>;
struct Mock { field: Box<dyn Iterator<Item = u8>> }
static LIST: &[&dyn Iterator<Item = u8>] = &[];
fn mock() { let local: Option<&dyn Iterator<Item = u8>> = None; }
";
    assert!(collect_mock(Runner::Traits, source).is_empty());
}

#[test]
fn methods_are_searched_like_functions() {
    let source = "struct Mock;
impl Mock {
    fn method(&self, x: impl Iterator<Item = u8>) {}
}
trait Shape {
    fn method(&self) -> Box<dyn Iterator<Item = u8>>;
}
impl Shape for Mock {
    fn method(&self) -> Box<dyn Iterator<Item = u8>> where Self: Sized + Clone { todo() }
}
";
    let rows = traits::collect(&parse(source));
    let seen: Vec<(usize, SyntaxType, Option<PositionType>, String)> = rows
        .iter()
        .map(|finding| match &finding.detail {
            Detail::Trait(row) => {
                (finding.line, row.syntax, row.position, row.trait_name.clone())
            }
            _ => panic!("not a trait row"),
        })
        .collect();
    assert_eq!(
        seen,
        vec![
            (3, SyntaxType::TypeImpl, Some(PositionType::Argument), String::from("Iterator")),
            (5, SyntaxType::TraitDef, None, String::from("Shape")),
            (6, SyntaxType::TypeDyn, Some(PositionType::Return), String::from("Iterator")),
            (8, SyntaxType::ImplFor, None, String::from("Shape")),
            (9, SyntaxType::WhereClause, None, String::from("Clone")),
            (9, SyntaxType::TypeDyn, Some(PositionType::Return), String::from("Iterator")),
        ]
    );
}

#[test]
fn types_deep_in_a_parameter_are_arguments() {
    let source = "fn mock(cb: impl Fn(&dyn Display) -> Box<dyn Debug>) -> Vec<Box<dyn Error>> { todo() }\n";
    let rows = traits::collect(&parse(source));
    let seen: Vec<(SyntaxType, Option<PositionType>, String, usize, usize)> = rows
        .iter()
        .map(|finding| match &finding.detail {
            Detail::Trait(row) => (
                row.syntax,
                row.position,
                row.trait_name.clone(),
                row.generic_count,
                row.at_count,
            ),
            _ => panic!("not a trait row"),
        })
        .collect();
    assert_eq!(
        seen,
        vec![
            (SyntaxType::TypeImpl, Some(PositionType::Argument), String::from("Fn"), 1, 1),
            (SyntaxType::TypeDyn, Some(PositionType::Argument), String::from("Display"), 0, 0),
            (SyntaxType::TypeDyn, Some(PositionType::Argument), String::from("Debug"), 0, 0),
            (SyntaxType::TypeDyn, Some(PositionType::Return), String::from("Error"), 0, 0),
        ]
    );
}

#[test]
fn closure_parameters_and_results_are_searched() {
    let source = "fn mock() {
    let f = |x: &dyn Display| -> Box<dyn Debug> { todo() };
}
";
    let rows = traits::collect(&parse(source));
    let seen: Vec<(Option<PositionType>, String)> = rows
        .iter()
        .map(|finding| match &finding.detail {
            Detail::Trait(row) => (row.position, row.trait_name.clone()),
            _ => panic!("not a trait row"),
        })
        .collect();
    assert_eq!(
        seen,
        vec![
            (Some(PositionType::Argument), String::from("Display")),
            (Some(PositionType::Return), String::from("Debug")),
        ]
    );
}

#[test]
fn path_arguments_of_all_segments_count() {
    let source = "fn mock(f: impl outer::Wrap<u8>::Fn(u8, u16) -> u32, g: impl Iterator<Item = u8, Extra = u16>) {}\n";
    let rows = traits::collect(&parse(source));
    let counts: Vec<(String, usize, usize)> = rows
        .iter()
        .map(|finding| match &finding.detail {
            Detail::Trait(row) => (row.trait_name.clone(), row.generic_count, row.at_count),
            _ => panic!("not a trait row"),
        })
        .collect();
    assert_eq!(counts, vec![(String::from("Fn"), 3, 1), (String::from("Iterator"), 0, 2)]);
}

#[test]
fn closures_in_callee_and_elsewhere() {
    let source = "fn mock() {
    let stored = |x: u32| x + 1;
    let applied = (|x: u32| x + 2)(3);
    let passed = Some(4).map(|x| x + 5);
    let nested = (|x: u32| (|y: u32| y)(x))(6);
    let argument = stored((|| 7)());
}
";
    let rows = closures::collect(&parse(source));
    let seen: Vec<(usize, bool)> = rows
        .iter()
        .map(|finding| match &finding.detail {
            Detail::Closure(row) => (finding.line, row.is_in_call),
            _ => panic!("not a closure row"),
        })
        .collect();
    assert_eq!(
        seen,
        vec![(2, false), (3, true), (4, false), (5, true), (5, true), (6, true)]
    );
}

#[test]
fn every_analysis_runs_on_a_file() {
    let source = "unsafe fn mock(f: impl Fn(u8) -> u8) -> u8 {\n    unsafe { (|x| f(x))(1) }\n}\n";
    let tree = parse(source);
    let log = Logger { file_name: String::from("src/lib.rs"), version_id: 7 };
    let mut all = Vec::new();
    collect_file(&tree, &log, &mut all);
    let categories: Vec<Category> = all.iter().map(|o| o.detail.category()).collect();
    assert_eq!(
        categories,
        vec![
            Category::PositionalImplTrait,
            Category::ClosureExpression,
            Category::UnsafeRegion,
            Category::UnsafeRegion,
        ]
    );
    assert!(all.iter().all(|o| o.version_id == 7 && o.file_name == "src/lib.rs"));
    let mut one_by_one = Vec::new();
    for runner in all_runners() {
        one_by_one.extend(runner.collect_syntax(&tree, &log));
    }
    assert_eq!(all, one_by_one);
    assert_eq!(
        all_runners(),
        vec![Runner::Traits, Runner::Closures, Runner::UnsafeCode, Runner::AsyncCode]
    );
}

use lintkit::ast::{
    Argument, ArrowFunctionBody, SourceSpan, ArrowFunctionExpression, AssignmentTarget, AstKind,
    BindingIdentifier, BindingPattern, CallExpression, Expression, FormalParameter,
    FormalParameterRest, FormalParameters, Function, FunctionBody, IdentifierReference,
    MethodDefinitionKind, PropertyKind, Statement,
};
use lintkit::no_useless_forwarding_function::{
    no_useless_forwarding_function_diagnostic, LintContext, NoUselessForwardingFunction,
    RuleCategory,
};
use lintkit::semantic::{AstNode, AstNodes, Reference, Scoping, SymbolData};

use oxc_allocator::Allocator;
use oxc_ast::ast as js;
use oxc_parser::Parser;
use oxc_semantic::{ReferenceId, Semantic, SemanticBuilder, SymbolId};
use oxc_span::SourceType;

/// Whether the `Debug` rendering of a function node says the function is
/// `async`: the field is the first one of that name in the rendering, ahead of
/// the parameters and the body.
fn declared_async(debug: &str) -> bool {
    let at = debug.find("async: ").expect("a function node has an async field");
    debug[at + "async: ".len()..].starts_with("true")
}

/// An id of the semantic tables as the model holds it.
fn id32(index: usize) -> u32 {
    u32::try_from(index).expect("table ids fit in u32")
}

fn identifier(ident: &js::IdentifierReference) -> IdentifierReference {
    IdentifierReference { name: ident.name.to_string(), reference_id: id32(ident.reference_id().index()) }
}

fn binding(ident: &js::BindingIdentifier) -> BindingIdentifier {
    BindingIdentifier { symbol_id: id32(ident.symbol_id().index()) }
}

fn expression(e: &js::Expression) -> Expression {
    match e {
        js::Expression::Identifier(ident) => Expression::Identifier(identifier(ident)),
        js::Expression::CallExpression(call_expr) => Expression::CallExpression(Box::new(call(call_expr))),
        js::Expression::ParenthesizedExpression(x) => {
            Expression::ParenthesizedExpression(Box::new(expression(&x.expression)))
        }
        js::Expression::TSAsExpression(x) => Expression::TSAsExpression(Box::new(expression(&x.expression))),
        js::Expression::TSSatisfiesExpression(x) => {
            Expression::TSSatisfiesExpression(Box::new(expression(&x.expression)))
        }
        js::Expression::TSInstantiationExpression(x) => {
            Expression::TSInstantiationExpression(Box::new(expression(&x.expression)))
        }
        js::Expression::TSNonNullExpression(x) => {
            Expression::TSNonNullExpression(Box::new(expression(&x.expression)))
        }
        js::Expression::TSTypeAssertion(x) => Expression::TSTypeAssertion(Box::new(expression(&x.expression))),
        js::Expression::Super(_) => Expression::Super,
        _ => Expression::Other,
    }
}

fn argument(a: &js::Argument) -> Argument {
    match a {
        js::Argument::SpreadElement(spread) => Argument::SpreadElement(expression(&spread.argument)),
        _ => Argument::Expression(expression(a.to_expression())),
    }
}

fn call(c: &js::CallExpression) -> CallExpression {
    CallExpression {
        span: SourceSpan { start: c.span.start, end: c.span.end },
        callee: expression(&c.callee),
        arguments: c.arguments.iter().map(argument).collect(),
        optional: c.optional,
    }
}

fn statement(s: &js::Statement) -> Statement {
    match s {
        js::Statement::EmptyStatement(_) => Statement::EmptyStatement,
        js::Statement::ReturnStatement(r) => Statement::ReturnStatement(r.argument.as_ref().map(expression)),
        _ => Statement::Other,
    }
}

fn function_body(body: &js::FunctionBody) -> FunctionBody {
    FunctionBody {
        directive_count: body.directives.len(),
        statements: body.statements.iter().map(statement).collect(),
    }
}

fn pattern(p: &js::BindingPattern) -> BindingPattern {
    match p {
        js::BindingPattern::BindingIdentifier(ident) => BindingPattern::BindingIdentifier(binding(ident)),
        js::BindingPattern::AssignmentPattern(assign) => {
            BindingPattern::AssignmentPattern(Box::new(pattern(&assign.left)))
        }
        _ => BindingPattern::Other,
    }
}

fn params(p: &js::FormalParameters) -> FormalParameters {
    FormalParameters {
        items: p
            .items
            .iter()
            .map(|item| FormalParameter {
                has_decorators: !item.decorators.is_empty(),
                pattern: pattern(&item.pattern),
                has_initializer: item.initializer.is_some(),
            })
            .collect(),
        rest: p.rest.as_ref().map(|rest| FormalParameterRest {
            has_decorators: !rest.decorators.is_empty(),
            argument: pattern(&rest.rest.argument),
        }),
    }
}

fn kind(k: oxc_ast::AstKind) -> AstKind {
    match k {
        oxc_ast::AstKind::ArrowFunctionExpression(arrow) => {
            AstKind::ArrowFunctionExpression(ArrowFunctionExpression {
                is_async: declared_async(&format!("{arrow:?}")),
                params: params(&arrow.params),
                body: match &arrow.body {
                    js::ArrowFunctionBody::FunctionBody(body) => {
                        ArrowFunctionBody::FunctionBody(function_body(body))
                    }
                    body => ArrowFunctionBody::Expression(expression(body.to_expression())),
                },
            })
        }
        oxc_ast::AstKind::Function(function) => AstKind::Function(Function {
            id: function.id.as_ref().map(binding),
            generator: function.generator,
            is_async: declared_async(&format!("{function:?}")),
            has_this_param: function.this_param.is_some(),
            params: params(&function.params),
            body: function.body.as_ref().map(|body| function_body(body)),
        }),
        oxc_ast::AstKind::ParenthesizedExpression(_) => AstKind::ParenthesizedExpression,
        oxc_ast::AstKind::TSAsExpression(_) => AstKind::TSAsExpression,
        oxc_ast::AstKind::TSSatisfiesExpression(_) => AstKind::TSSatisfiesExpression,
        oxc_ast::AstKind::TSInstantiationExpression(_) => AstKind::TSInstantiationExpression,
        oxc_ast::AstKind::TSNonNullExpression(_) => AstKind::TSNonNullExpression,
        oxc_ast::AstKind::TSTypeAssertion(_) => AstKind::TSTypeAssertion,
        oxc_ast::AstKind::MethodDefinition(method) => AstKind::MethodDefinition {
            method_kind: match method.kind {
                js::MethodDefinitionKind::Constructor => MethodDefinitionKind::Constructor,
                js::MethodDefinitionKind::Method => MethodDefinitionKind::Method,
                js::MethodDefinitionKind::Get => MethodDefinitionKind::Getter,
                js::MethodDefinitionKind::Set => MethodDefinitionKind::Setter,
            },
            has_decorators: !method.decorators.is_empty(),
        },
        oxc_ast::AstKind::ObjectProperty(property) => AstKind::ObjectProperty {
            property_kind: match property.kind {
                js::PropertyKind::Init => PropertyKind::Init,
                js::PropertyKind::Get => PropertyKind::Getter,
                js::PropertyKind::Set => PropertyKind::Setter,
            },
        },
        oxc_ast::AstKind::PropertyDefinition(property) => {
            AstKind::PropertyDefinition { has_decorators: !property.decorators.is_empty() }
        }
        oxc_ast::AstKind::AccessorProperty(property) => {
            AstKind::AccessorProperty { has_decorators: !property.decorators.is_empty() }
        }
        oxc_ast::AstKind::AssignmentExpression(assignment) => AstKind::AssignmentExpression {
            left: match &assignment.left {
                js::AssignmentTarget::AssignmentTargetIdentifier(id) => {
                    AssignmentTarget::AssignmentTargetIdentifier(identifier(id))
                }
                _ => AssignmentTarget::Other,
            },
        },
        _ => AstKind::Other,
    }
}

/// The rule's view of a program's semantic tables, with no diagnostics yet.
fn context(semantic: &Semantic) -> LintContext {
    let nodes = semantic.nodes();
    let scoping = semantic.scoping();
    LintContext {
        nodes: AstNodes {
            kinds: nodes.iter().map(|node| kind(node.kind())).collect(),
            parent_ids: nodes.iter().map(|node| id32(nodes.parent_id(node.id()).index())).collect(),
        },
        scoping: Scoping {
            references: (0..scoping.references_len())
                .map(|i| Reference {
                    symbol_id: scoping
                        .get_reference(ReferenceId::from_usize(i))
                        .symbol_id()
                        .map(|s| id32(s.index())),
                })
                .collect(),
            symbols: (0..scoping.symbols_len())
                .map(|i| {
                    let symbol_id = SymbolId::from_usize(i);
                    SymbolData {
                        declaration: id32(scoping.symbol_declaration(symbol_id).index()),
                        resolved_references: scoping
                            .get_resolved_reference_ids(symbol_id)
                            .iter()
                            .map(|r| id32(r.index()))
                            .collect(),
                    }
                })
                .collect(),
            root_unresolved_names: scoping
                .root_unresolved_references()
                .keys()
                .map(|name| name.as_str().to_string())
                .collect(),
        },
        diagnostics: Vec::new(),
    }
}

/// Parses `source`, runs the rule on every node, and gives back the diagnostics.
fn lint(source: &str, source_type: SourceType) -> Vec<oxc_diagnostics::OxcDiagnostic> {
    let allocator = Allocator::default();
    let parsed = Parser::new(&allocator, source, source_type).parse();
    assert!(!parsed.panicked, "failed to parse {source}");
    let built = SemanticBuilder::new().with_build_nodes(true).build(&parsed.program);
    let mut ctx = context(&built.semantic);
    NoUselessForwardingFunction.run_on_program(&mut ctx);
    ctx.diagnostics
}

/// Parses `source` and runs the rule node by node, as the linter calls it, and
/// gives back the diagnostics.
fn lint_node_by_node(source: &str, source_type: SourceType) -> Vec<oxc_diagnostics::OxcDiagnostic> {
    let allocator = Allocator::default();
    let parsed = Parser::new(&allocator, source, source_type).parse();
    assert!(!parsed.panicked, "failed to parse {source}");
    let built = SemanticBuilder::new().with_build_nodes(true).build(&parsed.program);
    let semantic = built.semantic;
    let mut ctx = context(&semantic);
    let rule = NoUselessForwardingFunction;
    for node in semantic.nodes().iter() {
        let node = AstNode { id: id32(node.id().index()), kind: kind(node.kind()) };
        rule.run(&node, &mut ctx);
    }
    ctx.diagnostics
}

/// Each source of `pass` gets no diagnostic; each source of `fail` gets one,
/// with the rule's message and help, labelled at the call written in `labels`
/// at the same position.
fn check(
    rule_name: &str,
    plugin: &str,
    pass: &[&str],
    fail: &[&str],
    labels: &[&str],
    source_type: SourceType,
) {
    for source in pass {
        assert_eq!(
            lint(source, source_type).len(),
            0,
            "{plugin}/{rule_name}: expected no diagnostic: {source}"
        );
    }
    assert_eq!(fail.len(), labels.len());
    for (source, label) in fail.iter().zip(labels) {
        let diagnostics = lint(source, source_type);
        assert_eq!(diagnostics.len(), 1, "{plugin}/{rule_name}: expected one diagnostic: {source}");
        let diagnostic = &diagnostics[0];
        assert_eq!(diagnostic.message, "Avoid a function that only forwards its parameters.");
        assert_eq!(
            diagnostic.help.as_deref(),
            Some("Consider using the target function directly or adding behavior to the wrapper.")
        );
        let spans: &[_] = diagnostic.labels.as_ref();
        assert_eq!(spans.len(), 1, "{source}");
        let start = spans[0].offset() as usize;
        let end = start + spans[0].len() as usize;
        assert_eq!(&source[start..end], *label, "{source}");
    }
}

#[test]
fn test() {
    let pass = vec![
        "const wrapper = callee;",
        "const wrapper = (a, b) => callee(b, a);",
        "const wrapper = (a, b) => callee(a);",
        "const wrapper = (a, b) => callee(a, b, 1);",
        "const wrapper = (a = 1) => callee(a);",
        "const wrapper = ({ a }) => callee(a);",
        "const wrapper = (a) => { log(a); return callee(a); };",
        "const wrapper = (a) => { callee(a); };",
        "const wrapper = async (a) => callee(a);",
        "async function wrapper(a) { return callee(a); }",
        "function* wrapper(a) { return callee(a); }",
        "function wrapper(a) { return wrapper(a); }",
        "const wrapper = (a) => wrapper(a);",
        "let wrapper; wrapper = (a) => wrapper(a);",
        "const wrapper = memo((a) => wrapper(a));",
        "let assigned; assigned = memo((a) => assigned(a));",
        "const wrapper = function inner(a) { return inner(a); };",
        "const wrapper = (fn, a) => fn(fn, a);",
        "const wrapper = (a) => callee?.(a);",
        "const wrapper = (a) => object.callee(a);",
        "const wrapper = (a) => object[method](a);",
        "function wrapper(a, ...args) { return object.callee(a, ...args); }",
        "const wrapper = (a) => getCallee()(a);",
        "const wrapper = (a) => (condition ? first : second)(a);",
        "const wrapper = (a) => (0, callee)(a);",
        "const wrapper = (a) => this.callee(a);",
        "function wrapper(a) { return this.callee(a); }",
        "function wrapper(source) { return eval(source); }",
        "const wrapper = (source) => (eval)(source);",
        "function wrapper(a) { 'use strict'; return callee(a); }",
        "class Derived extends Base { constructor(...args) { return super(...args); } }",
        "class Example { constructor(a) { return callee(a); } }",
        "class Example { get wrapper() { return callee(); } }",
        "class Example { set wrapper(a) { return callee(a); } }",
        "class Derived extends Base { wrapper(a) { return super.callee(a); } }",
        "const object = { get wrapper() { return callee(); } };",
        "const object = { set wrapper(a) { return callee(a); } };",
    ];

    let fail = vec![
        "const wrapper = (a, b) => callee(a, b);",
        "const wrapper = (a, b) => (callee(a, b));",
        "const wrapper = (a, b) => { return callee(a, b); };",
        "function wrapper(a, b) { return callee(a, b); }",
        "const wrapper = function (a, b) { return callee(a, b); };",
        "const object = { wrapper(a, b) { return callee(a, b); } };",
        "class Example { wrapper(a, b) { return callee(a, b); } }",
        "const wrapper = () => callee();",
        "const wrapper = (...args) => callee(...args);",
        "function wrapper(a, ...args) { ; return callee(a, ...args); ; }",
        "const eval = callee; const wrapper = (a) => eval(a);",
        "const outer = () => { const wrapper = (a) => outer(a); return wrapper; };",
    ];

    let labels = vec![
        "callee(a, b)",
        "callee(a, b)",
        "callee(a, b)",
        "callee(a, b)",
        "callee(a, b)",
        "callee(a, b)",
        "callee(a, b)",
        "callee()",
        "callee(...args)",
        "callee(a, ...args)",
        "eval(a)",
        "outer(a)",
    ];

    check(
        NoUselessForwardingFunction::NAME,
        NoUselessForwardingFunction::PLUGIN,
        &pass,
        &fail,
        &labels,
        SourceType::tsx(),
    );
    check(
        NoUselessForwardingFunction::NAME,
        NoUselessForwardingFunction::PLUGIN,
        &pass,
        &fail,
        &labels,
        SourceType::mjs(),
    );
}

#[test]
fn test_typescript() {
    let pass = vec![
        "function wrapper(this: Context, a: number) { return callee(a); }",
        "const wrapper = (a: number = 1) => callee(a);",
        "class Example { @decorator wrapper(a: number) { return callee(a); } }",
        "class Example { @decorator wrapper = (a: number) => callee(a); }",
        "class Example { @decorator wrapper = ((a: number) => callee(a)) as Fn; }",
        "class Example { @decorator accessor wrapper = ((a: number) => callee(a)) as Fn; }",
        "class Example { wrapper(@decorator a: number) { return callee(a); } }",
        "const wrapper = ((a: number) => wrapper(a)) as Fn;",
        "let wrapper: Fn; wrapper = ((a: number) => wrapper(a)) satisfies Fn;",
    ];
    let fail = vec![
        "const wrapper = (a: number, b?: string) => callee(a, b);",
        "function wrapper<T>(a: T): T { return callee(a); }",
        "const wrapper = ((a: number) => callee!(a)) satisfies Fn;",
    ];

    let labels = vec!["callee(a, b)", "callee(a)", "callee!(a)"];

    check(
        NoUselessForwardingFunction::NAME,
        NoUselessForwardingFunction::PLUGIN,
        &pass,
        &fail,
        &labels,
        SourceType::ts(),
    );
}

#[test]
fn reported_diagnostic_names_the_forwarding_call() {
    let source = "const wrapper = (a, b) => callee(a, b);";
    let diagnostics = lint(source, SourceType::mjs());
    assert_eq!(diagnostics.len(), 1);
    let diagnostic = &diagnostics[0];
    assert_eq!(diagnostic.message, "Avoid a function that only forwards its parameters.");
    assert_eq!(
        diagnostic.help.as_deref(),
        Some("Consider using the target function directly or adding behavior to the wrapper.")
    );
    let labels: &[_] = diagnostic.labels.as_ref();
    assert_eq!(labels.len(), 1);
    assert_eq!(labels[0].offset() as usize, source.find("callee").unwrap());
    assert_eq!(labels[0].len() as usize, "callee(a, b)".len());
}

#[test]
fn diagnostic_is_labelled_at_the_given_span() {
    let diagnostic = no_useless_forwarding_function_diagnostic(SourceSpan { start: 3, end: 9 });
    assert_eq!(diagnostic.message, "Avoid a function that only forwards its parameters.");
    assert_eq!(
        diagnostic.help,
        "Consider using the target function directly or adding behavior to the wrapper."
    );
    assert_eq!(diagnostic.label, SourceSpan { start: 3, end: 9 });
    let diagnostic = diagnostic.to_oxc_diagnostic();
    assert_eq!(diagnostic.message, "Avoid a function that only forwards its parameters.");
    assert_eq!(
        diagnostic.help.as_deref(),
        Some("Consider using the target function directly or adding behavior to the wrapper.")
    );
    let labels: &[_] = diagnostic.labels.as_ref();
    assert_eq!(labels[0].offset(), 3);
    assert_eq!(labels[0].len(), 6);
}

#[test]
fn documented_rest_forwarding_is_reported_at_the_call() {
    let source = "function forward(...args) {\n    return target(...args);\n}";
    let diagnostics = lint(source, SourceType::mjs());
    assert_eq!(diagnostics.len(), 1);
    let spans: &[_] = diagnostics[0].labels.as_ref();
    let start = spans[0].offset() as usize;
    assert_eq!(&source[start..start + spans[0].len() as usize], "target(...args)");
}

#[test]
fn nested_forwarding_functions_are_each_reported() {
    let source = "const a = (x) => f(x); const b = (y) => g(y);";
    assert_eq!(lint(source, SourceType::mjs()).len(), 2);
}

#[test]
fn a_parameter_used_twice_is_not_forwarded_unchanged() {
    assert_eq!(lint("const wrapper = (a) => callee(a, a);", SourceType::mjs()).len(), 0);
    assert_eq!(lint("const wrapper = (a, b) => callee(a, a);", SourceType::mjs()).len(), 0);
}

#[test]
fn rest_parameter_must_be_spread_last() {
    assert_eq!(lint("const wrapper = (...args) => callee(args);", SourceType::mjs()).len(), 0);
    assert_eq!(lint("const wrapper = (a, ...args) => callee(...args, a);", SourceType::mjs()).len(), 0);
}

#[test]
fn object_method_getter_is_not_reported_but_plain_method_is() {
    assert_eq!(lint("const o = { get x() { return f(); } };", SourceType::mjs()).len(), 0);
    assert_eq!(lint("const o = { x() { return f(); } };", SourceType::mjs()).len(), 1);
}

#[test]
fn exchanging_two_forwarded_arguments_stops_the_report() {
    assert_eq!(lint("const w = (a, b, c) => f(a, b, c);", SourceType::mjs()).len(), 1);
    assert_eq!(lint("const w = (a, b, c) => f(c, b, a);", SourceType::mjs()).len(), 0);
}

#[test]
fn parentheses_or_a_lone_return_do_not_change_the_verdict() {
    for source in [
        "const w = (a) => f(a);",
        "const w = (a) => (f(a));",
        "const w = (a) => { return f(a); };",
    ] {
        assert_eq!(lint(source, SourceType::mjs()).len(), 1, "{source}");
    }
    for source in [
        "const w = (a) => w(a);",
        "const w = (a) => (w(a));",
        "const w = (a) => { return w(a); };",
    ] {
        assert_eq!(lint(source, SourceType::mjs()).len(), 0, "{source}");
    }
}

#[test]
fn renaming_names_does_not_change_the_verdict() {
    let pairs = [
        ("const wrapper = (a, b) => callee(a, b);", "const w2 = (x, y) => target(x, y);"),
        ("function wrapper(a) { return wrapper(a); }", "function other(z) { return other(z); }"),
        ("const wrapper = (a, b) => callee(b, a);", "const q = (m, n) => r(n, m);"),
    ];
    for (source, renamed) in pairs {
        assert_eq!(
            lint(source, SourceType::mjs()).len(),
            lint(renamed, SourceType::mjs()).len(),
            "{source} / {renamed}"
        );
    }
}

#[test]
fn a_local_eval_counts_as_global_when_the_program_also_uses_a_global_eval() {
    let source = "function f() { var eval = g; return (a) => eval(a); } eval(\"x\");";
    assert_eq!(lint(source, SourceType::cjs()).len(), 0);
    let source = "function f() { var eval = g; return (a) => eval(a); }";
    assert_eq!(lint(source, SourceType::cjs()).len(), 1);
}

#[test]
fn global_names_are_the_root_unresolved_names() {
    let scoping = Scoping {
        references: vec![Reference { symbol_id: None }, Reference { symbol_id: Some(0) }],
        symbols: vec![SymbolData { declaration: 1, resolved_references: vec![1] }],
        root_unresolved_names: vec!["eval".to_string(), "console".to_string()],
    };
    let local_eval = IdentifierReference { name: "eval".to_string(), reference_id: 1 };
    let callee = IdentifierReference { name: "callee".to_string(), reference_id: 0 };
    assert!(scoping.is_reference_to_global_variable(&local_eval));
    assert!(!scoping.is_reference_to_global_variable(&callee));
}

#[test]
fn rule_metadata() {
    assert_eq!(NoUselessForwardingFunction::NAME, "no-useless-forwarding-function");
    assert_eq!(NoUselessForwardingFunction::PLUGIN, "oxc");
    assert_eq!(NoUselessForwardingFunction::CATEGORY, RuleCategory::Nursery);
    assert!(!NoUselessForwardingFunction::HAS_FIX);
    let rule = NoUselessForwardingFunction::default().clone();
    assert_eq!(format!("{rule:?}"), "NoUselessForwardingFunction");
}

#[test]
fn running_node_by_node_reports_as_running_on_the_program() {
    for source in [
        "const wrapper = (a, b) => callee(a, b);",
        "function forward(...args) { return target(...args); } const w = (x) => g(x);",
        "const wrapper = (a, b) => callee(b, a);",
    ] {
        let whole = lint(source, SourceType::mjs());
        let by_node = lint_node_by_node(source, SourceType::mjs());
        assert_eq!(whole.len(), by_node.len(), "{source}");
        for (x, y) in whole.iter().zip(&by_node) {
            assert_eq!(x.message, y.message);
            let xs: &[_] = x.labels.as_ref();
            let ys: &[_] = y.labels.as_ref();
            assert_eq!(xs[0].offset(), ys[0].offset());
            assert_eq!(xs[0].len(), ys[0].len());
        }
    }
}

//! The `no-useless-forwarding-function` rule.
//!
//! It reports synchronous, ordinary functions whose only returned expression calls
//! a directly named function with every simple parameter passed unchanged and in
//! the same order. Rest parameters forwarded with spread syntax are also checked.
use vstd::prelude::*;

use oxc_diagnostics::OxcDiagnostic;
use oxc_span::Span;

use crate::ast::{
    lemma_inner_expression_sees_through_wrappers, argument_expression, binding_of, identifier_of, inner_expression, Argument,
    ArrowFunctionBody, ArrowFunctionExpression, AssignmentTarget, AstKind, BindingIdentifier, CallExpression, SourceSpan,
    Expression, FormalParameter, FormalParameters, FunctionBody, IdentifierReference,
    MethodDefinitionKind, PropertyKind, Statement,
};
use crate::semantic::{AstNode, AstNodes, Scoping, ROOT_NODE_ID};

verus! {

/// A diagnostic of the linter, as the diagnostics crate builds it.
#[verifier::external_type_specification]
#[verifier::external_body]
pub struct ExOxcDiagnostic(OxcDiagnostic);

/// What `OxcDiagnostic::warn` gives for a message: a warning with that message.
pub uninterp spec fn warned(message: Seq<char>) -> OxcDiagnostic;

/// What `OxcDiagnostic::with_help` gives: the diagnostic with that help text.
pub uninterp spec fn helped(diagnostic: OxcDiagnostic, help: Seq<char>) -> OxcDiagnostic;

/// What `OxcDiagnostic::with_label` gives for the span `start..end`: the
/// diagnostic with that span as its only label.
pub uninterp spec fn labelled(diagnostic: OxcDiagnostic, start: u32, end: u32) -> OxcDiagnostic;

/// Calls `OxcDiagnostic::warn`, which builds a warning with the given message.
/// The result is what `warned` names for that message; what it holds is not
/// stated.
#[verifier::external_body]
fn warn(message: &'static str) -> (diagnostic: OxcDiagnostic)
    ensures
        diagnostic == warned(message@),
{
    OxcDiagnostic::warn(message)
}

/// Calls `OxcDiagnostic::with_help`, which sets the help text. The result is
/// what `helped` names for those arguments.
#[verifier::external_body]
fn with_help(diagnostic: OxcDiagnostic, help: &'static str) -> (helped_diagnostic: OxcDiagnostic)
    ensures
        helped_diagnostic == helped(diagnostic, help@),
{
    diagnostic.with_help(help)
}

/// Calls `OxcDiagnostic::with_label` with the span `start..end` made by
/// `Span::new`; the label is the only one. Turning the span into a label
/// computes `end - start`, which fails when `end` comes before `start`, hence the
/// `requires`. The result is what `labelled` names for those arguments.
#[verifier::external_body]
fn with_label(diagnostic: OxcDiagnostic, start: u32, end: u32) -> (labelled_diagnostic: OxcDiagnostic)
    requires
        start <= end,
    ensures
        labelled_diagnostic == labelled(diagnostic, start, end),
{
    diagnostic.with_label(Span::new(start, end))
}

/// A warning of the linter: its message, a help text, and the span it labels.
pub struct Diagnostic {
    pub message: &'static str,
    pub help: &'static str,
    pub label: SourceSpan,
}

/// The diagnostics crate's warning with the given message and help, labelled at
/// the given span.
pub open spec fn oxc_warning(message: Seq<char>, help: Seq<char>, label: SourceSpan) -> OxcDiagnostic {
    labelled(helped(warned(message), help), label.start, label.end)
}

impl Diagnostic {
    /// The warning as the diagnostics crate represents it: `OxcDiagnostic::warn`
    /// of the message, with the help text and labelled at the span.
    pub fn to_oxc_diagnostic(&self) -> (diagnostic: OxcDiagnostic)
        requires
            self.label.start <= self.label.end,
        ensures
            diagnostic == oxc_warning(self.message@, self.help@, self.label),
    {
        with_label(with_help(warn(self.message), self.help), self.label.start, self.label.end)
    }
}

/// The message of this rule's warning.
pub open spec fn forwarding_message() -> Seq<char> {
    "Avoid a function that only forwards its parameters."@
}

/// The help text of this rule's warning.
pub open spec fn forwarding_help() -> Seq<char> {
    "Consider using the target function directly or adding behavior to the wrapper."@
}

/// The warning that this rule gives, labelled at the forwarding call.
pub fn no_useless_forwarding_function_diagnostic(span: SourceSpan) -> (diagnostic: Diagnostic)
    ensures
        diagnostic.message@ == forwarding_message(),
        diagnostic.help@ == forwarding_help(),
        diagnostic.label == span,
{
    Diagnostic {
        message: "Avoid a function that only forwards its parameters.",
        help: "Consider using the target function directly or adding behavior to the wrapper.",
        label: span,
    }
}

/// What a rule can read while it looks at a node, and the diagnostics it reports.
pub struct LintContext {
    pub nodes: AstNodes,
    pub scoping: Scoping,
    pub diagnostics: Vec<OxcDiagnostic>,
}

/// Whether a node kind only wraps an expression: parentheses or a TypeScript
/// `as`, `satisfies`, instantiation, non-null or `<T>` assertion.
pub open spec fn is_expression_wrapper(kind: AstKind) -> bool {
    ||| kind is ParenthesizedExpression
    ||| kind is TSAsExpression
    ||| kind is TSSatisfiesExpression
    ||| kind is TSInstantiationExpression
    ||| kind is TSNonNullExpression
    ||| kind is TSTypeAssertion
}

/// The kind of the nearest ancestor of a node that is not an expression wrapper,
/// if any.
pub open spec fn outer_parent_kind(nodes: AstNodes, id: u32) -> Option<AstKind>
    decreases id,
    when nodes.wf() && nodes.contains(id)
{
    if id == ROOT_NODE_ID {
        None
    } else {
        let parent = nodes.spec_parent_id(id);
        if is_expression_wrapper(nodes.spec_kind(parent)) {
            outer_parent_kind(nodes, parent)
        } else {
            Some(nodes.spec_kind(parent))
        }
    }
}

/// Whether a function that sits directly in a node of this kind is an ordinary
/// function: not a constructor, getter or setter, and not decorated.
pub open spec fn is_ordinary_position(parent: Option<AstKind>) -> bool {
    match parent {
        Some(AstKind::MethodDefinition { method_kind, has_decorators }) => method_kind is Method
            && !has_decorators,
        Some(AstKind::ObjectProperty { property_kind }) => property_kind is Init,
        Some(AstKind::PropertyDefinition { has_decorators }) => !has_decorators,
        Some(AstKind::AccessorProperty { has_decorators }) => !has_decorators,
        _ => true,
    }
}

/// The call of an expression, once its wrappers are taken off, unless it is an
/// optional call or a `super(...)` call.
pub open spec fn plain_call(e: Expression) -> Option<CallExpression> {
    match inner_expression(e) {
        Expression::CallExpression(call) => if !call.optional && !(call.callee is Super) {
            Some(*call)
        } else {
            None
        },
        _ => None,
    }
}

/// The statements of a list that are not empty statements (`;`).
pub open spec fn non_empty_statements(statements: Seq<Statement>) -> Seq<Statement> {
    statements.filter(|s: Statement| !(s is EmptyStatement))
}

/// The plain call that a block returns, when the block has no directive and,
/// empty statements aside, is one `return` of a plain call.
pub open spec fn body_returned_call(body: FunctionBody) -> Option<CallExpression> {
    let statements = non_empty_statements(body.statements@);
    if body.directive_count == 0 && statements.len() == 1 {
        match statements[0] {
            Statement::ReturnStatement(Some(e)) => plain_call(e),
            _ => None,
        }
    } else {
        None
    }
}

/// A candidate for the rule: a synchronous arrow function, or a function that is
/// neither async, a generator nor has a `this` parameter, whose body only returns
/// a plain call. Gives its parameters, that call and the function's own name.
pub open spec fn forwarding_candidate(kind: AstKind) -> Option<
    (FormalParameters, CallExpression, Option<BindingIdentifier>),
> {
    match kind {
        AstKind::ArrowFunctionExpression(arrow) => {
            if arrow.is_async {
                None
            } else {
                let call = match arrow.body {
                    ArrowFunctionBody::Expression(e) => plain_call(e),
                    ArrowFunctionBody::FunctionBody(body) => body_returned_call(body),
                };
                match call {
                    Some(call) => Some((arrow.params, call, None)),
                    None => None,
                }
            }
        },
        AstKind::Function(function) => {
            if function.is_async || function.generator || function.has_this_param {
                None
            } else {
                match function.body {
                    Some(body) => match body_returned_call(body) {
                        Some(call) => Some((function.params, call, function.id)),
                        None => None,
                    },
                    None => None,
                }
            }
        },
        _ => None,
    }
}

/// The name `eval`.
pub open spec fn is_eval_name(name: Seq<char>) -> bool {
    name == seq!['e', 'v', 'a', 'l']
}

/// The name that a call calls directly, unless it is `eval` and `eval` names a
/// global variable of the program (some reference to `eval` is left unresolved
/// at the root, whichever `eval` this call names).
pub open spec fn direct_callee_of(call: CallExpression, scoping: Scoping) -> Option<
    IdentifierReference,
> {
    match identifier_of(call.callee) {
        Some(callee) => if is_eval_name(callee.name@) && scoping.is_global_name(callee.name@) {
            None
        } else {
            Some(callee)
        },
        None => None,
    }
}

/// `reference` resolves to the symbol of `binding`, and nothing else refers to it.
pub open spec fn is_only_reference(
    binding: BindingIdentifier,
    reference: IdentifierReference,
    scoping: Scoping,
) -> bool {
    &&& scoping.symbol_of(reference) == Some(binding.symbol_id)
    &&& scoping.reference_count(binding.symbol_id) <= 1
}

/// A parameter without default or decorator that binds a name, passed as an
/// argument that is that name and its only use.
pub open spec fn parameter_forwarded(
    param: FormalParameter,
    argument: Argument,
    scoping: Scoping,
) -> bool {
    &&& !param.has_initializer
    &&& !param.has_decorators
    &&& binding_of(param.pattern) matches Some(binding)
    &&& argument_expression(argument) matches Some(e)
    &&& identifier_of(e) matches Some(reference)
    &&& is_only_reference(binding, reference, scoping)
}

/// Every parameter is passed on, in order, as the argument at its position; a
/// rest parameter is passed on as a spread of its name in the last position; and
/// there are no other arguments.
pub open spec fn forwards_all(params: FormalParameters, call: CallExpression, scoping: Scoping) -> bool {
    let items = params.items@;
    let arguments = call.arguments@;
    &&& arguments.len() == items.len() + (if params.rest is Some {
        1int
    } else {
        0int
    })
    &&& forall|i: int|
        0 <= i < items.len() ==> #[trigger] parameter_forwarded(items[i], arguments[i], scoping)
    &&& match params.rest {
        None => true,
        Some(rest) => {
            &&& !rest.has_decorators
            &&& binding_of(rest.argument) matches Some(binding)
            &&& arguments.last() matches Argument::SpreadElement(e)
            &&& identifier_of(e) matches Some(reference)
            &&& is_only_reference(binding, reference, scoping)
        },
    }
}

/// Whether an ancestor of this kind assigns to the symbol with a plain `name = ...`.
pub open spec fn assigns_to_symbol(kind: AstKind, scoping: Scoping, symbol_id: u32) -> bool {
    &&& kind matches AstKind::AssignmentExpression { left }
    &&& left matches AssignmentTarget::AssignmentTargetIdentifier(target)
    &&& scoping.symbol_of(target) == Some(symbol_id)
}

/// Whether a node kind starts a function.
pub open spec fn is_function_kind(kind: AstKind) -> bool {
    kind is ArrowFunctionExpression || kind is Function
}

/// Going up from a node to the nearest enclosing function (that one included),
/// some ancestor is the declaration `declaration` or assigns to `symbol_id`.
pub open spec fn defined_by_ancestor(
    nodes: AstNodes,
    scoping: Scoping,
    id: u32,
    symbol_id: u32,
    declaration: u32,
) -> bool
    decreases id,
    when nodes.wf() && nodes.contains(id)
{
    if id == ROOT_NODE_ID {
        false
    } else {
        let parent = nodes.spec_parent_id(id);
        let kind = nodes.spec_kind(parent);
        ||| parent == declaration
        ||| assigns_to_symbol(kind, scoping, symbol_id)
        ||| !is_function_kind(kind) && defined_by_ancestor(
            nodes,
            scoping,
            parent,
            symbol_id,
            declaration,
        )
    }
}

/// The call calls the function itself: by the function's own name, or by the
/// name that the nearest declaration or assignment above it gives the function.
pub open spec fn is_recursive_call(
    callee: IdentifierReference,
    node_id: u32,
    function_id: Option<BindingIdentifier>,
    nodes: AstNodes,
    scoping: Scoping,
) -> bool {
    let symbol = scoping.symbol_of(callee);
    ||| function_id matches Some(id) && symbol == Some(id.symbol_id)
    ||| symbol matches Some(s) && defined_by_ancestor(
        nodes,
        scoping,
        node_id,
        s,
        scoping.spec_symbol_declaration(s),
    )
}

/// The span of the call that the rule reports for a node: the node is a
/// candidate, in an ordinary position, calls a name directly with all its
/// parameters forwarded, and does not call itself.
pub open spec fn reported_span(node: AstNode, nodes: AstNodes, scoping: Scoping) -> Option<SourceSpan> {
    match forwarding_candidate(node.kind) {
        Some((params, call, function_id)) => match direct_callee_of(call, scoping) {
            Some(callee) => if is_ordinary_position(outer_parent_kind(nodes, node.id))
                && forwards_all(params, call, scoping) && !is_recursive_call(
                callee,
                node.id,
                function_id,
                nodes,
                scoping,
            ) {
                Some(call.span)
            } else {
                None
            },
            None => None,
        },
        None => None,
    }
}

/// The node of the table with the given id.
pub open spec fn node_at(nodes: AstNodes, id: int) -> AstNode {
    AstNode { id: id as u32, kind: nodes.kinds@[id] }
}

/// The spans that the rule reports for the first `n` nodes of the table, in id
/// order.
pub open spec fn reports_upto(nodes: AstNodes, scoping: Scoping, n: nat) -> Seq<SourceSpan>
    decreases n,
{
    if n == 0 {
        Seq::empty()
    } else {
        let earlier = reports_upto(nodes, scoping, (n - 1) as nat);
        match reported_span(node_at(nodes, n - 1), nodes, scoping) {
            Some(span) => earlier.push(span),
            None => earlier,
        }
    }
}

/// The spans that the rule reports for a whole program, node by node in id order.
pub open spec fn program_reports(nodes: AstNodes, scoping: Scoping) -> Seq<SourceSpan> {
    reports_upto(nodes, scoping, nodes.kinds@.len())
}

/// The warnings that the rule reports at the given spans, in order.
pub open spec fn warnings_at(spans: Seq<SourceSpan>) -> Seq<OxcDiagnostic> {
    spans.map_values(|span: SourceSpan| oxc_warning(forwarding_message(), forwarding_help(), span))
}

/// The names that a call reads: its callee and the name of each argument.
pub open spec fn call_references_resolvable(call: CallExpression, scoping: Scoping) -> bool {
    &&& identifier_of(call.callee) matches Some(r) ==> scoping.has_reference(r)
    &&& forall|i: int|
        0 <= i < call.arguments@.len() ==> match #[trigger] call.arguments@[i] {
            Argument::SpreadElement(e) => identifier_of(e) matches Some(r) ==> scoping.has_reference(r),
            Argument::Expression(e) => identifier_of(e) matches Some(r) ==> scoping.has_reference(r),
        }
}

impl LintContext {
    /// The tables are well formed, and every assignment target name has its
    /// reference in the table.
    pub open spec fn wf(&self) -> bool {
        &&& self.nodes.wf()
        &&& self.scoping.wf()
        &&& forall|i: int|
            0 <= i < self.nodes.kinds@.len() ==> (#[trigger] self.nodes.kinds@[i] matches AstKind::AssignmentExpression {
                left: AssignmentTarget::AssignmentTargetIdentifier(r),
            } ==> self.scoping.has_reference(r))
    }

    /// The node is in the table and the names that the rule reads of it have
    /// their references in the table.
    pub open spec fn can_lint(&self, node: AstNode) -> bool {
        &&& self.nodes.contains(node.id)
        &&& forwarding_candidate(node.kind) matches Some(c) ==> call_references_resolvable(
            c.1,
            self.scoping,
        )
    }

    /// Reports a diagnostic.
    pub fn diagnostic(&mut self, diagnostic: OxcDiagnostic)
        ensures
            final(self).diagnostics@ == old(self).diagnostics@.push(diagnostic),
            final(self).nodes == old(self).nodes,
            final(self).scoping == old(self).scoping,
    {
        self.diagnostics.push(diagnostic);
    }
}

/// The categories of the linter's rules.
#[derive(Clone, Copy, Debug, PartialEq, Eq, Structural)]
pub enum RuleCategory {
    Correctness,
    Suspicious,
    Pedantic,
    Perf,
    Style,
    Restriction,
    Nursery,
}

/// Flags functions that only forward their parameters to another function.
#[derive(Debug, Clone)]
pub struct NoUselessForwardingFunction;

impl Default for NoUselessForwardingFunction {
    fn default() -> (rule: Self)
        ensures
            rule == NoUselessForwardingFunction,
    {
        NoUselessForwardingFunction
    }
}

impl NoUselessForwardingFunction {
    /// The rule's name, as configurations and reports spell it.
    pub const NAME: &'static str = "no-useless-forwarding-function";

    /// The plugin that the rule belongs to.
    pub const PLUGIN: &'static str = "oxc";

    /// The rule is new and not yet part of the default set.
    pub const CATEGORY: RuleCategory = RuleCategory::Nursery;

    /// The rule offers no automatic fix: replacing a wrapper by its target can
    /// change what a program does.
    pub const HAS_FIX: bool = false;

    /// The span of the call to report for this node, if the node is a function
    /// that only forwards its parameters.
    pub fn forwarding_call_span(&self, node: &AstNode, ctx: &LintContext) -> (span: Option<SourceSpan>)
        requires
            ctx.wf(),
            ctx.can_lint(*node),
        ensures
            span == reported_span(*node, ctx.nodes, ctx.scoping),
    {
        reported_call_span(node.id, &node.kind, ctx)
    }

    /// Reports the node if it is a function that only forwards its parameters:
    /// appends the rule's warning, labelled at the forwarding call.
    pub fn run(&self, node: &AstNode, ctx: &mut LintContext)
        requires
            old(ctx).wf(),
            old(ctx).can_lint(*node),
            reported_span(*node, old(ctx).nodes, old(ctx).scoping) matches Some(span) ==> span.start
                <= span.end,
        ensures
            final(ctx).nodes == old(ctx).nodes,
            final(ctx).scoping == old(ctx).scoping,
            reported_span(*node, old(ctx).nodes, old(ctx).scoping) matches Some(span)
                ==> final(ctx).diagnostics@ == old(ctx).diagnostics@.push(
                oxc_warning(forwarding_message(), forwarding_help(), span),
            ),
            reported_span(*node, old(ctx).nodes, old(ctx).scoping) is None
                ==> final(ctx).diagnostics@ == old(ctx).diagnostics@,
    {
        if let Some(span) = self.forwarding_call_span(node, ctx) {
            ctx.diagnostic(no_useless_forwarding_function_diagnostic(span).to_oxc_diagnostic());
        }
    }

    /// Runs the rule on every node of the program, in id order, as the linter
    /// does: appends one warning for each function that only forwards its
    /// parameters.
    pub fn run_on_program(&self, ctx: &mut LintContext)
        requires
            old(ctx).wf(),
            forall|i: int|
                0 <= i < old(ctx).nodes.kinds@.len() ==> #[trigger] old(ctx).can_lint(
                    node_at(old(ctx).nodes, i),
                ),
            forall|i: int|
                0 <= i < old(ctx).nodes.kinds@.len() ==> (#[trigger] reported_span(
                    node_at(old(ctx).nodes, i),
                    old(ctx).nodes,
                    old(ctx).scoping,
                ) matches Some(span) ==> span.start <= span.end),
        ensures
            final(ctx).nodes == old(ctx).nodes,
            final(ctx).scoping == old(ctx).scoping,
            final(ctx).diagnostics@ == old(ctx).diagnostics@ + warnings_at(
                program_reports(old(ctx).nodes, old(ctx).scoping),
            ),
    {
        let n = ctx.nodes.kinds.len();
        let mut i: usize = 0;
        while i < n
            invariant
                ctx.wf(),
                ctx.nodes == old(ctx).nodes,
                ctx.scoping == old(ctx).scoping,
                n == ctx.nodes.kinds@.len(),
                0 <= i <= n,
                forall|j: int|
                    0 <= j < old(ctx).nodes.kinds@.len() ==> #[trigger] old(ctx).can_lint(
                        node_at(old(ctx).nodes, j),
                    ),
                forall|j: int|
                    0 <= j < old(ctx).nodes.kinds@.len() ==> (#[trigger] reported_span(
                        node_at(old(ctx).nodes, j),
                        old(ctx).nodes,
                        old(ctx).scoping,
                    ) matches Some(span) ==> span.start <= span.end),
                ctx.diagnostics@ == old(ctx).diagnostics@ + warnings_at(
                    reports_upto(ctx.nodes, ctx.scoping, i as nat),
                ),
            decreases n - i,
        {
            assert(old(ctx).can_lint(node_at(old(ctx).nodes, i as int)));
            let found = reported_call_span(i as u32, &ctx.nodes.kinds[i], ctx);
            assert(node_at(ctx.nodes, i as int) == AstNode { id: i as u32, kind: ctx.nodes.kinds@[i as int] });
            let ghost before = reports_upto(ctx.nodes, ctx.scoping, i as nat);
            if let Some(span) = found {
                assert(span.start <= span.end);
                let warning = no_useless_forwarding_function_diagnostic(span).to_oxc_diagnostic();
                ctx.diagnostic(warning);
                assert(warnings_at(before.push(span)) =~= warnings_at(before).push(warning));
            }
            i = i + 1;
        }
    }
}

/// The span of the call to report for the node with this id and kind, if it is
/// a function that only forwards its parameters.
fn reported_call_span(node_id: u32, kind: &AstKind, ctx: &LintContext) -> (span: Option<SourceSpan>)
    requires
        ctx.wf(),
        ctx.can_lint(AstNode { id: node_id, kind: *kind }),
    ensures
        span == reported_span(AstNode { id: node_id, kind: *kind }, ctx.nodes, ctx.scoping),
{
    let (params, call, function_id): (&FormalParameters, &CallExpression, Option<&BindingIdentifier>) =
        match kind {
        AstKind::ArrowFunctionExpression(arrow) => {
            if arrow.is_async {
                return None;
            }
            let call = match &arrow.body {
                ArrowFunctionBody::Expression(e) => as_plain_call(e),
                ArrowFunctionBody::FunctionBody(body) => returned_call(body),
            };
            match call {
                Some(call) => (&arrow.params, call, None),
                None => {
                    return None;
                },
            }
        },
        AstKind::Function(function) => {
            if function.is_async || function.generator || function.has_this_param {
                return None;
            }
            let body = match &function.body {
                Some(body) => body,
                None => {
                    return None;
                },
            };
            match returned_call(body) {
                Some(call) => (&function.params, call, function.id.as_ref()),
                None => {
                    return None;
                },
            }
        },
        _ => {
            return None;
        },
    };
    let callee = match direct_callee(call, ctx) {
        Some(callee) => callee,
        None => {
            return None;
        },
    };
    if !is_ordinary_function(node_id, ctx) || !forwards_all_parameters(params, call, ctx)
        || is_direct_recursive_call(callee, node_id, function_id, ctx) {
        return None;
    }
    Some(call.span)
}

/// Taking off the wrappers twice takes off no more than once.
proof fn lemma_inner_expression_idempotent(e: Expression)
    ensures
        inner_expression(inner_expression(e)) == inner_expression(e),
        identifier_of(inner_expression(e)) == identifier_of(e),
    decreases e,
{
    match e {
        Expression::ParenthesizedExpression(x) => lemma_inner_expression_idempotent(*x),
        Expression::TSAsExpression(x) => lemma_inner_expression_idempotent(*x),
        Expression::TSSatisfiesExpression(x) => lemma_inner_expression_idempotent(*x),
        Expression::TSInstantiationExpression(x) => lemma_inner_expression_idempotent(*x),
        Expression::TSNonNullExpression(x) => lemma_inner_expression_idempotent(*x),
        Expression::TSTypeAssertion(x) => lemma_inner_expression_idempotent(*x),
        _ => {},
    }
}

/// The plain call of an expression, if any.
pub fn as_plain_call(expression: &Expression) -> (call: Option<&CallExpression>)
    ensures
        match call {
            Some(c) => plain_call(*expression) == Some(*c),
            None => plain_call(*expression) is None,
        },
{
    match expression.get_inner_expression() {
        Expression::CallExpression(call) => {
            if !call.optional && !call.callee.is_super() {
                Some(call)
            } else {
                None
            }
        },
        _ => None,
    }
}

/// One more statement looked at: the non-empty statements grow by it unless it
/// is an empty statement.
proof fn lemma_non_empty_statements_step(s: Seq<Statement>, i: int)
    requires
        0 <= i < s.len(),
    ensures
        non_empty_statements(s.take(i + 1)) == if s[i] is EmptyStatement {
            non_empty_statements(s.take(i))
        } else {
            non_empty_statements(s.take(i)).push(s[i])
        },
{
    reveal(Seq::filter);
    assert(s.take(i + 1).drop_last() =~= s.take(i));
}

/// The plain call that a block returns, when it is the block's only statement
/// apart from empty ones and there is no directive.
pub fn returned_call(body: &FunctionBody) -> (call: Option<&CallExpression>)
    ensures
        match call {
            Some(c) => body_returned_call(*body) == Some(*c),
            None => body_returned_call(*body) is None,
        },
{
    if body.directive_count != 0 {
        return None;
    }
    let n = body.statements.len();
    let mut first: usize = 0;
    let mut count: usize = 0;
    let mut i: usize = 0;
    while i < n
        invariant
            n == body.statements@.len(),
            0 <= i <= n,
            count == non_empty_statements(body.statements@.take(i as int)).len(),
            count <= i,
            count > 0 ==> first < i && non_empty_statements(body.statements@.take(i as int))[0]
                == body.statements@[first as int],
        decreases n - i,
    {
        proof {
            lemma_non_empty_statements_step(body.statements@, i as int);
        }
        if !matches!(body.statements[i], Statement::EmptyStatement) {
            if count == 0 {
                first = i;
            }
            count = count + 1;
        }
        i = i + 1;
    }
    assert(body.statements@.take(n as int) =~= body.statements@);
    if count != 1 {
        return None;
    }
    match &body.statements[first] {
        Statement::ReturnStatement(Some(argument)) => as_plain_call(argument),
        _ => None,
    }
}

/// Whether `name` is `eval`.
fn is_eval(name: &String) -> (r: bool)
    ensures
        r == is_eval_name(name@),
{
    let s = name.as_str();
    if s.unicode_len() != 4 {
        return false;
    }
    let r = s.get_char(0) == 'e' && s.get_char(1) == 'v' && s.get_char(2) == 'a' && s.get_char(3)
        == 'l';
    assert(r ==> s@ =~= seq!['e', 'v', 'a', 'l']);
    r
}

/// The name that a call calls directly, unless it is the global `eval`.
pub fn direct_callee<'a>(call: &'a CallExpression, ctx: &LintContext) -> (callee: Option<
    &'a IdentifierReference,
>)
    ensures
        match callee {
            Some(c) => direct_callee_of(*call, ctx.scoping) == Some(*c),
            None => direct_callee_of(*call, ctx.scoping) is None,
        },
{
    let callee = match call.callee.get_inner_expression().get_identifier_reference() {
        Some(callee) => callee,
        None => {
            proof {
                lemma_inner_expression_idempotent(call.callee);
            }
            return None;
        },
    };
    proof {
        lemma_inner_expression_idempotent(call.callee);
    }
    if is_eval(&callee.name) && ctx.scoping.is_reference_to_global_variable(callee) {
        return None;
    }
    Some(callee)
}

/// Whether a node kind only wraps an expression.
fn is_outer_expression(kind: &AstKind) -> (r: bool)
    ensures
        r == is_expression_wrapper(*kind),
{
    match kind {
        AstKind::ParenthesizedExpression | AstKind::TSAsExpression
        | AstKind::TSSatisfiesExpression | AstKind::TSInstantiationExpression
        | AstKind::TSNonNullExpression | AstKind::TSTypeAssertion => true,
        _ => false,
    }
}

/// The nearest ancestor of a node that is not an expression wrapper.
fn first_outer_parent<'a>(nodes: &'a AstNodes, id: u32) -> (kind: Option<&'a AstKind>)
    requires
        nodes.wf(),
        nodes.contains(id),
    ensures
        match kind {
            Some(k) => outer_parent_kind(*nodes, id) == Some(*k),
            None => outer_parent_kind(*nodes, id) is None,
        },
{
    let mut current = id;
    while current != ROOT_NODE_ID
        invariant
            nodes.wf(),
            nodes.contains(current),
            outer_parent_kind(*nodes, id) == outer_parent_kind(*nodes, current),
        decreases current,
    {
        let parent = nodes.parent_id(current);
        let kind = nodes.kind(parent);
        if !is_outer_expression(kind) {
            return Some(kind);
        }
        current = parent;
    }
    None
}

/// Whether the function of the node is an ordinary function: not a constructor,
/// getter or setter, and not decorated.
pub fn is_ordinary_function(node_id: u32, ctx: &LintContext) -> (r: bool)
    requires
        ctx.nodes.wf(),
        ctx.nodes.contains(node_id),
    ensures
        r == is_ordinary_position(outer_parent_kind(ctx.nodes, node_id)),
{
    let parent = match first_outer_parent(&ctx.nodes, node_id) {
        Some(parent) => parent,
        None => {
            return true;
        },
    };
    match parent {
        AstKind::MethodDefinition { method_kind, has_decorators } => {
            matches!(method_kind, MethodDefinitionKind::Method) && !*has_decorators
        },
        AstKind::ObjectProperty { property_kind } => matches!(property_kind, PropertyKind::Init),
        AstKind::PropertyDefinition { has_decorators } => !*has_decorators,
        AstKind::AccessorProperty { has_decorators } => !*has_decorators,
        _ => true,
    }
}

/// Whether `reference` resolves to the symbol of `binding` and is its only use.
fn is_only_reference_to_binding(
    binding: &BindingIdentifier,
    reference: &IdentifierReference,
    ctx: &LintContext,
) -> (r: bool)
    requires
        ctx.scoping.wf(),
        ctx.scoping.has_reference(*reference),
    ensures
        r == is_only_reference(*binding, *reference, ctx.scoping),
{
    match ctx.scoping.get_reference(reference.reference_id).symbol_id {
        Some(symbol_id) => symbol_id == binding.symbol_id
            && ctx.scoping.resolved_reference_count(binding.symbol_id) <= 1,
        None => false,
    }
}

/// Whether every parameter is passed on, in order and unchanged, by the call.
pub fn forwards_all_parameters(
    params: &FormalParameters,
    call: &CallExpression,
    ctx: &LintContext,
) -> (r: bool)
    requires
        ctx.scoping.wf(),
        call_references_resolvable(*call, ctx.scoping),
    ensures
        r == forwards_all(*params, *call, ctx.scoping),
{
    let argument_count = call.arguments.len();
    let item_count = params.items.len();
    let count_matches = match &params.rest {
        Some(_) => argument_count > 0 && argument_count - 1 == item_count,
        None => argument_count == item_count,
    };
    if !count_matches {
        return false;
    }
    let mut i: usize = 0;
    while i < item_count
        invariant
            ctx.scoping.wf(),
            call_references_resolvable(*call, ctx.scoping),
            item_count == params.items@.len(),
            item_count <= argument_count,
            argument_count == call.arguments@.len(),
            0 <= i <= item_count,
            forall|j: int|
                0 <= j < i ==> #[trigger] parameter_forwarded(
                    params.items@[j],
                    call.arguments@[j],
                    ctx.scoping,
                ),
        decreases item_count - i,
    {
        let param = &params.items[i];
        let argument = &call.arguments[i];
        let ghost forwarded = parameter_forwarded(
            params.items@[i as int],
            call.arguments@[i as int],
            ctx.scoping,
        );
        if param.has_initializer || param.has_decorators {
            assert(!forwarded);
            return false;
        }
        let binding = match param.pattern.get_binding_identifier() {
            Some(binding) => binding,
            None => {
                assert(!forwarded);
                return false;
            },
        };
        let expression = match argument.as_expression() {
            Some(expression) => expression,
            None => {
                assert(!forwarded);
                return false;
            },
        };
        proof {
            lemma_inner_expression_idempotent(*expression);
        }
        let argument_identifier = match expression.get_inner_expression().get_identifier_reference() {
            Some(identifier) => identifier,
            None => {
                assert(!forwarded);
                return false;
            },
        };
        if !is_only_reference_to_binding(binding, argument_identifier, ctx) {
            assert(!forwarded);
            return false;
        }
        assert(forwarded);
        i = i + 1;
    }
    let rest = match &params.rest {
        Some(rest) => rest,
        None => {
            return true;
        },
    };
    if rest.has_decorators {
        return false;
    }
    let binding = match rest.argument.get_binding_identifier() {
        Some(binding) => binding,
        None => {
            return false;
        },
    };
    let spread = match &call.arguments[argument_count - 1] {
        Argument::SpreadElement(spread) => spread,
        _ => {
            return false;
        },
    };
    let argument_identifier = match spread.get_inner_expression().get_identifier_reference() {
        Some(identifier) => identifier,
        None => {
            proof {
                lemma_inner_expression_idempotent(*spread);
            }
            return false;
        },
    };
    proof {
        lemma_inner_expression_idempotent(*spread);
    }
    is_only_reference_to_binding(binding, argument_identifier, ctx)
}

/// Whether the call calls the function itself: by the function's own name, or by
/// the name that a declaration or plain assignment above the function (up to the
/// nearest enclosing function) gives it.
pub fn is_direct_recursive_call(
    callee: &IdentifierReference,
    node_id: u32,
    function_id: Option<&BindingIdentifier>,
    ctx: &LintContext,
) -> (r: bool)
    requires
        ctx.wf(),
        ctx.nodes.contains(node_id),
        ctx.scoping.has_reference(*callee),
    ensures
        r == is_recursive_call(
            *callee,
            node_id,
            match function_id {
                Some(b) => Some(*b),
                None => None,
            },
            ctx.nodes,
            ctx.scoping,
        ),
{
    let callee_symbol_id = ctx.scoping.get_reference(callee.reference_id).symbol_id;
    if let Some(id) = function_id {
        if let Some(symbol_id) = callee_symbol_id {
            if symbol_id == id.symbol_id {
                return true;
            }
        }
    }
    let callee_symbol_id = match callee_symbol_id {
        Some(symbol_id) => symbol_id,
        None => {
            return false;
        },
    };
    let declaration_id = ctx.scoping.symbol_declaration(callee_symbol_id);
    let mut current = node_id;
    while current != ROOT_NODE_ID
        invariant
            ctx.wf(),
            ctx.nodes.contains(current),
            ctx.nodes.contains(node_id),
            !(function_id matches Some(id) && callee_symbol_id == id.symbol_id),
            callee_symbol_id < ctx.scoping.symbols@.len(),
            ctx.scoping.symbol_of(*callee) == Some(callee_symbol_id),
            declaration_id == ctx.scoping.spec_symbol_declaration(callee_symbol_id),
            defined_by_ancestor(ctx.nodes, ctx.scoping, node_id, callee_symbol_id, declaration_id)
                == defined_by_ancestor(
                ctx.nodes,
                ctx.scoping,
                current,
                callee_symbol_id,
                declaration_id,
            ),
        decreases current,
    {
        let ancestor = ctx.nodes.parent_id(current);
        if ancestor == declaration_id {
            return true;
        }
        let kind = ctx.nodes.kind(ancestor);
        if let AstKind::AssignmentExpression { left: AssignmentTarget::AssignmentTargetIdentifier(id) } = kind {
            assert(ctx.nodes.kinds@[ancestor as int] == *kind);
            if let Some(symbol_id) = ctx.scoping.get_reference(id.reference_id).symbol_id {
                if symbol_id == callee_symbol_id {
                    return true;
                }
            }
        }
        if matches!(kind, AstKind::ArrowFunctionExpression(_) | AstKind::Function(_)) {
            assert(!assigns_to_symbol(*kind, ctx.scoping, callee_symbol_id));
            assert(!defined_by_ancestor(
                ctx.nodes,
                ctx.scoping,
                current,
                callee_symbol_id,
                declaration_id,
            ));
            return false;
        }
        current = ancestor;
    }
    false
}

/// A reported function is a synchronous, ordinary function (an arrow function,
/// or a function that is neither a generator nor takes `this`) whose only
/// returned expression is a plain call of a name, and every parameter is passed,
/// unchanged and in order, as the name that is that parameter's only use; a rest
/// parameter is passed last, spread. The report points at that call.
pub proof fn lemma_reported_function_only_forwards(node: AstNode, nodes: AstNodes, scoping: Scoping)
    requires
        reported_span(node, nodes, scoping) is Some,
    ensures
        node.kind matches AstKind::ArrowFunctionExpression(arrow) ==> !arrow.is_async,
        node.kind matches AstKind::Function(function) ==> !function.is_async && !function.generator
            && !function.has_this_param,
        node.kind is ArrowFunctionExpression || node.kind is Function,
        is_ordinary_position(outer_parent_kind(nodes, node.id)),
        forwarding_candidate(node.kind) matches Some((params, call, _)) && {
            &&& reported_span(node, nodes, scoping) == Some(call.span)
            &&& !call.optional
            &&& identifier_of(call.callee) is Some
            &&& call.arguments@.len() == params.items@.len() + (if params.rest is Some {
                1int
            } else {
                0int
            })
            &&& forall|i: int|
                0 <= i < params.items@.len() ==> {
                    &&& !(#[trigger] params.items@[i]).has_initializer
                    &&& call.arguments@[i] matches Argument::Expression(e)
                    &&& binding_of(params.items@[i].pattern) matches Some(b)
                    &&& identifier_of(e) matches Some(r)
                    &&& scoping.symbol_of(r) == Some(b.symbol_id)
                    &&& scoping.reference_count(b.symbol_id) <= 1
                }
            &&& params.rest matches Some(rest) ==> {
                &&& call.arguments@.last() matches Argument::SpreadElement(e)
                &&& binding_of(rest.argument) matches Some(b)
                &&& identifier_of(e) matches Some(r)
                &&& scoping.symbol_of(r) == Some(b.symbol_id)
                &&& scoping.reference_count(b.symbol_id) <= 1
            }
        },
{
    let (params, call, _) = forwarding_candidate(node.kind).unwrap();
    assert forall|i: int| 0 <= i < params.items@.len() implies {
        &&& !(#[trigger] params.items@[i]).has_initializer
        &&& call.arguments@[i] matches Argument::Expression(e)
        &&& binding_of(params.items@[i].pattern) matches Some(b)
        &&& identifier_of(e) matches Some(r)
        &&& scoping.symbol_of(r) == Some(b.symbol_id)
        &&& scoping.reference_count(b.symbol_id) <= 1
    } by {
        assert(parameter_forwarded(params.items@[i], call.arguments@[i], scoping));
    }
}

/// Order matters: exchanging the arguments at two parameter positions of a call
/// that forwards all parameters, where the two parameters bind different symbols,
/// gives a call that does not forward them.
pub proof fn lemma_swapped_arguments_do_not_forward(
    params: FormalParameters,
    call: CallExpression,
    swapped: CallExpression,
    scoping: Scoping,
    i: int,
    j: int,
)
    requires
        forwards_all(params, call, scoping),
        0 <= i < j < params.items@.len(),
        binding_of(params.items@[i].pattern) != binding_of(params.items@[j].pattern),
        swapped.arguments@ == call.arguments@.update(i, call.arguments@[j]).update(
            j,
            call.arguments@[i],
        ),
    ensures
        !forwards_all(params, swapped, scoping),
{
    assert(parameter_forwarded(params.items@[i], call.arguments@[i], scoping));
    assert(parameter_forwarded(params.items@[j], call.arguments@[j], scoping));
    assert(swapped.arguments@[i] == call.arguments@[j]);
    assert(!parameter_forwarded(params.items@[i], swapped.arguments@[i], scoping));
}

/// An arrow function node with the given body.
pub open spec fn arrow_node(
    id: u32,
    is_async: bool,
    params: FormalParameters,
    body: ArrowFunctionBody,
) -> AstNode {
    AstNode {
        id,
        kind: AstKind::ArrowFunctionExpression(ArrowFunctionExpression { is_async, params, body }),
    }
}

/// The rule reports an arrow function whose body is an expression `e` as it
/// reports the same function with `(e)` for body, or with a block that only
/// returns `e`.
pub proof fn lemma_arrow_body_forms_agree(
    id: u32,
    is_async: bool,
    params: FormalParameters,
    e: Expression,
    block: FunctionBody,
    nodes: AstNodes,
    scoping: Scoping,
)
    requires
        block.directive_count == 0,
        block.statements@ == seq![Statement::ReturnStatement(Some(e))],
    ensures
        reported_span(
            arrow_node(id, is_async, params, ArrowFunctionBody::Expression(e)),
            nodes,
            scoping,
        ) == reported_span(
            arrow_node(
                id,
                is_async,
                params,
                ArrowFunctionBody::Expression(Expression::ParenthesizedExpression(Box::new(e))),
            ),
            nodes,
            scoping,
        ),
        reported_span(
            arrow_node(id, is_async, params, ArrowFunctionBody::Expression(e)),
            nodes,
            scoping,
        ) == reported_span(
            arrow_node(id, is_async, params, ArrowFunctionBody::FunctionBody(block)),
            nodes,
            scoping,
        ),
{
    reveal(Seq::filter);
    let statements = block.statements@;
    assert(statements.drop_last() =~= Seq::<Statement>::empty());
    assert(non_empty_statements(statements) =~= statements);
    assert(body_returned_call(block) == plain_call(e));
    assert(plain_call(Expression::ParenthesizedExpression(Box::new(e))) == plain_call(e));
}

/// Two names that may be spelt differently but are the same use: the same
/// reference, and either both or neither `eval`.
pub open spec fn renamed_identifier(a: IdentifierReference, b: IdentifierReference) -> bool {
    a.reference_id == b.reference_id && (is_eval_name(a.name@) <==> is_eval_name(b.name@))
}

/// Two expressions that differ at most in the spelling of names, as
/// `renamed_identifier` allows, and in where their calls stand in the text.
pub open spec fn renamed_expression(a: Expression, b: Expression) -> bool
    decreases a,
{
    match a {
        Expression::Identifier(x) => b matches Expression::Identifier(y) && renamed_identifier(x, y),
        Expression::CallExpression(c) => b matches Expression::CallExpression(d) && renamed_call(*c, *d),
        Expression::ParenthesizedExpression(x) => b matches Expression::ParenthesizedExpression(y)
            && renamed_expression(*x, *y),
        Expression::TSAsExpression(x) => b matches Expression::TSAsExpression(y)
            && renamed_expression(*x, *y),
        Expression::TSSatisfiesExpression(x) => b matches Expression::TSSatisfiesExpression(y)
            && renamed_expression(*x, *y),
        Expression::TSInstantiationExpression(x) => b matches Expression::TSInstantiationExpression(y)
            && renamed_expression(*x, *y),
        Expression::TSNonNullExpression(x) => b matches Expression::TSNonNullExpression(y)
            && renamed_expression(*x, *y),
        Expression::TSTypeAssertion(x) => b matches Expression::TSTypeAssertion(y)
            && renamed_expression(*x, *y),
        Expression::Super => b is Super,
        Expression::Other => b is Other,
    }
}

/// Two arguments that differ at most in the spelling of names.
pub open spec fn renamed_argument(a: Argument, b: Argument) -> bool
    decreases a,
{
    match a {
        Argument::SpreadElement(x) => b matches Argument::SpreadElement(y) && renamed_expression(x, y),
        Argument::Expression(x) => b matches Argument::Expression(y) && renamed_expression(x, y),
    }
}

/// Two calls that differ at most in the spelling of names and in where they
/// stand in the text.
pub open spec fn renamed_call(a: CallExpression, b: CallExpression) -> bool
    decreases a,
{
    &&& a.optional == b.optional
    &&& renamed_expression(a.callee, b.callee)
    &&& a.arguments@.len() == b.arguments@.len()
    &&& forall|i: int|
        0 <= i < a.arguments@.len() ==> renamed_argument(
            #[trigger] a.arguments@[i],
            b.arguments@[i],
        )
}

/// Two statements that differ at most in the spelling of names.
pub open spec fn renamed_statement(a: Statement, b: Statement) -> bool {
    match a {
        Statement::EmptyStatement => b is EmptyStatement,
        Statement::ReturnStatement(None) => b matches Statement::ReturnStatement(None),
        Statement::ReturnStatement(Some(x)) => b matches Statement::ReturnStatement(Some(y))
            && renamed_expression(x, y),
        Statement::Other => b is Other,
    }
}

/// Two statement lists that differ at most in the spelling of names.
pub open spec fn renamed_statements(a: Seq<Statement>, b: Seq<Statement>) -> bool {
    &&& a.len() == b.len()
    &&& forall|i: int| 0 <= i < a.len() ==> renamed_statement(#[trigger] a[i], b[i])
}

/// Two function bodies that differ at most in the spelling of names.
pub open spec fn renamed_body(a: FunctionBody, b: FunctionBody) -> bool {
    a.directive_count == b.directive_count && renamed_statements(a.statements@, b.statements@)
}

/// Two node kinds that differ at most in the spelling of names.
pub open spec fn renamed_kind(a: AstKind, b: AstKind) -> bool {
    match a {
        AstKind::ArrowFunctionExpression(x) => b matches AstKind::ArrowFunctionExpression(y) && {
            &&& x.is_async == y.is_async
            &&& x.params == y.params
            &&& match x.body {
                ArrowFunctionBody::Expression(e) => y.body matches ArrowFunctionBody::Expression(f)
                    && renamed_expression(e, f),
                ArrowFunctionBody::FunctionBody(e) => y.body matches ArrowFunctionBody::FunctionBody(f)
                    && renamed_body(e, f),
            }
        },
        AstKind::Function(x) => b matches AstKind::Function(y) && {
            &&& x.id == y.id
            &&& x.generator == y.generator
            &&& x.is_async == y.is_async
            &&& x.has_this_param == y.has_this_param
            &&& x.params == y.params
            &&& match x.body {
                None => y.body is None,
                Some(e) => y.body matches Some(f) && renamed_body(e, f),
            }
        },
        AstKind::AssignmentExpression { left: AssignmentTarget::AssignmentTargetIdentifier(x) } => b matches AstKind::AssignmentExpression {
            left: AssignmentTarget::AssignmentTargetIdentifier(y),
        } && renamed_identifier(x, y),
        _ => a == b,
    }
}

/// Two node tables that differ at most in the spelling of names and in where
/// the calls stand in the text.
pub open spec fn renamed_nodes(a: AstNodes, b: AstNodes) -> bool {
    &&& a.parent_ids@ == b.parent_ids@
    &&& a.kinds@.len() == b.kinds@.len()
    &&& forall|i: int| 0 <= i < a.kinds@.len() ==> renamed_kind(#[trigger] a.kinds@[i], b.kinds@[i])
}

proof fn lemma_renamed_inner(a: Expression, b: Expression)
    requires
        renamed_expression(a, b),
    ensures
        renamed_expression(inner_expression(a), inner_expression(b)),
    decreases a,
{
    match a {
        Expression::ParenthesizedExpression(x) => {
            if let Expression::ParenthesizedExpression(y) = b {
                lemma_renamed_inner(*x, *y);
            }
        },
        Expression::TSAsExpression(x) => {
            if let Expression::TSAsExpression(y) = b {
                lemma_renamed_inner(*x, *y);
            }
        },
        Expression::TSSatisfiesExpression(x) => {
            if let Expression::TSSatisfiesExpression(y) = b {
                lemma_renamed_inner(*x, *y);
            }
        },
        Expression::TSInstantiationExpression(x) => {
            if let Expression::TSInstantiationExpression(y) = b {
                lemma_renamed_inner(*x, *y);
            }
        },
        Expression::TSNonNullExpression(x) => {
            if let Expression::TSNonNullExpression(y) = b {
                lemma_renamed_inner(*x, *y);
            }
        },
        Expression::TSTypeAssertion(x) => {
            if let Expression::TSTypeAssertion(y) = b {
                lemma_renamed_inner(*x, *y);
            }
        },
        _ => {},
    }
}

/// Renamed expressions name renamed identifiers and make renamed plain calls.
proof fn lemma_renamed_identifier_and_call(a: Expression, b: Expression)
    requires
        renamed_expression(a, b),
    ensures
        identifier_of(a) is None <==> identifier_of(b) is None,
        identifier_of(a) matches Some(x) ==> identifier_of(b) matches Some(y) && renamed_identifier(x, y),
        plain_call(a) is None <==> plain_call(b) is None,
        plain_call(a) matches Some(c) ==> plain_call(b) matches Some(d) && renamed_call(c, d),
{
    lemma_renamed_inner(a, b);
    let ia = inner_expression(a);
    let ib = inner_expression(b);
    if let Expression::CallExpression(c) = ia {
        if let Expression::CallExpression(d) = ib {
            assert(renamed_call(*c, *d));
            assert(renamed_expression(c.callee, d.callee));
            assert((c.callee is Super) == (d.callee is Super));
        }
    }
    if let Expression::CallExpression(d) = ib {
        assert(ia is CallExpression);
    }
}

/// The non-empty statements of renamed statement lists are renamed.
proof fn lemma_renamed_non_empty(a: Seq<Statement>, b: Seq<Statement>)
    requires
        renamed_statements(a, b),
    ensures
        renamed_statements(non_empty_statements(a), non_empty_statements(b)),
    decreases a.len(),
{
    reveal(Seq::filter);
    if a.len() > 0 {
        assert(renamed_statements(a.drop_last(), b.drop_last())) by {
            assert forall|i: int| 0 <= i < a.drop_last().len() implies renamed_statement(
                #[trigger] a.drop_last()[i],
                b.drop_last()[i],
            ) by {
                assert(renamed_statement(a[i], b[i]));
            }
        }
        lemma_renamed_non_empty(a.drop_last(), b.drop_last());
        assert(renamed_statement(a[a.len() - 1], b[b.len() - 1]));
        let fa = non_empty_statements(a.drop_last());
        let fb = non_empty_statements(b.drop_last());
        if !(a.last() is EmptyStatement) {
            assert forall|i: int| 0 <= i < fa.push(a.last()).len() implies renamed_statement(
                #[trigger] fa.push(a.last())[i],
                fb.push(b.last())[i],
            ) by {
                if i < fa.len() {
                    assert(renamed_statement(fa[i], fb[i]));
                }
            }
        }
    }
}

/// Renamed bodies return renamed plain calls.
proof fn lemma_renamed_body(a: FunctionBody, b: FunctionBody)
    requires
        renamed_body(a, b),
    ensures
        body_returned_call(a) is None <==> body_returned_call(b) is None,
        body_returned_call(a) matches Some(c) ==> body_returned_call(b) matches Some(d)
            && renamed_call(c, d),
{
    lemma_renamed_non_empty(a.statements@, b.statements@);
    let sa = non_empty_statements(a.statements@);
    let sb = non_empty_statements(b.statements@);
    if sa.len() == 1 {
        assert(renamed_statement(sa[0], sb[0]));
        if let Statement::ReturnStatement(Some(e)) = sa[0] {
            if let Statement::ReturnStatement(Some(f)) = sb[0] {
                lemma_renamed_identifier_and_call(e, f);
            }
        }
    }
}

/// Renamed function nodes are candidates alike, with the same parameters and
/// own name and renamed calls.
proof fn lemma_renamed_candidate(a: AstKind, b: AstKind)
    requires
        renamed_kind(a, b),
    ensures
        forwarding_candidate(a) is None <==> forwarding_candidate(b) is None,
        forwarding_candidate(a) matches Some((p, c, f)) ==> forwarding_candidate(b) matches Some(
            (q, d, g),
        ) && p == q && f == g && renamed_call(c, d),
{
    match a {
        AstKind::ArrowFunctionExpression(x) => {
            if let AstKind::ArrowFunctionExpression(y) = b {
                match x.body {
                    ArrowFunctionBody::Expression(e) => {
                        if let ArrowFunctionBody::Expression(f) = y.body {
                            lemma_renamed_identifier_and_call(e, f);
                        }
                    },
                    ArrowFunctionBody::FunctionBody(e) => {
                        if let ArrowFunctionBody::FunctionBody(f) = y.body {
                            lemma_renamed_body(e, f);
                        }
                    },
                }
            }
        },
        AstKind::Function(x) => {
            if let AstKind::Function(y) = b {
                if let Some(e) = x.body {
                    if let Some(f) = y.body {
                        lemma_renamed_body(e, f);
                    }
                }
            }
        },
        _ => {},
    }
}

/// Renamed calls forward all parameters alike, and call renamed direct callees.
proof fn lemma_renamed_forwarding(
    params: FormalParameters,
    c: CallExpression,
    d: CallExpression,
    scoping: Scoping,
)
    requires
        renamed_call(c, d),
    ensures
        forwards_all(params, c, scoping) == forwards_all(params, d, scoping),
        direct_callee_of(c, scoping) is None <==> direct_callee_of(d, scoping) is None,
        direct_callee_of(c, scoping) matches Some(x) ==> direct_callee_of(d, scoping) matches Some(
            y,
        ) && renamed_identifier(x, y),
{
    lemma_renamed_identifier_and_call(c.callee, d.callee);
    assert forall|i: int| 0 <= i < c.arguments@.len() implies parameter_forwarded(
        params.items@[i],
        #[trigger] c.arguments@[i],
        scoping,
    ) == parameter_forwarded(params.items@[i], d.arguments@[i], scoping) by {
        assert(renamed_argument(c.arguments@[i], d.arguments@[i]));
        match c.arguments@[i] {
            Argument::SpreadElement(x) => {},
            Argument::Expression(x) => {
                if let Argument::Expression(y) = d.arguments@[i] {
                    lemma_renamed_identifier_and_call(x, y);
                }
            },
        }
    }
    if c.arguments@.len() > 0 {
        let last = c.arguments@.len() - 1;
        assert(renamed_argument(c.arguments@[last], d.arguments@[last]));
        if let Argument::SpreadElement(x) = c.arguments@[last] {
            if let Argument::SpreadElement(y) = d.arguments@[last] {
                lemma_renamed_identifier_and_call(x, y);
            }
        }
    }
    let items = params.items@;
    if forwards_all(params, c, scoping) {
        assert forall|i: int| 0 <= i < items.len() implies #[trigger] parameter_forwarded(
            items[i],
            d.arguments@[i],
            scoping,
        ) by {
            assert(parameter_forwarded(items[i], c.arguments@[i], scoping));
        }
    }
    if forwards_all(params, d, scoping) {
        assert forall|i: int| 0 <= i < items.len() implies #[trigger] parameter_forwarded(
            items[i],
            c.arguments@[i],
            scoping,
        ) by {
            assert(parameter_forwarded(items[i], d.arguments@[i], scoping));
        }
    }
}

/// Over renamed node tables the nearest non-wrapper ancestors are in the same
/// position, and the enclosing declarations and assignments are the same.
proof fn lemma_renamed_ancestors(
    a: AstNodes,
    b: AstNodes,
    scoping: Scoping,
    id: u32,
    symbol_id: u32,
    declaration: u32,
)
    requires
        a.wf(),
        a.contains(id),
        renamed_nodes(a, b),
    ensures
        b.wf(),
        is_ordinary_position(outer_parent_kind(a, id)) == is_ordinary_position(
            outer_parent_kind(b, id),
        ),
        defined_by_ancestor(a, scoping, id, symbol_id, declaration) == defined_by_ancestor(
            b,
            scoping,
            id,
            symbol_id,
            declaration,
        ),
    decreases id,
{
    assert(b.wf());
    if id != ROOT_NODE_ID {
        let parent = a.spec_parent_id(id);
        assert(renamed_kind(a.kinds@[parent as int], b.kinds@[parent as int]));
        lemma_renamed_ancestors(a, b, scoping, parent, symbol_id, declaration);
    }
}

/// The rule's verdict does not depend on how names are spelt, but for `eval`:
/// over node tables, and for a node, that differ at most in the spelling of
/// names (each the same use, and `eval` only where it was `eval`), the rule
/// reports one node exactly when it reports the other.
pub proof fn lemma_verdict_ignores_names(
    a: AstNode,
    b: AstNode,
    nodes_a: AstNodes,
    nodes_b: AstNodes,
    scoping: Scoping,
)
    requires
        nodes_a.wf(),
        nodes_a.contains(a.id),
        a.id == b.id,
        renamed_kind(a.kind, b.kind),
        renamed_nodes(nodes_a, nodes_b),
    ensures
        (reported_span(a, nodes_a, scoping) is Some) == (reported_span(b, nodes_b, scoping) is Some),
{
    lemma_renamed_candidate(a.kind, b.kind);
    if let Some((params, c, f)) = forwarding_candidate(a.kind) {
        let (q, d, g) = forwarding_candidate(b.kind).unwrap();
        lemma_renamed_forwarding(params, c, d, scoping);
        if let Some(x) = direct_callee_of(c, scoping) {
            let y = direct_callee_of(d, scoping).unwrap();
            let symbol = scoping.symbol_of(x);
            assert(scoping.symbol_of(y) == symbol);
            if let Some(s) = symbol {
                lemma_renamed_ancestors(
                    nodes_a,
                    nodes_b,
                    scoping,
                    a.id,
                    s,
                    scoping.spec_symbol_declaration(s),
                );
            } else {
                lemma_renamed_ancestors(nodes_a, nodes_b, scoping, a.id, 0, 0);
            }
        }
    }
}

/// Two scopings that resolve every reference alike and agree on whether `eval`
/// names a global variable; the other global names may be spelt differently.
pub open spec fn same_resolution(a: Scoping, b: Scoping) -> bool {
    &&& a.references@ == b.references@
    &&& a.symbols@ == b.symbols@
    &&& a.is_global_name(seq!['e', 'v', 'a', 'l']) == b.is_global_name(seq!['e', 'v', 'a', 'l'])
}

/// Over scopings that resolve alike, the enclosing declarations and assignments
/// of a node are the same.
proof fn lemma_same_resolution_ancestors(
    nodes: AstNodes,
    a: Scoping,
    b: Scoping,
    id: u32,
    symbol_id: u32,
    declaration: u32,
)
    requires
        nodes.wf(),
        nodes.contains(id),
        same_resolution(a, b),
    ensures
        defined_by_ancestor(nodes, a, id, symbol_id, declaration) == defined_by_ancestor(
            nodes,
            b,
            id,
            symbol_id,
            declaration,
        ),
    decreases id,
{
    if id != ROOT_NODE_ID {
        lemma_same_resolution_ancestors(nodes, a, b, nodes.spec_parent_id(id), symbol_id, declaration);
    }
}

/// Over scopings that resolve alike, the rule reports the same span for a node.
proof fn lemma_same_resolution_verdict(node: AstNode, nodes: AstNodes, a: Scoping, b: Scoping)
    requires
        nodes.wf(),
        nodes.contains(node.id),
        same_resolution(a, b),
    ensures
        reported_span(node, nodes, a) == reported_span(node, nodes, b),
{
    if let Some((params, call, f)) = forwarding_candidate(node.kind) {
        assert(direct_callee_of(call, a) == direct_callee_of(call, b));
        assert forall|x: BindingIdentifier, r: IdentifierReference| is_only_reference(x, r, a)
            == #[trigger] is_only_reference(x, r, b) by {}
        assert forall|p: FormalParameter, g: Argument| parameter_forwarded(p, g, a)
            == #[trigger] parameter_forwarded(p, g, b) by {}
        let items = params.items@;
        let arguments = call.arguments@;
        if forwards_all(params, call, a) {
            assert forall|i: int| 0 <= i < items.len() implies #[trigger] parameter_forwarded(
                items[i],
                arguments[i],
                b,
            ) by {
                assert(parameter_forwarded(items[i], arguments[i], a));
            }
        }
        if forwards_all(params, call, b) {
            assert forall|i: int| 0 <= i < items.len() implies #[trigger] parameter_forwarded(
                items[i],
                arguments[i],
                a,
            ) by {
                assert(parameter_forwarded(items[i], arguments[i], b));
            }
        }
        assert(forwards_all(params, call, a) == forwards_all(params, call, b));
        if let Some(callee) = direct_callee_of(call, a) {
            if let Some(s) = a.symbol_of(callee) {
                lemma_same_resolution_ancestors(nodes, a, b, node.id, s, a.spec_symbol_declaration(s));
            }
        }
    }
}

/// Renaming a program does not change what the rule reports, but for `eval`:
/// over node tables that differ at most in the spelling of names (each the same
/// use, and `eval` only where it was `eval`), and scopings that resolve every
/// reference alike and agree on whether `eval` is global, running the rule on
/// every node gives as many reports.
pub proof fn lemma_program_reports_ignore_names(
    nodes_a: AstNodes,
    nodes_b: AstNodes,
    scoping_a: Scoping,
    scoping_b: Scoping,
)
    requires
        nodes_a.wf(),
        renamed_nodes(nodes_a, nodes_b),
        same_resolution(scoping_a, scoping_b),
    ensures
        program_reports(nodes_a, scoping_a).len() == program_reports(nodes_b, scoping_b).len(),
{
    lemma_renamed_reports_upto(nodes_a, nodes_b, scoping_a, scoping_b, nodes_a.kinds@.len());
}

proof fn lemma_renamed_reports_upto(
    nodes_a: AstNodes,
    nodes_b: AstNodes,
    scoping_a: Scoping,
    scoping_b: Scoping,
    n: nat,
)
    requires
        nodes_a.wf(),
        renamed_nodes(nodes_a, nodes_b),
        same_resolution(scoping_a, scoping_b),
        n <= nodes_a.kinds@.len(),
    ensures
        reports_upto(nodes_a, scoping_a, n).len() == reports_upto(nodes_b, scoping_b, n).len(),
    decreases n,
{
    if n > 0 {
        let i = n - 1;
        lemma_renamed_reports_upto(nodes_a, nodes_b, scoping_a, scoping_b, (n - 1) as nat);
        assert(renamed_kind(nodes_a.kinds@[i], nodes_b.kinds@[i]));
        lemma_verdict_ignores_names(node_at(nodes_a, i), node_at(nodes_b, i), nodes_a, nodes_b, scoping_a);
        assert(nodes_b.wf());
        lemma_same_resolution_verdict(node_at(nodes_b, i), nodes_b, scoping_a, scoping_b);
    }
}

/// Every expression is a renaming of itself.
proof fn lemma_renamed_expression_reflexive(e: Expression)
    ensures
        renamed_expression(e, e),
    decreases e,
{
    match e {
        Expression::CallExpression(c) => {
            assert forall|i: int| 0 <= i < c.arguments@.len() implies renamed_argument(
                #[trigger] c.arguments@[i],
                c.arguments@[i],
            ) by {
                assert(decreases_to!(e => c.arguments@[i]));
                match c.arguments@[i] {
                    Argument::SpreadElement(x) => lemma_renamed_expression_reflexive(x),
                    Argument::Expression(x) => lemma_renamed_expression_reflexive(x),
                }
            }
            lemma_renamed_expression_reflexive(c.callee);
            assert(renamed_call(*c, *c));
        },
        Expression::ParenthesizedExpression(x) => lemma_renamed_expression_reflexive(*x),
        Expression::TSAsExpression(x) => lemma_renamed_expression_reflexive(*x),
        Expression::TSSatisfiesExpression(x) => lemma_renamed_expression_reflexive(*x),
        Expression::TSInstantiationExpression(x) => lemma_renamed_expression_reflexive(*x),
        Expression::TSNonNullExpression(x) => lemma_renamed_expression_reflexive(*x),
        Expression::TSTypeAssertion(x) => lemma_renamed_expression_reflexive(*x),
        _ => {},
    }
}

/// Every function body is a renaming of itself.
proof fn lemma_renamed_body_reflexive(body: FunctionBody)
    ensures
        renamed_body(body, body),
{
    assert forall|i: int| 0 <= i < body.statements@.len() implies renamed_statement(
        #[trigger] body.statements@[i],
        body.statements@[i],
    ) by {
        if let Statement::ReturnStatement(Some(x)) = body.statements@[i] {
            lemma_renamed_expression_reflexive(x);
        }
    }
}

/// Every node kind is a renaming of itself.
proof fn lemma_renamed_kind_reflexive(kind: AstKind)
    ensures
        renamed_kind(kind, kind),
{
    match kind {
        AstKind::ArrowFunctionExpression(x) => match x.body {
            ArrowFunctionBody::Expression(e) => lemma_renamed_expression_reflexive(e),
            ArrowFunctionBody::FunctionBody(b) => lemma_renamed_body_reflexive(b),
        },
        AstKind::Function(x) => {
            if let Some(b) = x.body {
                lemma_renamed_body_reflexive(b);
            }
        },
        _ => {},
    }
}

/// Every node table is a renaming of itself.
proof fn lemma_renamed_nodes_reflexive(nodes: AstNodes)
    ensures
        renamed_nodes(nodes, nodes),
{
    assert forall|i: int| 0 <= i < nodes.kinds@.len() implies renamed_kind(
        #[trigger] nodes.kinds@[i],
        nodes.kinds@[i],
    ) by {
        lemma_renamed_kind_reflexive(nodes.kinds@[i]);
    }
}

/// The reference that a node of this kind assigns to with a plain `name = ...`.
pub open spec fn assigned_reference(kind: AstKind) -> Option<u32> {
    match kind {
        AstKind::AssignmentExpression { left: AssignmentTarget::AssignmentTargetIdentifier(r) } => Some(
            r.reference_id,
        ),
        _ => None,
    }
}

/// Two node kinds that play the same part for the functions below them: both or
/// neither an expression wrapper or a function, both or neither an ordinary
/// position, and assigning to the same reference if any.
pub open spec fn alike_kind(a: AstKind, b: AstKind) -> bool {
    &&& is_expression_wrapper(a) == is_expression_wrapper(b)
    &&& is_function_kind(a) == is_function_kind(b)
    &&& is_ordinary_position(Some(a)) == is_ordinary_position(Some(b))
    &&& assigned_reference(a) == assigned_reference(b)
}

/// Renamed kinds play the same part.
proof fn lemma_renamed_kind_alike(a: AstKind, b: AstKind)
    requires
        renamed_kind(a, b),
    ensures
        alike_kind(a, b),
{
}

/// The id that a node takes when a node is inserted at id `k`.
pub open spec fn shifted_id(i: int, k: int) -> int {
    if i < k {
        i
    } else {
        i + 1
    }
}

/// `b` is the node table `a` with an expression wrapper inserted at id `k`, as
/// the new parent of the node that had that id: every node from `k` on moves up
/// by one id, and keeps its parent.
pub open spec fn wrapper_inserted(a: AstNodes, b: AstNodes, k: int) -> bool {
    &&& 0 < k < a.kinds@.len()
    &&& b.kinds@.len() == a.kinds@.len() + 1
    &&& is_expression_wrapper(b.kinds@[k])
    &&& b.parent_ids@[k] as int == shifted_id(a.parent_ids@[k] as int, k)
    &&& b.parent_ids@[k + 1] as int == k
    &&& forall|i: int|
        0 <= i < a.kinds@.len() && i != k ==> #[trigger] b.parent_ids@[shifted_id(i, k)] as int
            == shifted_id(a.parent_ids@[i] as int, k)
}

/// `b` resolves every reference as `a` does and agrees on whether `eval` is
/// global; each symbol's declaration moves as node ids move when a node is
/// inserted at `k`.
pub open spec fn declarations_shifted(a: Scoping, b: Scoping, k: int) -> bool {
    &&& b.references@ == a.references@
    &&& b.symbols@.len() == a.symbols@.len()
    &&& forall|s: int|
        0 <= s < a.symbols@.len() ==> {
            &&& (#[trigger] b.symbols@[s]).resolved_references@ == a.symbols@[s].resolved_references@
            &&& b.symbols@[s].declaration as int == shifted_id(a.symbols@[s].declaration as int, k)
        }
    &&& a.is_global_name(seq!['e', 'v', 'a', 'l']) == b.is_global_name(seq!['e', 'v', 'a', 'l'])
}

/// Inserting an expression wrapper leaves each node's nearest non-wrapper
/// ancestor, and the declarations and assignments above it, in the same part.
proof fn lemma_inserted_ancestors(
    a: AstNodes,
    b: AstNodes,
    scoping_a: Scoping,
    scoping_b: Scoping,
    k: int,
    i: int,
    symbol_id: u32,
    declaration_a: u32,
    declaration_b: u32,
)
    requires
        a.wf(),
        b.wf(),
        wrapper_inserted(a, b, k),
        forall|j: int|
            0 <= j < a.kinds@.len() ==> alike_kind(a.kinds@[j], #[trigger] b.kinds@[shifted_id(j, k)]),
        scoping_b.references@ == scoping_a.references@,
        declaration_b as int == shifted_id(declaration_a as int, k),
        0 <= i < a.kinds@.len(),
    ensures
        is_ordinary_position(outer_parent_kind(b, shifted_id(i, k) as u32)) == is_ordinary_position(
            outer_parent_kind(a, i as u32),
        ),
        defined_by_ancestor(b, scoping_b, shifted_id(i, k) as u32, symbol_id, declaration_b)
            == defined_by_ancestor(a, scoping_a, i as u32, symbol_id, declaration_a),
    decreases i,
{
    if i != 0 {
        let p = a.parent_ids@[i] as int;
        lemma_inserted_ancestors(a, b, scoping_a, scoping_b, k, p, symbol_id, declaration_a, declaration_b);
        assert(alike_kind(a.kinds@[p], b.kinds@[shifted_id(p, k)]));
        if i == k {
            assert(b.parent_ids@[k + 1] as int == k);
            assert(b.parent_ids@[k] as int == shifted_id(p, k));
            assert(outer_parent_kind(b, (k + 1) as u32) == outer_parent_kind(b, k as u32));
            assert(defined_by_ancestor(b, scoping_b, (k + 1) as u32, symbol_id, declaration_b)
                == defined_by_ancestor(b, scoping_b, k as u32, symbol_id, declaration_b));
        } else {
            assert(b.parent_ids@[shifted_id(i, k)] as int == shifted_id(p, k));
        }
    }
}

/// Inserting an expression wrapper does not change the rule's verdict on a node
/// of the same kind.
proof fn lemma_inserted_verdict(
    kind: AstKind,
    a: AstNodes,
    b: AstNodes,
    scoping_a: Scoping,
    scoping_b: Scoping,
    k: int,
    i: int,
)
    requires
        a.wf(),
        b.wf(),
        scoping_a.wf(),
        wrapper_inserted(a, b, k),
        forall|j: int|
            0 <= j < a.kinds@.len() ==> alike_kind(a.kinds@[j], #[trigger] b.kinds@[shifted_id(j, k)]),
        declarations_shifted(scoping_a, scoping_b, k),
        0 <= i < a.kinds@.len(),
        forwarding_candidate(kind) matches Some(c) ==> call_references_resolvable(c.1, scoping_a),
    ensures
        reported_span(AstNode { id: shifted_id(i, k) as u32, kind }, b, scoping_b) == reported_span(
            AstNode { id: i as u32, kind },
            a,
            scoping_a,
        ),
{
    if let Some((params, call, f)) = forwarding_candidate(kind) {
        assert(direct_callee_of(call, scoping_a) == direct_callee_of(call, scoping_b));
        lemma_resolved_forwarding_alike(params, call, scoping_a, scoping_b);
        lemma_inserted_ancestors(a, b, scoping_a, scoping_b, k, i, 0, 0, 0);
        if let Some(callee) = direct_callee_of(call, scoping_a) {
            if let Some(s) = scoping_a.symbol_of(callee) {
                assert(scoping_a.references@[callee.reference_id as int].symbol_id == Some(s));
                assert(s < scoping_a.symbols@.len());
                assert(b.wf());
                lemma_inserted_ancestors(
                    a,
                    b,
                    scoping_a,
                    scoping_b,
                    k,
                    i,
                    s,
                    scoping_a.spec_symbol_declaration(s),
                    scoping_b.spec_symbol_declaration(s),
                );
            }
        }
    }
}

/// Over scopings that resolve the call's names alike and count the references
/// of their symbols alike, a call forwards parameters in both or in neither.
proof fn lemma_resolved_forwarding_alike(
    params: FormalParameters,
    call: CallExpression,
    a: Scoping,
    b: Scoping,
)
    requires
        a.wf(),
        call_references_resolvable(call, a),
        b.references@ == a.references@,
        b.symbols@.len() == a.symbols@.len(),
        forall|s: int|
            0 <= s < a.symbols@.len() ==> (#[trigger] b.symbols@[s]).resolved_references@.len()
                == a.symbols@[s].resolved_references@.len(),
    ensures
        forwards_all(params, call, a) == forwards_all(params, call, b),
{
    assert forall|x: BindingIdentifier, r: IdentifierReference| a.has_reference(r) implies is_only_reference(
        x,
        r,
        a,
    ) == #[trigger] is_only_reference(x, r, b) by {
        if a.symbol_of(r) == Some(x.symbol_id) {
            assert(a.references@[r.reference_id as int].symbol_id == Some(x.symbol_id));
            assert(b.symbols@[x.symbol_id as int].resolved_references@.len()
                == a.symbols@[x.symbol_id as int].resolved_references@.len());
        }
    }
    let items = params.items@;
    let arguments = call.arguments@;
    assert forall|i: int| 0 <= i < arguments.len() implies parameter_forwarded(
        #[trigger] items[i],
        arguments[i],
        a,
    ) == parameter_forwarded(items[i], arguments[i], b) by {
        match arguments[i] {
            Argument::SpreadElement(e) => {},
            Argument::Expression(e) => {},
        }
    }
    if forwards_all(params, call, a) {
        assert forall|i: int| 0 <= i < items.len() implies #[trigger] parameter_forwarded(
            items[i],
            arguments[i],
            b,
        ) by {
            assert(parameter_forwarded(items[i], arguments[i], a));
        }
    }
    if forwards_all(params, call, b) {
        assert forall|i: int| 0 <= i < items.len() implies #[trigger] parameter_forwarded(
            items[i],
            arguments[i],
            a,
        ) by {
            assert(parameter_forwarded(items[i], arguments[i], b));
        }
    }
    if arguments.len() > 0 {
        let last = arguments.len() - 1;
        assert(match arguments[last] {
            Argument::SpreadElement(e) => identifier_of(e) matches Some(r) ==> a.has_reference(r),
            Argument::Expression(e) => identifier_of(e) matches Some(r) ==> a.has_reference(r),
        });
    }
}

/// Over node tables with the same parents and kinds that play the same parts,
/// each node's nearest non-wrapper ancestor, and the declarations and
/// assignments above it, play the same part.
proof fn lemma_alike_ancestors(
    a: AstNodes,
    c: AstNodes,
    scoping: Scoping,
    i: int,
    symbol_id: u32,
    declaration: u32,
)
    requires
        a.wf(),
        c.parent_ids@ == a.parent_ids@,
        c.kinds@.len() == a.kinds@.len(),
        forall|j: int| 0 <= j < a.kinds@.len() ==> alike_kind(a.kinds@[j], #[trigger] c.kinds@[j]),
        0 <= i < a.kinds@.len(),
    ensures
        is_ordinary_position(outer_parent_kind(c, i as u32)) == is_ordinary_position(
            outer_parent_kind(a, i as u32),
        ),
        defined_by_ancestor(c, scoping, i as u32, symbol_id, declaration) == defined_by_ancestor(
            a,
            scoping,
            i as u32,
            symbol_id,
            declaration,
        ),
    decreases i,
{
    assert(c.wf());
    if i != 0 {
        let p = a.parent_ids@[i] as int;
        lemma_alike_ancestors(a, c, scoping, p, symbol_id, declaration);
        assert(alike_kind(a.kinds@[p], c.kinds@[p]));
    }
}

/// Over node tables with the same parents and kinds that play the same parts,
/// the rule's verdict on a node of a given kind is the same.
proof fn lemma_alike_verdict(kind: AstKind, a: AstNodes, c: AstNodes, scoping: Scoping, i: int)
    requires
        a.wf(),
        c.parent_ids@ == a.parent_ids@,
        c.kinds@.len() == a.kinds@.len(),
        forall|j: int| 0 <= j < a.kinds@.len() ==> alike_kind(a.kinds@[j], #[trigger] c.kinds@[j]),
        0 <= i < a.kinds@.len(),
    ensures
        reported_span(AstNode { id: i as u32, kind }, c, scoping) == reported_span(
            AstNode { id: i as u32, kind },
            a,
            scoping,
        ),
{
    if let Some((params, call, f)) = forwarding_candidate(kind) {
        lemma_alike_ancestors(a, c, scoping, i, 0, 0);
        if let Some(callee) = direct_callee_of(call, scoping) {
            if let Some(s) = scoping.symbol_of(callee) {
                lemma_alike_ancestors(a, c, scoping, i, s, scoping.spec_symbol_declaration(s));
            }
        }
    }
}

/// Counting reports node by node: where the nodes of `b` from `k` on answer,
/// one id up, as the nodes of `a` do, and the node at `k` is not reported, the
/// first `n` nodes of `a` give as many reports as the matching nodes of `b`.
proof fn lemma_inserted_report_count(
    a: AstNodes,
    b: AstNodes,
    scoping_a: Scoping,
    scoping_b: Scoping,
    k: int,
    n: nat,
)
    requires
        0 < k < a.kinds@.len(),
        b.kinds@.len() == a.kinds@.len() + 1,
        n <= a.kinds@.len(),
        reported_span(node_at(b, k), b, scoping_b) is None,
        forall|j: int|
            0 <= j < a.kinds@.len() ==> (#[trigger] reported_span(
                node_at(b, shifted_id(j, k)),
                b,
                scoping_b,
            ) is Some) == (reported_span(node_at(a, j), a, scoping_a) is Some),
    ensures
        reports_upto(b, scoping_b, (if n <= k { n } else { n + 1 }) as nat).len() == reports_upto(
            a,
            scoping_a,
            n,
        ).len(),
    decreases n,
{
    if n > 0 {
        lemma_inserted_report_count(a, b, scoping_a, scoping_b, k, (n - 1) as nat);
        let j = n - 1;
        assert((reported_span(node_at(b, shifted_id(j, k)), b, scoping_b) is Some) == (reported_span(
            node_at(a, j),
            a,
            scoping_a,
        ) is Some));
        if n == k + 1 {
            assert(reports_upto(b, scoping_b, (k + 1) as nat) == reports_upto(b, scoping_b, k as nat));
        }
    }
}

/// Counting reports node by node over tables whose nodes answer alike.
proof fn lemma_alike_report_count(a: AstNodes, c: AstNodes, scoping: Scoping, n: nat)
    requires
        c.kinds@.len() == a.kinds@.len(),
        n <= a.kinds@.len(),
        forall|j: int|
            0 <= j < a.kinds@.len() ==> (#[trigger] reported_span(node_at(c, j), c, scoping) is Some)
                == (reported_span(node_at(a, j), a, scoping) is Some),
    ensures
        reports_upto(c, scoping, n).len() == reports_upto(a, scoping, n).len(),
    decreases n,
{
    if n > 0 {
        lemma_alike_report_count(a, c, scoping, (n - 1) as nat);
        assert((reported_span(node_at(c, n - 1), c, scoping) is Some) == (reported_span(
            node_at(a, n - 1),
            a,
            scoping,
        ) is Some));
    }
}

/// Parenthesizing the call that an arrow function returns, or moving it into a
/// block that only returns it, does not change how many functions the rule
/// reports in a program.
///
/// `expression_form` holds the arrow function `(P) => e` at `arrow_id`.
/// `parenthesized_form` is the program with `(e)` in place of `e`: a
/// parenthesized-expression node is inserted at `k` as the new parent of the
/// node that had that id, the nodes from `k` on move up by one id, and each node
/// is as before but for where it stands in the text; the symbols' declarations
/// move with the nodes. `block_form` is the program with `{ return e; }`: the
/// same nodes, each as before but for where it stands in the text. Running the
/// rule on every node gives as many reports for each of the three.
pub proof fn lemma_program_arrow_body_forms_agree(
    expression_form: AstNodes,
    parenthesized_form: AstNodes,
    block_form: AstNodes,
    scoping: Scoping,
    parenthesized_scoping: Scoping,
    arrow_id: int,
    k: int,
    is_async: bool,
    params: FormalParameters,
    e: Expression,
    parenthesized: Expression,
    returned: Expression,
    block: FunctionBody,
)
    requires
        expression_form.wf(),
        parenthesized_form.wf(),
        scoping.wf(),
        forall|j: int|
            0 <= j < expression_form.kinds@.len() ==> (forwarding_candidate(
                #[trigger] expression_form.kinds@[j],
            ) matches Some(c) ==> call_references_resolvable(c.1, scoping)),
        0 <= arrow_id < expression_form.kinds@.len(),
        expression_form.kinds@[arrow_id] == AstKind::ArrowFunctionExpression(
            ArrowFunctionExpression { is_async, params, body: ArrowFunctionBody::Expression(e) },
        ),
        wrapper_inserted(expression_form, parenthesized_form, k),
        parenthesized_form.kinds@[shifted_id(arrow_id, k)] == AstKind::ArrowFunctionExpression(
            ArrowFunctionExpression {
                is_async,
                params,
                body: ArrowFunctionBody::Expression(
                    Expression::ParenthesizedExpression(Box::new(parenthesized)),
                ),
            },
        ),
        renamed_expression(e, parenthesized),
        forall|j: int|
            0 <= j < expression_form.kinds@.len() && j != arrow_id ==> renamed_kind(
                expression_form.kinds@[j],
                #[trigger] parenthesized_form.kinds@[shifted_id(j, k)],
            ),
        declarations_shifted(scoping, parenthesized_scoping, k),
        block_form.parent_ids@ == expression_form.parent_ids@,
        block_form.kinds@.len() == expression_form.kinds@.len(),
        block_form.kinds@[arrow_id] == AstKind::ArrowFunctionExpression(
            ArrowFunctionExpression { is_async, params, body: ArrowFunctionBody::FunctionBody(block) },
        ),
        block.directive_count == 0,
        block.statements@ == seq![Statement::ReturnStatement(Some(returned))],
        renamed_expression(e, returned),
        forall|j: int|
            0 <= j < expression_form.kinds@.len() && j != arrow_id ==> renamed_kind(
                expression_form.kinds@[j],
                #[trigger] block_form.kinds@[j],
            ),
    ensures
        program_reports(expression_form, scoping).len() == program_reports(
            parenthesized_form,
            parenthesized_scoping,
        ).len(),
        program_reports(expression_form, scoping).len() == program_reports(block_form, scoping).len(),
{
    let a = expression_form;
    let b = parenthesized_form;
    let c = block_form;
    let n = a.kinds@.len();
    let arrow = a.kinds@[arrow_id];
    assert(c.wf());
    lemma_renamed_nodes_reflexive(b);
    lemma_renamed_nodes_reflexive(c);
    assert forall|j: int| 0 <= j < n implies alike_kind(a.kinds@[j], #[trigger] b.kinds@[shifted_id(j, k)]) by {
        if j != arrow_id {
            lemma_renamed_kind_alike(a.kinds@[j], b.kinds@[shifted_id(j, k)]);
        }
    }
    assert forall|j: int| 0 <= j < n implies alike_kind(a.kinds@[j], #[trigger] c.kinds@[j]) by {
        if j != arrow_id {
            lemma_renamed_kind_alike(a.kinds@[j], c.kinds@[j]);
        }
    }
    assert forall|j: int| 0 <= j < n implies (#[trigger] reported_span(
        node_at(b, shifted_id(j, k)),
        b,
        parenthesized_scoping,
    ) is Some) == (reported_span(node_at(a, j), a, scoping) is Some) by {
        let id_b = shifted_id(j, k) as u32;
        let moved = AstNode { id: id_b, kind: a.kinds@[j] };
        lemma_inserted_verdict(a.kinds@[j], a, b, scoping, parenthesized_scoping, k, j);
        if j != arrow_id {
            lemma_verdict_ignores_names(moved, node_at(b, shifted_id(j, k)), b, b, parenthesized_scoping);
        } else {
            assert(plain_call(Expression::ParenthesizedExpression(Box::new(parenthesized)))
                == plain_call(parenthesized));
            lemma_renamed_kind_reflexive(arrow);
            lemma_verdict_ignores_names(
                moved,
                arrow_node(id_b, is_async, params, ArrowFunctionBody::Expression(parenthesized)),
                b,
                b,
                parenthesized_scoping,
            );
        }
    }
    lemma_inserted_report_count(a, b, scoping, parenthesized_scoping, k, n);
    assert forall|j: int| 0 <= j < n implies (#[trigger] reported_span(node_at(c, j), c, scoping) is Some)
        == (reported_span(node_at(a, j), a, scoping) is Some) by {
        let same = AstNode { id: j as u32, kind: a.kinds@[j] };
        lemma_alike_verdict(a.kinds@[j], a, c, scoping, j);
        if j != arrow_id {
            lemma_verdict_ignores_names(same, node_at(c, j), c, c, scoping);
        } else {
            lemma_arrow_body_forms_agree(j as u32, is_async, params, returned, block, c, scoping);
            lemma_verdict_ignores_names(
                same,
                arrow_node(j as u32, is_async, params, ArrowFunctionBody::Expression(returned)),
                c,
                c,
                scoping,
            );
        }
    }
    lemma_alike_report_count(a, c, scoping, n);
}

/// Parentheses and TypeScript wrappers change neither the plain call that an
/// expression makes nor the name that it is: `call as T`, `(call)`, `call!` and
/// the like make the call that `call` makes, and `(a)`, `a as T` are the name `a`.
pub proof fn lemma_wrappers_keep_calls_and_names(e: Expression)
    ensures
        plain_call(Expression::ParenthesizedExpression(Box::new(e))) == plain_call(e),
        plain_call(Expression::TSAsExpression(Box::new(e))) == plain_call(e),
        plain_call(Expression::TSSatisfiesExpression(Box::new(e))) == plain_call(e),
        plain_call(Expression::TSInstantiationExpression(Box::new(e))) == plain_call(e),
        plain_call(Expression::TSNonNullExpression(Box::new(e))) == plain_call(e),
        plain_call(Expression::TSTypeAssertion(Box::new(e))) == plain_call(e),
        identifier_of(Expression::ParenthesizedExpression(Box::new(e))) == identifier_of(e),
        identifier_of(Expression::TSAsExpression(Box::new(e))) == identifier_of(e),
        identifier_of(Expression::TSSatisfiesExpression(Box::new(e))) == identifier_of(e),
        identifier_of(Expression::TSInstantiationExpression(Box::new(e))) == identifier_of(e),
        identifier_of(Expression::TSNonNullExpression(Box::new(e))) == identifier_of(e),
        identifier_of(Expression::TSTypeAssertion(Box::new(e))) == identifier_of(e),
        plain_call(inner_expression(e)) == plain_call(e),
        identifier_of(inner_expression(e)) == identifier_of(e),
{
    lemma_inner_expression_sees_through_wrappers(e);
    lemma_inner_expression_idempotent(e);
}

/// A parameter passed on inside parentheses or a TypeScript wrapper is still
/// passed on: an argument forwards a parameter exactly when the argument with
/// its wrappers taken off does, and wrapping it changes nothing.
pub proof fn lemma_wrapped_argument_still_forwards(param: FormalParameter, w: Expression, scoping: Scoping)
    ensures
        parameter_forwarded(param, Argument::Expression(w), scoping) == parameter_forwarded(
            param,
            Argument::Expression(inner_expression(w)),
            scoping,
        ),
        parameter_forwarded(param, Argument::Expression(Expression::ParenthesizedExpression(Box::new(w))), scoping)
            == parameter_forwarded(param, Argument::Expression(w), scoping),
        parameter_forwarded(param, Argument::Expression(Expression::TSAsExpression(Box::new(w))), scoping)
            == parameter_forwarded(param, Argument::Expression(w), scoping),
        parameter_forwarded(param, Argument::Expression(Expression::TSSatisfiesExpression(Box::new(w))), scoping)
            == parameter_forwarded(param, Argument::Expression(w), scoping),
        parameter_forwarded(
            param,
            Argument::Expression(Expression::TSInstantiationExpression(Box::new(w))),
            scoping,
        ) == parameter_forwarded(param, Argument::Expression(w), scoping),
        parameter_forwarded(param, Argument::Expression(Expression::TSNonNullExpression(Box::new(w))), scoping)
            == parameter_forwarded(param, Argument::Expression(w), scoping),
        parameter_forwarded(param, Argument::Expression(Expression::TSTypeAssertion(Box::new(w))), scoping)
            == parameter_forwarded(param, Argument::Expression(w), scoping),
{
    lemma_wrappers_keep_calls_and_names(w);
}

/// The statements of a list looked at so far that are not empty statements
/// never become fewer as more statements are looked at.
proof fn lemma_non_empty_statements_grow(s: Seq<Statement>, m: int, n: int)
    requires
        0 <= m <= n <= s.len(),
    ensures
        non_empty_statements(s.take(m)).len() <= non_empty_statements(s.take(n)).len(),
    decreases n - m,
{
    if m < n {
        lemma_non_empty_statements_grow(s, m, n - 1);
        lemma_non_empty_statements_step(s, n - 1);
    }
}

/// A body with two statements that are not empty statements does not only
/// return a call, whatever the first of them is: a function that returns a call
/// and then declares a helper is not a forwarding function.
pub proof fn lemma_two_statements_return_no_call(body: FunctionBody, i: int, j: int)
    requires
        0 <= i < j < body.statements@.len(),
        !(body.statements@[i] is EmptyStatement),
        !(body.statements@[j] is EmptyStatement),
    ensures
        body_returned_call(body) is None,
{
    let s = body.statements@;
    lemma_non_empty_statements_step(s, i);
    lemma_non_empty_statements_step(s, j);
    lemma_non_empty_statements_grow(s, i + 1, j);
    lemma_non_empty_statements_grow(s, j + 1, s.len() as int);
    assert(s.take(s.len() as int) =~= s);
}

/// A body with a directive prologue does not only return a call.
pub proof fn lemma_directives_return_no_call(body: FunctionBody)
    requires
        body.directive_count != 0,
    ensures
        body_returned_call(body) is None,
{
}

/// A body with no directive whose statements, empty statements aside, are one
/// `return e;` returns the plain call of `e`, wherever the empty statements are.
pub proof fn lemma_lone_return_gives_its_call(body: FunctionBody, i: int, e: Expression)
    requires
        body.directive_count == 0,
        0 <= i < body.statements@.len(),
        body.statements@[i] == Statement::ReturnStatement(Some(e)),
        forall|j: int| 0 <= j < body.statements@.len() && j != i ==> #[trigger] body.statements@[j] is EmptyStatement,
    ensures
        body_returned_call(body) == plain_call(e),
{
    let s = body.statements@;
    lemma_lone_return_prefix(s, i, s.len() as int);
    assert(s.take(s.len() as int) =~= s);
}

proof fn lemma_lone_return_prefix(s: Seq<Statement>, i: int, n: int)
    requires
        0 <= i < s.len(),
        0 <= n <= s.len(),
        !(s[i] is EmptyStatement),
        forall|j: int| 0 <= j < s.len() && j != i ==> #[trigger] s[j] is EmptyStatement,
    ensures
        non_empty_statements(s.take(n)) == if n > i {
            seq![s[i]]
        } else {
            Seq::<Statement>::empty()
        },
    decreases n,
{
    if n == 0 {
        reveal(Seq::filter);
        assert(s.take(0) =~= Seq::<Statement>::empty());
    } else {
        lemma_lone_return_prefix(s, i, n - 1);
        lemma_non_empty_statements_step(s, n - 1);
        if n - 1 == i {
            assert(Seq::<Statement>::empty().push(s[i]) =~= seq![s[i]]);
        }
    }
}

/// Which positions leave a forwarding function unreported: a function that is
/// otherwise reported is left out exactly when it is a constructor, getter or
/// setter, a decorated method, a decorated class field or accessor, or an
/// object getter or setter. Anywhere else, an undecorated class field or
/// accessor and a plain object property included, it is reported at its call.
pub proof fn lemma_ordinary_positions(
    node: AstNode,
    nodes: AstNodes,
    scoping: Scoping,
    params: FormalParameters,
    call: CallExpression,
    function_id: Option<BindingIdentifier>,
    callee: IdentifierReference,
)
    requires
        forwarding_candidate(node.kind) == Some((params, call, function_id)),
        direct_callee_of(call, scoping) == Some(callee),
        forwards_all(params, call, scoping),
        !is_recursive_call(callee, node.id, function_id, nodes, scoping),
    ensures
        match outer_parent_kind(nodes, node.id) {
            Some(AstKind::MethodDefinition { method_kind, has_decorators }) => (reported_span(
                node,
                nodes,
                scoping,
            ) is Some) == (method_kind == MethodDefinitionKind::Method && !has_decorators),
            Some(AstKind::ObjectProperty { property_kind }) => (reported_span(node, nodes, scoping) is Some)
                == (property_kind == PropertyKind::Init),
            Some(AstKind::PropertyDefinition { has_decorators }) => (reported_span(
                node,
                nodes,
                scoping,
            ) is Some) == !has_decorators,
            Some(AstKind::AccessorProperty { has_decorators }) => (reported_span(
                node,
                nodes,
                scoping,
            ) is Some) == !has_decorators,
            _ => true,
        },
        reported_span(node, nodes, scoping) is Some ==> reported_span(node, nodes, scoping) == Some(
            call.span,
        ),
        !(outer_parent_kind(nodes, node.id) matches Some(k) && (k is MethodDefinition
            || k is ObjectProperty || k is PropertyDefinition || k is AccessorProperty))
            ==> reported_span(node, nodes, scoping) == Some(call.span),
        outer_parent_kind(nodes, node.id) == Some(AstKind::PropertyDefinition { has_decorators: false })
            ==> reported_span(node, nodes, scoping) == Some(call.span),
{
}

/// A call is recursive by the function's own name only when the callee
/// resolves to the very symbol that the name binds; a callee that resolves to
/// another symbol (an import, say) makes the call recursive only when a
/// declaration or assignment of that symbol stands above the function, up to
/// the nearest enclosing function; a callee that resolves to nothing is never
/// a recursive call.
pub proof fn lemma_recursion_by_the_same_symbol(
    callee: IdentifierReference,
    node_id: u32,
    function_id: Option<BindingIdentifier>,
    nodes: AstNodes,
    scoping: Scoping,
)
    ensures
        scoping.symbol_of(callee) is None ==> !is_recursive_call(callee, node_id, function_id, nodes, scoping),
        function_id matches Some(id) && scoping.symbol_of(callee) == Some(id.symbol_id)
            ==> is_recursive_call(callee, node_id, function_id, nodes, scoping),
        match scoping.symbol_of(callee) {
            Some(s) => !(function_id matches Some(id) && s == id.symbol_id) ==> is_recursive_call(
                callee,
                node_id,
                function_id,
                nodes,
                scoping,
            ) == defined_by_ancestor(nodes, scoping, node_id, s, scoping.spec_symbol_declaration(s)),
            None => true,
        },
        match (function_id, scoping.symbol_of(callee)) {
            (Some(id), Some(s)) => s != id.symbol_id && !defined_by_ancestor(
                nodes,
                scoping,
                node_id,
                s,
                scoping.spec_symbol_declaration(s),
            ) ==> !is_recursive_call(callee, node_id, function_id, nodes, scoping),
            _ => true,
        },
{
}

/// Two arguments of the same form, spread or plain, that are the same expression
/// once the wrappers are taken off.
pub open spec fn same_argument_unwrapped(a: Argument, b: Argument) -> bool {
    match (a, b) {
        (Argument::SpreadElement(x), Argument::SpreadElement(y)) => inner_expression(x) == inner_expression(y),
        (Argument::Expression(x), Argument::Expression(y)) => inner_expression(x) == inner_expression(y),
        _ => false,
    }
}

/// Wrapping or unwrapping one argument of a call in parentheses or TypeScript
/// wrappers, a trailing spread `...(args as T[])` included, does not change
/// whether the call forwards all the parameters.
pub proof fn lemma_wrapped_arguments_still_forward(
    params: FormalParameters,
    c: CallExpression,
    d: CallExpression,
    scoping: Scoping,
    i: int,
    b: Argument,
)
    requires
        0 <= i < c.arguments@.len(),
        d.arguments@ == c.arguments@.update(i, b),
        same_argument_unwrapped(c.arguments@[i], b),
    ensures
        forwards_all(params, c, scoping) == forwards_all(params, d, scoping),
{
    match (c.arguments@[i], b) {
        (Argument::SpreadElement(x), Argument::SpreadElement(y)) => {
            lemma_wrappers_keep_calls_and_names(x);
            lemma_wrappers_keep_calls_and_names(y);
        },
        (Argument::Expression(x), Argument::Expression(y)) => {
            lemma_wrappers_keep_calls_and_names(x);
            lemma_wrappers_keep_calls_and_names(y);
        },
        _ => {},
    }
    let items = params.items@;
    assert(parameter_forwarded(items[i], c.arguments@[i], scoping) == parameter_forwarded(
        items[i],
        d.arguments@[i],
        scoping,
    ));
    if forwards_all(params, c, scoping) {
        assert forall|j: int| 0 <= j < items.len() implies #[trigger] parameter_forwarded(
            items[j],
            d.arguments@[j],
            scoping,
        ) by {
            assert(parameter_forwarded(items[j], c.arguments@[j], scoping));
        }
    }
    if forwards_all(params, d, scoping) {
        assert forall|j: int| 0 <= j < items.len() implies #[trigger] parameter_forwarded(
            items[j],
            c.arguments@[j],
            scoping,
        ) by {
            assert(parameter_forwarded(items[j], d.arguments@[j], scoping));
        }
    }
}

} // verus!

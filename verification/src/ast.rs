//! A model of the parts of the JavaScript / TypeScript syntax tree that the
//! lint rules read: each node holds as plain values what a rule asks of it.
use vstd::prelude::*;

verus! {

/// A source range, as byte offsets `start..end` into the source text. Rules
/// carry it to their diagnostics.
#[derive(Clone, Copy, Debug, PartialEq, Eq)]
pub struct SourceSpan {
    pub start: u32,
    pub end: u32,
}

/// A use of a name, with the id of its entry in the reference table.
pub struct IdentifierReference {
    pub name: String,
    pub reference_id: u32,
}

/// The declaration of a name, with the id of the symbol it declares.
pub struct BindingIdentifier {
    pub symbol_id: u32,
}

/// An expression. Kinds that no rule tells apart are `Other`.
pub enum Expression {
    Identifier(IdentifierReference),
    CallExpression(Box<CallExpression>),
    ParenthesizedExpression(Box<Expression>),
    TSAsExpression(Box<Expression>),
    TSSatisfiesExpression(Box<Expression>),
    TSInstantiationExpression(Box<Expression>),
    TSNonNullExpression(Box<Expression>),
    TSTypeAssertion(Box<Expression>),
    Super,
    Other,
}

/// An argument of a call: `...x` or a plain expression.
pub enum Argument {
    SpreadElement(Expression),
    Expression(Expression),
}

/// `callee(arguments)`, or `callee?.(arguments)` when `optional` holds.
pub struct CallExpression {
    pub span: SourceSpan,
    pub callee: Expression,
    pub arguments: Vec<Argument>,
    pub optional: bool,
}

/// A statement. Kinds that no rule tells apart are `Other`.
pub enum Statement {
    EmptyStatement,
    ReturnStatement(Option<Expression>),
    Other,
}

/// The block of a function: its directive prologue (`'use strict';` and the like)
/// and its statements.
pub struct FunctionBody {
    pub directive_count: usize,
    pub statements: Vec<Statement>,
}

/// The target of a parameter: a name, a name with a default (`a = 1`), or a
/// destructuring pattern.
pub enum BindingPattern {
    BindingIdentifier(BindingIdentifier),
    AssignmentPattern(Box<BindingPattern>),
    Other,
}

/// A parameter that is not a rest parameter.
pub struct FormalParameter {
    pub has_decorators: bool,
    pub pattern: BindingPattern,
    pub has_initializer: bool,
}

/// A rest parameter `...args`.
pub struct FormalParameterRest {
    pub has_decorators: bool,
    pub argument: BindingPattern,
}

/// The parameter list of a function.
pub struct FormalParameters {
    pub items: Vec<FormalParameter>,
    pub rest: Option<FormalParameterRest>,
}

/// A function declaration or expression, a method's function included.
pub struct Function {
    pub id: Option<BindingIdentifier>,
    pub generator: bool,
    pub is_async: bool,
    pub has_this_param: bool,
    pub params: FormalParameters,
    pub body: Option<FunctionBody>,
}

/// The body of an arrow function: a block, or a single expression.
pub enum ArrowFunctionBody {
    FunctionBody(FunctionBody),
    Expression(Expression),
}

/// An arrow function expression.
pub struct ArrowFunctionExpression {
    pub is_async: bool,
    pub params: FormalParameters,
    pub body: ArrowFunctionBody,
}

/// What a class method is.
pub enum MethodDefinitionKind {
    Constructor,
    Method,
    Getter,
    Setter,
}

/// What an object literal property is.
pub enum PropertyKind {
    Init,
    Getter,
    Setter,
}

/// The left side of an assignment.
pub enum AssignmentTarget {
    AssignmentTargetIdentifier(IdentifierReference),
    Other,
}

/// The kind of a syntax tree node, with what the rules read of it.
pub enum AstKind {
    ArrowFunctionExpression(ArrowFunctionExpression),
    Function(Function),
    ParenthesizedExpression,
    TSAsExpression,
    TSSatisfiesExpression,
    TSInstantiationExpression,
    TSNonNullExpression,
    TSTypeAssertion,
    MethodDefinition { method_kind: MethodDefinitionKind, has_decorators: bool },
    ObjectProperty { property_kind: PropertyKind },
    PropertyDefinition { has_decorators: bool },
    AccessorProperty { has_decorators: bool },
    AssignmentExpression { left: AssignmentTarget },
    Other,
}

/// The expression under any parentheses and TypeScript `as`, `satisfies`,
/// instantiation, non-null (`!`) and `<T>` assertion wrappers.
pub open spec fn inner_expression(e: Expression) -> Expression
    decreases e,
{
    match e {
        Expression::ParenthesizedExpression(x) => inner_expression(*x),
        Expression::TSAsExpression(x) => inner_expression(*x),
        Expression::TSSatisfiesExpression(x) => inner_expression(*x),
        Expression::TSInstantiationExpression(x) => inner_expression(*x),
        Expression::TSNonNullExpression(x) => inner_expression(*x),
        Expression::TSTypeAssertion(x) => inner_expression(*x),
        _ => e,
    }
}

/// Taking the wrappers off leaves no wrapper on top, and putting parentheses or
/// a TypeScript `as`, `satisfies`, instantiation, non-null or `<T>` wrapper
/// around an expression does not change what taking the wrappers off gives.
pub proof fn lemma_inner_expression_sees_through_wrappers(e: Expression)
    ensures
        !(inner_expression(e) is ParenthesizedExpression),
        !(inner_expression(e) is TSAsExpression),
        !(inner_expression(e) is TSSatisfiesExpression),
        !(inner_expression(e) is TSInstantiationExpression),
        !(inner_expression(e) is TSNonNullExpression),
        !(inner_expression(e) is TSTypeAssertion),
        inner_expression(Expression::ParenthesizedExpression(Box::new(e))) == inner_expression(e),
        inner_expression(Expression::TSAsExpression(Box::new(e))) == inner_expression(e),
        inner_expression(Expression::TSSatisfiesExpression(Box::new(e))) == inner_expression(e),
        inner_expression(Expression::TSInstantiationExpression(Box::new(e))) == inner_expression(e),
        inner_expression(Expression::TSNonNullExpression(Box::new(e))) == inner_expression(e),
        inner_expression(Expression::TSTypeAssertion(Box::new(e))) == inner_expression(e),
        (e is Identifier || e is CallExpression || e is Super || e is Other) ==> inner_expression(e)
            == e,
    decreases e,
{
    match e {
        Expression::ParenthesizedExpression(x) => lemma_inner_expression_sees_through_wrappers(*x),
        Expression::TSAsExpression(x) => lemma_inner_expression_sees_through_wrappers(*x),
        Expression::TSSatisfiesExpression(x) => lemma_inner_expression_sees_through_wrappers(*x),
        Expression::TSInstantiationExpression(x) => lemma_inner_expression_sees_through_wrappers(*x),
        Expression::TSNonNullExpression(x) => lemma_inner_expression_sees_through_wrappers(*x),
        Expression::TSTypeAssertion(x) => lemma_inner_expression_sees_through_wrappers(*x),
        _ => {},
    }
}

/// The name that an expression is, once its wrappers are taken off.
pub open spec fn identifier_of(e: Expression) -> Option<IdentifierReference> {
    match inner_expression(e) {
        Expression::Identifier(id) => Some(id),
        _ => None,
    }
}

/// The name that a parameter pattern binds, if it is a name (with or without
/// a default).
pub open spec fn binding_of(p: BindingPattern) -> Option<BindingIdentifier>
    decreases p,
{
    match p {
        BindingPattern::BindingIdentifier(id) => Some(id),
        BindingPattern::AssignmentPattern(left) => binding_of(*left),
        BindingPattern::Other => None,
    }
}

/// The expression of an argument, unless it is a spread element.
pub open spec fn argument_expression(a: Argument) -> Option<Expression> {
    match a {
        Argument::Expression(e) => Some(e),
        Argument::SpreadElement(_) => None,
    }
}

impl Expression {
    /// The expression under any parentheses and TypeScript wrappers.
    pub fn get_inner_expression(&self) -> (inner: &Expression)
        ensures
            *inner == inner_expression(*self),
        decreases self,
    {
        match self {
            Expression::ParenthesizedExpression(x) => x.get_inner_expression(),
            Expression::TSAsExpression(x) => x.get_inner_expression(),
            Expression::TSSatisfiesExpression(x) => x.get_inner_expression(),
            Expression::TSInstantiationExpression(x) => x.get_inner_expression(),
            Expression::TSNonNullExpression(x) => x.get_inner_expression(),
            Expression::TSTypeAssertion(x) => x.get_inner_expression(),
            _ => self,
        }
    }

    /// The name that this expression is, once its wrappers are taken off.
    pub fn get_identifier_reference(&self) -> (id: Option<&IdentifierReference>)
        ensures
            match id {
                Some(r) => identifier_of(*self) == Some(*r),
                None => identifier_of(*self) is None,
            },
    {
        match self.get_inner_expression() {
            Expression::Identifier(ident) => Some(ident),
            _ => None,
        }
    }

    /// Whether this expression is `super`.
    pub fn is_super(&self) -> (r: bool)
        ensures
            r == (*self is Super),
    {
        matches!(self, Expression::Super)
    }
}

impl BindingPattern {
    /// The name that this pattern binds, if it is a name (with or without a default).
    pub fn get_binding_identifier(&self) -> (id: Option<&BindingIdentifier>)
        ensures
            match id {
                Some(b) => binding_of(*self) == Some(*b),
                None => binding_of(*self) is None,
            },
        decreases self,
    {
        match self {
            BindingPattern::BindingIdentifier(ident) => Some(ident),
            BindingPattern::AssignmentPattern(left) => left.get_binding_identifier(),
            BindingPattern::Other => None,
        }
    }
}

impl Argument {
    /// The expression of this argument, unless it is a spread element.
    pub fn as_expression(&self) -> (e: Option<&Expression>)
        ensures
            match e {
                Some(x) => argument_expression(*self) == Some(*x),
                None => argument_expression(*self) is None,
            },
    {
        match self {
            Argument::Expression(e) => Some(e),
            Argument::SpreadElement(_) => None,
        }
    }
}

} // verus!

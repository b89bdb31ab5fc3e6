//! Binds the names in expressions to what they name, and checks that each
//! expression has the type of the property it is for.
//!
//! A name written alone is looked up among the properties of the element
//! that the expression belongs to, then among those of the root element. A
//! name written after an element id is looked up among the properties of
//! the first element of that id. An expression in which a name names
//! nothing, or which is of the wrong type, is replaced by `Invalid`: the
//! passes that follow skip it, and at run time a property with such a
//! binding has the default value of its type.

use vstd::prelude::*;
use crate::diagnostics::{
    error_at, lemma_with_all_concat, lemma_with_all_empty, lemma_with_all_push, with_all,
    DiagnosticView, FileDiagnostics, Span,
};
use crate::eval::{BinaryOperator, UnaryOperator};
use crate::expression_tree::{clone_expression, Expression};
use crate::lowering::{clone_table, element_tables, message, root_of, table_of, table_views};
use crate::names::{find_name, position_of, views};
use crate::object_tree::{
    BindingView, Component, ComponentView, Document, DocumentView, Element, ElementView,
    PropertyChangeView, StateView,
};
use crate::passes::{visited_element, ExpressionFieldsVisitor, ExpressionRewriter};
use crate::typeregister::{
    builtin_properties, declared_at, find_declaration, DeclarationView, PropertyDeclaration, Type,
};

verus! {

/// The position of the property `name` of element `t`.
pub open spec fn declared_in(tables: Seq<Seq<DeclarationView>>, t: int, name: Seq<char>) -> Option<
    int,
> {
    if 0 <= t < tables.len() {
        declared_at(tables[t], name)
    } else {
        None
    }
}

/// What a name names in an expression of element `current`: an element and
/// a property, by position.
pub open spec fn named(
    ids: Seq<Seq<char>>,
    tables: Seq<Seq<DeclarationView>>,
    current: int,
    scope: Seq<char>,
    name: Seq<char>,
) -> Option<(int, int)> {
    if scope.len() == 0 {
        match declared_in(tables, current, name) {
            Some(p) => Some((current, p)),
            None => match declared_in(tables, 0, name) {
                Some(p) => Some((0, p)),
                None => None,
            },
        }
    } else {
        match position_of(ids, scope) {
            Some(t) => match declared_in(tables, t, name) {
                Some(p) => Some((t, p)),
                None => None,
            },
            None => None,
        }
    }
}

/// The reference to property `p` of element `t`: a signal reference where
/// the property is a signal.
pub open spec fn reference_to(tables: Seq<Seq<DeclarationView>>, t: int, p: int) -> Expression {
    if tables[t][p].property_type == Type::Signal {
        Expression::SignalReference { element: t as usize, property: p as usize }
    } else {
        Expression::PropertyReference { element: t as usize, property: p as usize }
    }
}

/// The expression with every name replaced by what it names, or by
/// `Invalid` where it names nothing.
pub open spec fn resolved(
    ids: Seq<Seq<char>>,
    tables: Seq<Seq<DeclarationView>>,
    current: int,
    e: Expression,
) -> Expression
    decreases e,
{
    match e {
        Expression::Identifier { scope, name } => match named(ids, tables, current, scope@, name@) {
            Some((t, p)) => reference_to(tables, t, p),
            None => Expression::Invalid,
        },
        Expression::BinaryExpression { lhs, rhs, op } => Expression::BinaryExpression {
            lhs: Box::new(resolved(ids, tables, current, *lhs)),
            rhs: Box::new(resolved(ids, tables, current, *rhs)),
            op,
        },
        Expression::UnaryExpression { sub, op } => Expression::UnaryExpression {
            sub: Box::new(resolved(ids, tables, current, *sub)),
            op,
        },
        Expression::Condition { condition, true_expr, false_expr } => Expression::Condition {
            condition: Box::new(resolved(ids, tables, current, *condition)),
            true_expr: Box::new(resolved(ids, tables, current, *true_expr)),
            false_expr: Box::new(resolved(ids, tables, current, *false_expr)),
        },
        _ => e,
    }
}

/// One error for each name in the expression that names nothing, in the
/// order in which the names are written.
pub open spec fn name_errors(
    ids: Seq<Seq<char>>,
    tables: Seq<Seq<DeclarationView>>,
    current: int,
    e: Expression,
    span: Span,
) -> Seq<DiagnosticView>
    decreases e,
{
    match e {
        Expression::Identifier { scope, name } => match named(ids, tables, current, scope@, name@) {
            Some(_) => Seq::empty(),
            None => seq![error_at("Cannot find identifier "@ + name@, span)],
        },
        Expression::BinaryExpression { lhs, rhs, op } => name_errors(
            ids,
            tables,
            current,
            *lhs,
            span,
        ) + name_errors(ids, tables, current, *rhs, span),
        Expression::UnaryExpression { sub, op } => name_errors(ids, tables, current, *sub, span),
        Expression::Condition { condition, true_expr, false_expr } => name_errors(
            ids,
            tables,
            current,
            *condition,
            span,
        ) + name_errors(ids, tables, current, *true_expr, span) + name_errors(
            ids,
            tables,
            current,
            *false_expr,
            span,
        ),
        _ => Seq::empty(),
    }
}

/// Whether the expression has a part that is `Invalid` or an unbound name.
pub open spec fn has_invalid(e: Expression) -> bool
    decreases e,
{
    match e {
        Expression::Invalid => true,
        Expression::Identifier { .. } => true,
        Expression::BinaryExpression { lhs, rhs, op } => has_invalid(*lhs) || has_invalid(*rhs),
        Expression::UnaryExpression { sub, op } => has_invalid(*sub),
        Expression::Condition { condition, true_expr, false_expr } => has_invalid(*condition)
            || has_invalid(*true_expr) || has_invalid(*false_expr),
        _ => false,
    }
}

/// A resolved expression holds no name: every name in it was bound or has
/// become `Invalid`.
pub open spec fn has_identifier(e: Expression) -> bool
    decreases e,
{
    match e {
        Expression::Identifier { .. } => true,
        Expression::BinaryExpression { lhs, rhs, op } => has_identifier(*lhs) || has_identifier(
            *rhs,
        ),
        Expression::UnaryExpression { sub, op } => has_identifier(*sub),
        Expression::Condition { condition, true_expr, false_expr } => has_identifier(*condition)
            || has_identifier(*true_expr) || has_identifier(*false_expr),
        _ => false,
    }
}

/// No name is left in a resolved expression.
pub proof fn lemma_resolved_has_no_identifier(
    ids: Seq<Seq<char>>,
    tables: Seq<Seq<DeclarationView>>,
    current: int,
    e: Expression,
)
    ensures
        !has_identifier(resolved(ids, tables, current, e)),
    decreases e,
{
    match e {
        Expression::BinaryExpression { lhs, rhs, op } => {
            lemma_resolved_has_no_identifier(ids, tables, current, *lhs);
            lemma_resolved_has_no_identifier(ids, tables, current, *rhs);
        },
        Expression::UnaryExpression { sub, op } => {
            lemma_resolved_has_no_identifier(ids, tables, current, *sub);
        },
        Expression::Condition { condition, true_expr, false_expr } => {
            lemma_resolved_has_no_identifier(ids, tables, current, *condition);
            lemma_resolved_has_no_identifier(ids, tables, current, *true_expr);
            lemma_resolved_has_no_identifier(ids, tables, current, *false_expr);
        },
        _ => {},
    }
}

/// Whether the type is one of the two number types.
pub open spec fn is_numeric(ty: Type) -> bool {
    ty == Type::Float32 || ty == Type::Int32
}

/// The type of what a binary operator gives on operands of the given types.
pub open spec fn binary_type(op: BinaryOperator, a: Type, b: Type) -> Type {
    match op {
        BinaryOperator::Add => if is_numeric(a) && is_numeric(b) {
            Type::Float32
        } else if a == Type::String && b == Type::String {
            Type::String
        } else {
            Type::Invalid
        },
        BinaryOperator::Sub | BinaryOperator::Mul | BinaryOperator::Div => if is_numeric(a)
            && is_numeric(b) {
            Type::Float32
        } else {
            Type::Invalid
        },
        BinaryOperator::Equal | BinaryOperator::NotEqual => if a != Type::Invalid && b
            != Type::Invalid {
            Type::Bool
        } else {
            Type::Invalid
        },
        BinaryOperator::Less | BinaryOperator::Greater | BinaryOperator::LessOrEqual | BinaryOperator::GreaterOrEqual => if is_numeric(
            a,
        ) && is_numeric(b) {
            Type::Bool
        } else {
            Type::Invalid
        },
        BinaryOperator::And | BinaryOperator::Or => if a == Type::Bool && b == Type::Bool {
            Type::Bool
        } else {
            Type::Invalid
        },
    }
}

/// Whether a value of type `from` can be given to a property of type `to`.
pub open spec fn assignable(from: Type, to: Type) -> bool {
    from != Type::Invalid && (from == to || (is_numeric(from) && is_numeric(to)))
}

/// The type of a resolved expression; `Invalid` where the expression has no
/// type.
pub open spec fn type_of(tables: Seq<Seq<DeclarationView>>, e: Expression) -> Type
    decreases e,
{
    match e {
        Expression::StringLiteral(_) => Type::String,
        Expression::NumberLiteral(_) => Type::Float32,
        Expression::BoolLiteral(_) => Type::Bool,
        Expression::ColorLiteral(_) => Type::Color,
        Expression::ResourceReference(_) => Type::Image,
        Expression::EmbeddedResource(_) => Type::Image,
        Expression::Default(ty) => ty,
        Expression::PropertyReference { element, property } => if element < tables.len()
            && property < tables[element as int].len() {
            tables[element as int][property as int].property_type
        } else {
            Type::Invalid
        },
        Expression::SignalReference { element, property } => Type::Signal,
        Expression::RepeaterIndexReference => Type::Int32,
        Expression::RepeaterModelReference => Type::Int32,
        Expression::BinaryExpression { lhs, rhs, op } => binary_type(
            op,
            type_of(tables, *lhs),
            type_of(tables, *rhs),
        ),
        Expression::UnaryExpression { sub, op } => match op {
            UnaryOperator::Not => if type_of(tables, *sub) == Type::Bool {
                Type::Bool
            } else {
                Type::Invalid
            },
            UnaryOperator::Negate => if is_numeric(type_of(tables, *sub)) {
                Type::Float32
            } else {
                Type::Invalid
            },
        },
        Expression::Condition { condition, true_expr, false_expr } => if type_of(
            tables,
            *condition,
        ) == Type::Bool && assignable(type_of(tables, *false_expr), type_of(tables, *true_expr)) {
            type_of(tables, *true_expr)
        } else {
            Type::Invalid
        },
        _ => Type::Invalid,
    }
}

/// The names of a component: the ids of its elements and the tables of
/// their properties, with the element that the expressions at hand belong
/// to.
pub struct Resolver<'a> {
    pub ids: &'a Vec<String>,
    pub tables: &'a Vec<Vec<PropertyDeclaration>>,
    pub current: usize,
}

impl<'a> Resolver<'a> {
    /// What the name names, if anything.
    pub fn find(&self, scope: &str, name: &str) -> (found: Option<(usize, usize)>)
        ensures
            match found {
                Some((t, p)) => named(
                    views(self.ids@),
                    table_views(self.tables@),
                    self.current as int,
                    scope@,
                    name@,
                ) == Some((t as int, p as int)) && t < self.tables@.len() && p
                    < self.tables@[t as int]@.len(),
                None => named(
                    views(self.ids@),
                    table_views(self.tables@),
                    self.current as int,
                    scope@,
                    name@,
                ).is_none(),
            },
    {
        if scope.is_empty() {
            if self.current < self.tables.len() {
                match find_declaration(&self.tables[self.current], name) {
                    Some(p) => {
                        return Some((self.current, p));
                    },
                    None => {},
                }
            }
            if 0 < self.tables.len() {
                match find_declaration(&self.tables[0], name) {
                    Some(p) => Some((0, p)),
                    None => None,
                }
            } else {
                None
            }
        } else {
            match find_name(self.ids, scope) {
                Some(t) => {
                    if t < self.tables.len() {
                        match find_declaration(&self.tables[t], name) {
                            Some(p) => Some((t, p)),
                            None => None,
                        }
                    } else {
                        None
                    }
                },
                None => None,
            }
        }
    }

    /// Reports every name in the expression that names nothing.
    pub fn report(&self, e: &Expression, span: Span, diag: &mut FileDiagnostics)
        ensures
            final(diag)@.current_path == old(diag)@.current_path,
            final(diag)@.inner == with_all(
                old(diag)@.inner,
                name_errors(
                    views(self.ids@),
                    table_views(self.tables@),
                    self.current as int,
                    *e,
                    span,
                ),
            ),
        decreases *e,
    {
        let ghost ids = views(self.ids@);
        let ghost tables = table_views(self.tables@);
        let ghost current = self.current as int;
        let ghost start = diag@.inner;
        proof {
            lemma_with_all_empty(start);
        }
        match e {
            Expression::Identifier { scope, name } => {
                match self.find(scope.as_str(), name.as_str()) {
                    Some(_) => {},
                    None => {
                        proof {
                            lemma_with_all_push(
                                start,
                                Seq::empty(),
                                error_at("Cannot find identifier "@ + name@, span),
                            );
                            assert(Seq::<DiagnosticView>::empty().push(
                                error_at("Cannot find identifier "@ + name@, span),
                            ) =~= seq![error_at("Cannot find identifier "@ + name@, span)]);
                        }
                        diag.push_error(message("Cannot find identifier ", name.as_str()), span);
                    },
                }
            },
            Expression::BinaryExpression { lhs, rhs, op } => {
                self.report(lhs, span, diag);
                self.report(rhs, span, diag);
                proof {
                    lemma_with_all_concat(
                        start,
                        name_errors(ids, tables, current, **lhs, span),
                        name_errors(ids, tables, current, **rhs, span),
                    );
                }
            },
            Expression::UnaryExpression { sub, op } => {
                self.report(sub, span, diag);
            },
            Expression::Condition { condition, true_expr, false_expr } => {
                self.report(condition, span, diag);
                self.report(true_expr, span, diag);
                self.report(false_expr, span, diag);
                proof {
                    lemma_with_all_concat(
                        start,
                        name_errors(ids, tables, current, **condition, span),
                        name_errors(ids, tables, current, **true_expr, span),
                    );
                    lemma_with_all_concat(
                        start,
                        name_errors(ids, tables, current, **condition, span) + name_errors(
                            ids,
                            tables,
                            current,
                            **true_expr,
                            span,
                        ),
                        name_errors(ids, tables, current, **false_expr, span),
                    );
                }
            },
            _ => {},
        }
    }
}

impl<'a> ExpressionRewriter for Resolver<'a> {
    open spec fn rewritten(&self, e: Expression) -> Expression {
        resolved(views(self.ids@), table_views(self.tables@), self.current as int, e)
    }

    fn rewrite(&self, e: &Expression) -> (r: Expression)
        decreases *e,
    {
        match e {
            Expression::Identifier { scope, name } => {
                match self.find(scope.as_str(), name.as_str()) {
                    Some((t, p)) => {
                        assert(table_views(self.tables@)[t as int][p as int]
                            == self.tables@[t as int]@[p as int]@);
                        if self.tables[t][p].property_type == Type::Signal {
                            Expression::SignalReference { element: t, property: p }
                        } else {
                            Expression::PropertyReference { element: t, property: p }
                        }
                    },
                    None => Expression::Invalid,
                }
            },
            Expression::BinaryExpression { lhs, rhs, op } => Expression::BinaryExpression {
                lhs: Box::new(self.rewrite(lhs)),
                rhs: Box::new(self.rewrite(rhs)),
                op: *op,
            },
            Expression::UnaryExpression { sub, op } => Expression::UnaryExpression {
                sub: Box::new(self.rewrite(sub)),
                op: *op,
            },
            Expression::Condition { condition, true_expr, false_expr } => Expression::Condition {
                condition: Box::new(self.rewrite(condition)),
                true_expr: Box::new(self.rewrite(true_expr)),
                false_expr: Box::new(self.rewrite(false_expr)),
            },
            _ => clone_expression(e),
        }
    }
}

/// Whether the expression has a part that is `Invalid` or an unbound name.
pub fn contains_invalid(e: &Expression) -> (found: bool)
    ensures
        found == has_invalid(*e),
    decreases *e,
{
    match e {
        Expression::Invalid => true,
        Expression::Identifier { .. } => true,
        Expression::BinaryExpression { lhs, rhs, op } => contains_invalid(lhs) || contains_invalid(
            rhs,
        ),
        Expression::UnaryExpression { sub, op } => contains_invalid(sub),
        Expression::Condition { condition, true_expr, false_expr } => contains_invalid(condition)
            || contains_invalid(true_expr) || contains_invalid(false_expr),
        _ => false,
    }
}

/// Whether the type is one of the two number types.
pub fn numeric(ty: Type) -> (ok: bool)
    ensures
        ok == is_numeric(ty),
{
    ty == Type::Float32 || ty == Type::Int32
}

/// Whether a value of type `from` can be given to a property of type `to`.
pub fn can_assign(from: Type, to: Type) -> (ok: bool)
    ensures
        ok == assignable(from, to),
{
    from != Type::Invalid && (from == to || (numeric(from) && numeric(to)))
}

/// The type of a resolved expression.
pub fn expression_type(tables: &Vec<Vec<PropertyDeclaration>>, e: &Expression) -> (ty: Type)
    ensures
        ty == type_of(table_views(tables@), *e),
    decreases *e,
{
    match e {
        Expression::StringLiteral(_) => Type::String,
        Expression::NumberLiteral(_) => Type::Float32,
        Expression::BoolLiteral(_) => Type::Bool,
        Expression::ColorLiteral(_) => Type::Color,
        Expression::ResourceReference(_) => Type::Image,
        Expression::EmbeddedResource(_) => Type::Image,
        Expression::Default(ty) => *ty,
        Expression::PropertyReference { element, property } => {
            if *element < tables.len() && *property < tables[*element].len() {
                assert(table_views(tables@)[*element as int][*property as int]
                    == tables@[*element as int]@[*property as int]@);
                tables[*element][*property].property_type
            } else {
                Type::Invalid
            }
        },
        Expression::SignalReference { element, property } => Type::Signal,
        Expression::RepeaterIndexReference => Type::Int32,
        Expression::RepeaterModelReference => Type::Int32,
        Expression::BinaryExpression { lhs, rhs, op } => {
            let a = expression_type(tables, lhs);
            let b = expression_type(tables, rhs);
            match op {
                BinaryOperator::Add => if numeric(a) && numeric(b) {
                    Type::Float32
                } else if a == Type::String && b == Type::String {
                    Type::String
                } else {
                    Type::Invalid
                },
                BinaryOperator::Sub | BinaryOperator::Mul | BinaryOperator::Div => if numeric(a)
                    && numeric(b) {
                    Type::Float32
                } else {
                    Type::Invalid
                },
                BinaryOperator::Equal | BinaryOperator::NotEqual => if a != Type::Invalid && b
                    != Type::Invalid {
                    Type::Bool
                } else {
                    Type::Invalid
                },
                BinaryOperator::Less | BinaryOperator::Greater | BinaryOperator::LessOrEqual | BinaryOperator::GreaterOrEqual => if numeric(
                    a,
                ) && numeric(b) {
                    Type::Bool
                } else {
                    Type::Invalid
                },
                BinaryOperator::And | BinaryOperator::Or => if a == Type::Bool && b == Type::Bool {
                    Type::Bool
                } else {
                    Type::Invalid
                },
            }
        },
        Expression::UnaryExpression { sub, op } => {
            let a = expression_type(tables, sub);
            match op {
                UnaryOperator::Not => if a == Type::Bool {
                    Type::Bool
                } else {
                    Type::Invalid
                },
                UnaryOperator::Negate => if numeric(a) {
                    Type::Float32
                } else {
                    Type::Invalid
                },
            }
        },
        Expression::Condition { condition, true_expr, false_expr } => {
            let c = expression_type(tables, condition);
            let t = expression_type(tables, true_expr);
            let f = expression_type(tables, false_expr);
            if c == Type::Bool && can_assign(f, t) {
                t
            } else {
                Type::Invalid
            }
        },
        _ => Type::Invalid,
    }
}

/// The declaration of property `p` of element `t`, if there is one.
pub open spec fn wanted(tables: Seq<Seq<DeclarationView>>, t: int, p: int) -> Option<DeclarationView> {
    if 0 <= t < tables.len() && 0 <= p < tables[t].len() {
        Some(tables[t][p])
    } else {
        None
    }
}

/// The expression as it stays for a property: `Invalid` when a part of it is
/// invalid, when there is no such property, and when it is not of the type
/// of the property.
pub open spec fn checked(
    tables: Seq<Seq<DeclarationView>>,
    target: Option<DeclarationView>,
    e: Expression,
) -> Expression {
    match target {
        Some(d) => if has_invalid(e) || !assignable(type_of(tables, e), d.property_type) {
            Expression::Invalid
        } else {
            e
        },
        None => Expression::Invalid,
    }
}

/// What is wrong with the type of an expression for a property: nothing
/// where a part of the expression is invalid, for that was said already.
pub open spec fn type_error(
    tables: Seq<Seq<DeclarationView>>,
    target: Option<DeclarationView>,
    e: Expression,
    span: Span,
) -> Seq<DiagnosticView> {
    match target {
        Some(d) => if !has_invalid(e) && !assignable(type_of(tables, e), d.property_type) {
            seq![error_at("Cannot assign to "@ + d.name, span)]
        } else {
            Seq::empty()
        },
        None => Seq::empty(),
    }
}

/// The declaration that a state's condition is checked against.
pub open spec fn condition_target() -> Option<DeclarationView> {
    Some(DeclarationView { name: "the condition of a state"@, property_type: Type::Bool })
}

/// The bindings with their names bound.
pub open spec fn bound_bindings(
    ids: Seq<Seq<char>>,
    tables: Seq<Seq<DeclarationView>>,
    i: int,
    bindings: Seq<BindingView>,
) -> Seq<BindingView> {
    Seq::new(
        bindings.len(),
        |k: int|
            BindingView {
                expression: resolved(ids, tables, i, bindings[k].expression),
                ..bindings[k]
            },
    )
}

/// The changes of a state with their names bound.
pub open spec fn bound_changes(
    ids: Seq<Seq<char>>,
    tables: Seq<Seq<DeclarationView>>,
    i: int,
    changes: Seq<PropertyChangeView>,
) -> Seq<PropertyChangeView> {
    Seq::new(
        changes.len(),
        |k: int|
            PropertyChangeView {
                expression: resolved(ids, tables, i, changes[k].expression),
                ..changes[k]
            },
    )
}

/// The states with their names bound.
pub open spec fn bound_states(
    ids: Seq<Seq<char>>,
    tables: Seq<Seq<DeclarationView>>,
    i: int,
    states: Seq<StateView>,
) -> Seq<StateView> {
    Seq::new(
        states.len(),
        |k: int|
            StateView {
                condition: resolved(ids, tables, i, states[k].condition),
                changes: bound_changes(ids, tables, i, states[k].changes),
                ..states[k]
            },
    )
}

/// The element with the names in its expressions bound.
pub open spec fn bound_element(
    ids: Seq<Seq<char>>,
    tables: Seq<Seq<DeclarationView>>,
    i: int,
    e: ElementView,
) -> ElementView {
    ElementView {
        bindings: bound_bindings(ids, tables, i, e.bindings),
        repeated: match e.repeated {
            Some(model) => Some(resolved(ids, tables, i, model)),
            None => None,
        },
        states: bound_states(ids, tables, i, e.states),
        ..e
    }
}

/// The bindings with each expression checked against its property.
pub open spec fn checked_bindings(
    tables: Seq<Seq<DeclarationView>>,
    i: int,
    bindings: Seq<BindingView>,
) -> Seq<BindingView> {
    Seq::new(
        bindings.len(),
        |k: int|
            BindingView {
                expression: checked(
                    tables,
                    wanted(tables, i, bindings[k].property as int),
                    bindings[k].expression,
                ),
                ..bindings[k]
            },
    )
}

/// The changes with each expression checked against its property.
pub open spec fn checked_changes(tables: Seq<Seq<DeclarationView>>, changes: Seq<PropertyChangeView>) -> Seq<
    PropertyChangeView,
> {
    Seq::new(
        changes.len(),
        |k: int|
            PropertyChangeView {
                expression: checked(
                    tables,
                    wanted(tables, changes[k].element as int, changes[k].property as int),
                    changes[k].expression,
                ),
                ..changes[k]
            },
    )
}

/// The states with their conditions and changes checked.
pub open spec fn checked_states(tables: Seq<Seq<DeclarationView>>, states: Seq<StateView>) -> Seq<
    StateView,
> {
    Seq::new(
        states.len(),
        |k: int|
            StateView {
                condition: checked(tables, condition_target(), states[k].condition),
                changes: checked_changes(tables, states[k].changes),
                ..states[k]
            },
    )
}

/// The element with its expressions checked. A model with an invalid part
/// is `Invalid`.
pub open spec fn checked_element(tables: Seq<Seq<DeclarationView>>, i: int, e: ElementView) -> ElementView {
    ElementView {
        bindings: checked_bindings(tables, i, e.bindings),
        repeated: match e.repeated {
            Some(model) => if has_invalid(model) {
                Some(Expression::Invalid)
            } else {
                Some(model)
            },
            None => None,
        },
        states: checked_states(tables, e.states),
        ..e
    }
}

/// The element after resolution.
pub open spec fn resolved_element(
    ids: Seq<Seq<char>>,
    tables: Seq<Seq<DeclarationView>>,
    i: int,
    e: ElementView,
) -> ElementView {
    checked_element(tables, i, bound_element(ids, tables, i, e))
}

/// The names that name nothing in the first `n` bindings.
pub open spec fn binding_name_errors(
    ids: Seq<Seq<char>>,
    tables: Seq<Seq<DeclarationView>>,
    i: int,
    bindings: Seq<BindingView>,
    n: int,
) -> Seq<DiagnosticView>
    decreases n,
{
    if n <= 0 {
        Seq::empty()
    } else {
        binding_name_errors(ids, tables, i, bindings, n - 1) + name_errors(
            ids,
            tables,
            i,
            bindings[n - 1].expression,
            bindings[n - 1].span,
        )
    }
}

/// The names that name nothing in the first `n` changes of a state.
pub open spec fn change_name_errors(
    ids: Seq<Seq<char>>,
    tables: Seq<Seq<DeclarationView>>,
    i: int,
    changes: Seq<PropertyChangeView>,
    span: Span,
    n: int,
) -> Seq<DiagnosticView>
    decreases n,
{
    if n <= 0 {
        Seq::empty()
    } else {
        change_name_errors(ids, tables, i, changes, span, n - 1) + name_errors(
            ids,
            tables,
            i,
            changes[n - 1].expression,
            span,
        )
    }
}

/// The names that name nothing in the first `n` states.
pub open spec fn state_name_errors(
    ids: Seq<Seq<char>>,
    tables: Seq<Seq<DeclarationView>>,
    i: int,
    states: Seq<StateView>,
    span: Span,
    n: int,
) -> Seq<DiagnosticView>
    decreases n,
{
    if n <= 0 {
        Seq::empty()
    } else {
        state_name_errors(ids, tables, i, states, span, n - 1) + name_errors(
            ids,
            tables,
            i,
            states[n - 1].condition,
            span,
        ) + change_name_errors(
            ids,
            tables,
            i,
            states[n - 1].changes,
            span,
            states[n - 1].changes.len() as int,
        )
    }
}

/// The names that name nothing in an element: in its bindings, in its model
/// and in its states.
pub open spec fn element_name_errors(
    ids: Seq<Seq<char>>,
    tables: Seq<Seq<DeclarationView>>,
    i: int,
    e: ElementView,
) -> Seq<DiagnosticView> {
    binding_name_errors(ids, tables, i, e.bindings, e.bindings.len() as int) + (match e.repeated {
        Some(model) => name_errors(ids, tables, i, model, e.span),
        None => Seq::empty(),
    }) + state_name_errors(ids, tables, i, e.states, e.span, e.states.len() as int)
}

/// What is wrong with the types of the first `n` bindings.
pub open spec fn binding_type_errors(
    tables: Seq<Seq<DeclarationView>>,
    i: int,
    bindings: Seq<BindingView>,
    n: int,
) -> Seq<DiagnosticView>
    decreases n,
{
    if n <= 0 {
        Seq::empty()
    } else {
        binding_type_errors(tables, i, bindings, n - 1) + type_error(
            tables,
            wanted(tables, i, bindings[n - 1].property as int),
            bindings[n - 1].expression,
            bindings[n - 1].span,
        )
    }
}

/// What is wrong with the types of the first `n` changes of a state.
pub open spec fn change_type_errors(
    tables: Seq<Seq<DeclarationView>>,
    changes: Seq<PropertyChangeView>,
    span: Span,
    n: int,
) -> Seq<DiagnosticView>
    decreases n,
{
    if n <= 0 {
        Seq::empty()
    } else {
        change_type_errors(tables, changes, span, n - 1) + type_error(
            tables,
            wanted(tables, changes[n - 1].element as int, changes[n - 1].property as int),
            changes[n - 1].expression,
            span,
        )
    }
}

/// What is wrong with the types in the first `n` states.
pub open spec fn state_type_errors(
    tables: Seq<Seq<DeclarationView>>,
    states: Seq<StateView>,
    span: Span,
    n: int,
) -> Seq<DiagnosticView>
    decreases n,
{
    if n <= 0 {
        Seq::empty()
    } else {
        state_type_errors(tables, states, span, n - 1) + type_error(
            tables,
            condition_target(),
            states[n - 1].condition,
            span,
        ) + change_type_errors(
            tables,
            states[n - 1].changes,
            span,
            states[n - 1].changes.len() as int,
        )
    }
}

/// What is wrong with the types in an element whose names are bound.
pub open spec fn element_type_errors(tables: Seq<Seq<DeclarationView>>, i: int, e: ElementView) -> Seq<
    DiagnosticView,
> {
    binding_type_errors(tables, i, e.bindings, e.bindings.len() as int) + state_type_errors(
        tables,
        e.states,
        e.span,
        e.states.len() as int,
    )
}

/// What resolution has to say about an element.
pub open spec fn element_errors(
    ids: Seq<Seq<char>>,
    tables: Seq<Seq<DeclarationView>>,
    i: int,
    e: ElementView,
) -> Seq<DiagnosticView> {
    element_name_errors(ids, tables, i, e) + element_type_errors(
        tables,
        i,
        bound_element(ids, tables, i, e),
    )
}

/// Checks an expression against the property it is for: gives the
/// expression as it stays, and reports a wrong type.
fn check(
    tables: &Vec<Vec<PropertyDeclaration>>,
    target: Option<(Type, &str)>,
    e: &Expression,
    span: Span,
    diag: &mut FileDiagnostics,
    Ghost(wanted): Ghost<Option<DeclarationView>>,
) -> (kept: Expression)
    requires
        match target {
            Some((ty, name)) => wanted == Some(DeclarationView { name: name@, property_type: ty }),
            None => wanted.is_none(),
        },
    ensures
        kept == checked(table_views(tables@), wanted, *e),
        final(diag)@.current_path == old(diag)@.current_path,
        final(diag)@.inner == with_all(
            old(diag)@.inner,
            type_error(table_views(tables@), wanted, *e, span),
        ),
{
    let ghost start = diag@.inner;
    proof {
        lemma_with_all_empty(start);
    }
    match target {
        Some((ty, name)) => {
            if contains_invalid(e) {
                Expression::Invalid
            } else if !can_assign(expression_type(tables, e), ty) {
                proof {
                    lemma_with_all_push(
                        start,
                        Seq::empty(),
                        error_at("Cannot assign to "@ + name@, span),
                    );
                    assert(Seq::<DiagnosticView>::empty().push(
                        error_at("Cannot assign to "@ + name@, span),
                    ) =~= seq![error_at("Cannot assign to "@ + name@, span)]);
                }
                diag.push_error(message("Cannot assign to ", name), span);
                Expression::Invalid
            } else {
                clone_expression(e)
            }
        },
        None => Expression::Invalid,
    }
}

/// The declaration of a property of an element, for `check`.
fn target<'a>(tables: &'a Vec<Vec<PropertyDeclaration>>, t: usize, p: usize) -> (found: Option<
    (Type, &'a str),
>)
    ensures
        match found {
            Some((ty, name)) => wanted(table_views(tables@), t as int, p as int) == Some(
                DeclarationView { name: name@, property_type: ty },
            ),
            None => wanted(table_views(tables@), t as int, p as int).is_none(),
        },
{
    if t < tables.len() && p < tables[t].len() {
        assert(table_views(tables@)[t as int][p as int] == tables@[t as int]@[p as int]@);
        Some((tables[t][p].property_type, tables[t][p].name.as_str()))
    } else {
        None
    }
}

/// Reports the names that name nothing in an element.
fn report_element(resolver: &Resolver, element: &Element, diag: &mut FileDiagnostics)
    ensures
        final(diag)@.current_path == old(diag)@.current_path,
        final(diag)@.inner == with_all(
            old(diag)@.inner,
            element_name_errors(
                views(resolver.ids@),
                table_views(resolver.tables@),
                resolver.current as int,
                element@,
            ),
        ),
{
    let ghost ids = views(resolver.ids@);
    let ghost tables = table_views(resolver.tables@);
    let ghost i = resolver.current as int;
    let ghost e = element@;
    let ghost start = diag@.inner;
    proof {
        lemma_with_all_empty(start);
    }
    let mut k: usize = 0;
    while k < element.bindings.len()
        invariant
            ids == views(resolver.ids@),
            tables == table_views(resolver.tables@),
            i == resolver.current as int,
            e == element@,
            k <= element.bindings.len(),
            diag@.current_path == old(diag)@.current_path,
            diag@.inner == with_all(start, binding_name_errors(ids, tables, i, e.bindings, k as int)),
        decreases element.bindings.len() - k,
    {
        assert(e.bindings[k as int] == element.bindings@[k as int]@);
        resolver.report(&element.bindings[k].expression, element.bindings[k].span, diag);
        proof {
            lemma_with_all_concat(
                start,
                binding_name_errors(ids, tables, i, e.bindings, k as int),
                name_errors(ids, tables, i, e.bindings[k as int].expression, e.bindings[k as int].span),
            );
        }
        k += 1;
    }
    let ghost after_bindings = binding_name_errors(ids, tables, i, e.bindings, e.bindings.len() as int);
    match &element.repeated {
        Some(model) => {
            resolver.report(model, element.span, diag);
            proof {
                lemma_with_all_concat(
                    start,
                    after_bindings,
                    name_errors(ids, tables, i, *model, e.span),
                );
            }
        },
        None => {
            assert(after_bindings + Seq::<DiagnosticView>::empty() =~= after_bindings);
        },
    }
    let ghost after_model = after_bindings + (match e.repeated {
        Some(model) => name_errors(ids, tables, i, model, e.span),
        None => Seq::empty(),
    });
    let mut s: usize = 0;
    proof {
        assert(after_model + state_name_errors(ids, tables, i, e.states, e.span, 0)
            =~= after_model);
    }
    while s < element.states.len()
        invariant
            ids == views(resolver.ids@),
            tables == table_views(resolver.tables@),
            i == resolver.current as int,
            e == element@,
            s <= element.states.len(),
            diag@.current_path == old(diag)@.current_path,
            diag@.inner == with_all(
                start,
                after_model + state_name_errors(ids, tables, i, e.states, e.span, s as int),
            ),
        decreases element.states.len() - s,
    {
        let state = &element.states[s];
        assert(e.states[s as int] == state@);
        let ghost before = after_model + state_name_errors(ids, tables, i, e.states, e.span, s as int);
        resolver.report(&state.condition, element.span, diag);
        proof {
            lemma_with_all_concat(
                start,
                before,
                name_errors(ids, tables, i, state.condition, e.span),
            );
        }
        let ghost with_condition = before + name_errors(ids, tables, i, state.condition, e.span);
        let mut c: usize = 0;
        proof {
            assert(with_condition + change_name_errors(ids, tables, i, state@.changes, e.span, 0)
                =~= with_condition);
        }
        while c < state.changes.len()
            invariant
                ids == views(resolver.ids@),
                tables == table_views(resolver.tables@),
                i == resolver.current as int,
                e == element@,
                c <= state.changes.len(),
                diag@.current_path == old(diag)@.current_path,
                diag@.inner == with_all(
                    start,
                    with_condition + change_name_errors(
                        ids,
                        tables,
                        i,
                        state@.changes,
                        e.span,
                        c as int,
                    ),
                ),
            decreases state.changes.len() - c,
        {
            assert(state@.changes[c as int] == state.changes@[c as int]@);
            resolver.report(&state.changes[c].expression, element.span, diag);
            proof {
                let sofar = change_name_errors(ids, tables, i, state@.changes, e.span, c as int);
                let more = name_errors(ids, tables, i, state.changes@[c as int].expression, e.span);
                lemma_with_all_concat(start, with_condition + sofar, more);
                assert((with_condition + sofar) + more =~= with_condition + (sofar + more));
            }
            c += 1;
        }
        proof {
            let all_changes = change_name_errors(
                ids,
                tables,
                i,
                state@.changes,
                e.span,
                state@.changes.len() as int,
            );
            assert(with_condition + all_changes =~= after_model + state_name_errors(
                ids,
                tables,
                i,
                e.states,
                e.span,
                s + 1,
            ));
        }
        s += 1;
    }
}

/// Checks the types in an element whose names are bound.
fn check_element(
    tables: &Vec<Vec<PropertyDeclaration>>,
    i: usize,
    element: &mut Element,
    diag: &mut FileDiagnostics,
)
    ensures
        final(element)@ == checked_element(table_views(tables@), i as int, old(element)@),
        final(diag)@.current_path == old(diag)@.current_path,
        final(diag)@.inner == with_all(
            old(diag)@.inner,
            element_type_errors(table_views(tables@), i as int, old(element)@),
        ),
{
    let ghost all = table_views(tables@);
    let ghost e = element@;
    let ghost start = diag@.inner;
    proof {
        lemma_with_all_empty(start);
    }
    let mut k: usize = 0;
    while k < element.bindings.len()
        invariant
            all == table_views(tables@),
            e == old(element)@,
            k <= element.bindings.len(),
            element.bindings@.len() == e.bindings.len(),
            element.id == old(element).id,
            element.base_type == old(element).base_type,
            element.parent == old(element).parent,
            element.declarations == old(element).declarations,
            element.repeated == old(element).repeated,
            element.states == old(element).states,
            element.transitions == old(element).transitions,
            element.unique_id == old(element).unique_id,
            element.span == old(element).span,
            forall|q: int|
                0 <= q < k ==> (#[trigger] element.bindings@[q])@ == checked_bindings(
                    all,
                    i as int,
                    e.bindings,
                )[q],
            forall|q: int|
                k <= q < e.bindings.len() ==> (#[trigger] element.bindings@[q])@ == e.bindings[q],
            diag@.current_path == old(diag)@.current_path,
            diag@.inner == with_all(start, binding_type_errors(all, i as int, e.bindings, k as int)),
        decreases element.bindings.len() - k,
    {
        let ghost before = element.bindings@;
        let property = element.bindings[k].property;
        let wanted_here = target(tables, i, property);
        let kept = check(
            tables,
            wanted_here,
            &element.bindings[k].expression,
            element.bindings[k].span,
            diag,
            Ghost(wanted(all, i as int, property as int)),
        );
        proof {
            lemma_with_all_concat(
                start,
                binding_type_errors(all, i as int, e.bindings, k as int),
                type_error(
                    all,
                    wanted(all, i as int, property as int),
                    e.bindings[k as int].expression,
                    e.bindings[k as int].span,
                ),
            );
        }
        element.bindings[k].expression = kept;
        proof {
            assert forall|q: int| 0 <= q < k + 1 implies (#[trigger] element.bindings@[q])@
                == checked_bindings(all, i as int, e.bindings)[q] by {
                if q < k {
                    assert(element.bindings@[q] == before[q]);
                } else {
                    assert(before[q]@ == e.bindings[q]);
                }
            }
            assert forall|q: int| k + 1 <= q < e.bindings.len() implies (
            #[trigger] element.bindings@[q])@ == e.bindings[q] by {
                assert(element.bindings@[q] == before[q]);
            }
        }
        k += 1;
    }
    assert(views(element.bindings@) =~= checked_bindings(all, i as int, e.bindings));
    let model = match &element.repeated {
        Some(model) => if contains_invalid(model) {
            Some(Expression::Invalid)
        } else {
            Some(clone_expression(model))
        },
        None => None,
    };
    element.repeated = model;
    let ghost after_bindings = binding_type_errors(all, i as int, e.bindings, e.bindings.len() as int);
    let ghost bindings_done = element.bindings;
    let span = element.span;
    let mut s: usize = 0;
    proof {
        assert(after_bindings + state_type_errors(all, e.states, e.span, 0) =~= after_bindings);
    }
    while s < element.states.len()
        invariant
            all == table_views(tables@),
            e == old(element)@,
            span == e.span,
            s <= element.states.len(),
            element.states@.len() == e.states.len(),
            element.id == old(element).id,
            element.base_type == old(element).base_type,
            element.parent == old(element).parent,
            element.declarations == old(element).declarations,
            element.bindings == bindings_done,
            element.repeated == model,
            element.transitions == old(element).transitions,
            element.unique_id == old(element).unique_id,
            element.span == old(element).span,
            forall|q: int|
                0 <= q < s ==> (#[trigger] element.states@[q])@ == checked_states(all, e.states)[q],
            forall|q: int| s <= q < e.states.len() ==> (#[trigger] element.states@[q])@ == e.states[q],
            diag@.current_path == old(diag)@.current_path,
            diag@.inner == with_all(
                start,
                after_bindings + state_type_errors(all, e.states, e.span, s as int),
            ),
        decreases element.states.len() - s,
    {
        let ghost before = element.states@;
        let ghost sofar = after_bindings + state_type_errors(all, e.states, e.span, s as int);
        let ghost state = e.states[s as int];
        assert(before[s as int]@ == state);
        let condition = check(
            tables,
            Some((Type::Bool, "the condition of a state")),
            &element.states[s].condition,
            span,
            diag,
            Ghost(condition_target()),
        );
        proof {
            lemma_with_all_concat(
                start,
                sofar,
                type_error(all, condition_target(), state.condition, span),
            );
        }
        let ghost with_condition = sofar + type_error(all, condition_target(), state.condition, span);
        element.states[s].condition = condition;
        let ghost conditioned = element.states@;
        let mut c: usize = 0;
        proof {
            assert(with_condition + change_type_errors(all, state.changes, span, 0)
                =~= with_condition);
        }
        while c < element.states[s].changes.len()
            invariant
                all == table_views(tables@),
                s < element.states.len(),
                element.states@.len() == conditioned.len(),
                forall|q: int|
                    0 <= q < conditioned.len() && q != s ==> element.states@[q] == conditioned[q],
                element.states@[s as int].id == conditioned[s as int].id,
                element.states@[s as int].condition == conditioned[s as int].condition,
                element.states@[s as int].changes@.len() == state.changes.len(),
                c <= state.changes.len(),
                element.id == old(element).id,
                element.base_type == old(element).base_type,
                element.parent == old(element).parent,
                element.declarations == old(element).declarations,
                element.bindings == bindings_done,
                element.repeated == model,
                element.transitions == old(element).transitions,
                element.unique_id == old(element).unique_id,
                element.span == old(element).span,
                forall|q: int|
                    0 <= q < c ==> (#[trigger] element.states@[s as int].changes@[q])@
                        == checked_changes(all, state.changes)[q],
                forall|q: int|
                    c <= q < state.changes.len() ==> (
                    #[trigger] element.states@[s as int].changes@[q])@ == state.changes[q],
                diag@.current_path == old(diag)@.current_path,
                diag@.inner == with_all(
                    start,
                    with_condition + change_type_errors(all, state.changes, span, c as int),
                ),
            decreases state.changes.len() - c,
        {
            let ghost inner = element.states@;
            let ghost change = state.changes[c as int];
            assert(inner[s as int].changes@[c as int]@ == change);
            let to_element = element.states[s].changes[c].element;
            let to_property = element.states[s].changes[c].property;
            let wanted_here = target(tables, to_element, to_property);
            let kept = check(
                tables,
                wanted_here,
                &element.states[s].changes[c].expression,
                span,
                diag,
                Ghost(wanted(all, to_element as int, to_property as int)),
            );
            proof {
                let errors = change_type_errors(all, state.changes, span, c as int);
                let more = type_error(
                    all,
                    wanted(all, to_element as int, to_property as int),
                    change.expression,
                    span,
                );
                lemma_with_all_concat(start, with_condition + errors, more);
                assert((with_condition + errors) + more =~= with_condition + (errors + more));
            }
            element.states[s].changes[c].expression = kept;
            proof {
                assert forall|q: int| 0 <= q < c + 1 implies (
                #[trigger] element.states@[s as int].changes@[q])@ == checked_changes(
                    all,
                    state.changes,
                )[q] by {
                    if q < c {
                        assert(element.states@[s as int].changes@[q] == inner[s as int].changes@[q]);
                    }
                }
                assert forall|q: int| c + 1 <= q < state.changes.len() implies (
                #[trigger] element.states@[s as int].changes@[q])@ == state.changes[q] by {
                    assert(element.states@[s as int].changes@[q] == inner[s as int].changes@[q]);
                }
            }
            c += 1;
        }
        proof {
            assert(views(element.states@[s as int].changes@) =~= checked_changes(
                all,
                state.changes,
            ));
            assert forall|q: int| 0 <= q < s + 1 implies (#[trigger] element.states@[q])@
                == checked_states(all, e.states)[q] by {
                if q < s {
                    assert(element.states@[q] == conditioned[q]);
                    assert(conditioned[q] == before[q]);
                }
            }
            assert forall|q: int| s + 1 <= q < e.states.len() implies (
            #[trigger] element.states@[q])@ == e.states[q] by {
                assert(element.states@[q] == conditioned[q]);
                assert(conditioned[q] == before[q]);
            }
            let all_changes = change_type_errors(
                all,
                state.changes,
                span,
                state.changes.len() as int,
            );
            assert(with_condition + all_changes =~= after_bindings + state_type_errors(
                all,
                e.states,
                e.span,
                s + 1,
            ));
        }
        s += 1;
    }
    assert(views(element.states@) =~= checked_states(all, e.states));
}

/// The ids of the elements of a component.
pub open spec fn ids_of(component: ComponentView) -> Seq<Seq<char>> {
    Seq::new(component.elements.len(), |i: int| component.elements[i].id)
}

/// The tables of the roots of the first `n` components.
pub open spec fn document_roots(components: Seq<ComponentView>, n: int) -> Seq<Seq<DeclarationView>>
    decreases n,
{
    if n <= 0 {
        Seq::empty()
    } else {
        document_roots(components, n - 1).push(
            root_of(document_roots(components, n - 1), components[n - 1]),
        )
    }
}

/// The component after resolution.
pub open spec fn resolved_component(roots: Seq<Seq<DeclarationView>>, component: ComponentView) -> ComponentView {
    ComponentView {
        elements: Seq::new(
            component.elements.len(),
            |i: int|
                resolved_element(
                    ids_of(component),
                    element_tables(roots, component.elements),
                    i,
                    component.elements[i],
                ),
        ),
        ..component
    }
}

/// What resolution has to say about the first `n` elements of a component.
pub open spec fn component_resolution_errors(
    roots: Seq<Seq<DeclarationView>>,
    component: ComponentView,
    n: int,
) -> Seq<DiagnosticView>
    decreases n,
{
    if n <= 0 {
        Seq::empty()
    } else {
        component_resolution_errors(roots, component, n - 1) + element_errors(
            ids_of(component),
            element_tables(roots, component.elements),
            n - 1,
            component.elements[n - 1],
        )
    }
}

/// The document after resolution.
pub open spec fn resolved_document(doc: DocumentView) -> DocumentView {
    DocumentView {
        components: Seq::new(
            doc.components.len(),
            |k: int| resolved_component(document_roots(doc.components, k), doc.components[k]),
        ),
        ..doc
    }
}

/// What resolution has to say about the first `n` components.
pub open spec fn resolution_errors(components: Seq<ComponentView>, n: int) -> Seq<DiagnosticView>
    decreases n,
{
    if n <= 0 {
        Seq::empty()
    } else {
        resolution_errors(components, n - 1) + component_resolution_errors(
            document_roots(components, n - 1),
            components[n - 1],
            components[n - 1].elements.len() as int,
        )
    }
}

/// The ids of the elements of a component and the tables of their
/// properties.
pub fn component_tables(component: &Component, roots: &Vec<Vec<PropertyDeclaration>>) -> (out: (
    Vec<String>,
    Vec<Vec<PropertyDeclaration>>,
))
    ensures
        views(out.0@) == ids_of(component@),
        table_views(out.1@) == element_tables(table_views(roots@), component@.elements),
{
    let ghost c = component@;
    let ghost root_views = table_views(roots@);
    let mut ids: Vec<String> = Vec::new();
    let mut tables: Vec<Vec<PropertyDeclaration>> = Vec::new();
    let mut i: usize = 0;
    while i < component.elements.len()
        invariant
            c == component@,
            root_views == table_views(roots@),
            i <= component.elements.len(),
            ids@.len() == i,
            tables@.len() == i,
            forall|k: int| 0 <= k < i ==> (#[trigger] ids@[k])@ == c.elements[k].id,
            forall|k: int|
                0 <= k < i ==> views(#[trigger] tables@[k]@) == table_of(
                    root_views,
                    c.elements[k].base_type,
                    c.elements[k].declarations,
                ),
        decreases component.elements.len() - i,
    {
        let element = &component.elements[i];
        assert(c.elements[i as int] == element@);
        let mut table: Vec<PropertyDeclaration> = match element.base_type {
            Type::Builtin(kind) => builtin_properties(kind),
            Type::Component(k) => {
                if k < roots.len() {
                    clone_table(&roots[k])
                } else {
                    Vec::new()
                }
            },
            _ => Vec::new(),
        };
        let ghost base = views(table@);
        assert(base =~= crate::lowering::root_table(root_views, element.base_type));
        let mut d: usize = 0;
        while d < element.declarations.len()
            invariant
                d <= element.declarations.len(),
                views(table@) == base + views(element.declarations@).subrange(0, d as int),
            decreases element.declarations.len() - d,
        {
            let ghost before = views(table@);
            table.push(
                PropertyDeclaration {
                    name: element.declarations[d].name.clone(),
                    property_type: element.declarations[d].property_type,
                },
            );
            proof {
                assert(views(table@) =~= before.push(element.declarations@[d as int]@));
                assert(views(table@) =~= base + views(element.declarations@).subrange(0, d + 1));
            }
            d += 1;
        }
        assert(views(element.declarations@).subrange(0, d as int) =~= views(element.declarations@));
        ids.push(element.id.clone());
        tables.push(table);
        i += 1;
    }
    proof {
        assert(views(ids@) =~= ids_of(c));
        assert(table_views(tables@) =~= element_tables(root_views, c.elements));
    }
    (ids, tables)
}

/// What a resolver does to an element is to bind its names.
proof fn lemma_visited_is_bound(resolver: Resolver, e: ElementView)
    ensures
        visited_element(e, resolver) == bound_element(
            views(resolver.ids@),
            table_views(resolver.tables@),
            resolver.current as int,
            e,
        ),
{
    let ids = views(resolver.ids@);
    let tables = table_views(resolver.tables@);
    let i = resolver.current as int;
    assert(crate::passes::visited_bindings(e.bindings, resolver) =~= bound_bindings(
        ids,
        tables,
        i,
        e.bindings,
    ));
    assert forall|k: int| 0 <= k < e.states.len() implies crate::passes::visited_changes(
        e.states[k].changes,
        resolver,
    ) == bound_changes(ids, tables, i, e.states[k].changes) by {
        assert(crate::passes::visited_changes(e.states[k].changes, resolver) =~= bound_changes(
            ids,
            tables,
            i,
            e.states[k].changes,
        ));
    }
    assert(crate::passes::visited_states(e.states, resolver) =~= bound_states(
        ids,
        tables,
        i,
        e.states,
    ));
}

/// Resolves the expressions of one component. `roots` holds the tables of
/// the roots of the components before it.
pub fn resolve_component(
    component: &mut Component,
    roots: &Vec<Vec<PropertyDeclaration>>,
    diag: &mut FileDiagnostics,
) -> (root: Vec<PropertyDeclaration>)
    ensures
        final(component)@ == resolved_component(table_views(roots@), old(component)@),
        views(root@) == root_of(table_views(roots@), old(component)@),
        final(diag)@.current_path == old(diag)@.current_path,
        final(diag)@.inner == with_all(
            old(diag)@.inner,
            component_resolution_errors(
                table_views(roots@),
                old(component)@,
                old(component)@.elements.len() as int,
            ),
        ),
{
    let ghost c = component@;
    let ghost root_views = table_views(roots@);
    let ghost start = diag@.inner;
    let (ids, tables) = component_tables(component, roots);
    let ghost names = ids_of(c);
    let ghost all = element_tables(root_views, c.elements);
    let mut i: usize = 0;
    proof {
        lemma_with_all_empty(start);
    }
    while i < component.elements.len()
        invariant
            c == old(component)@,
            names == views(ids@),
            all == table_views(tables@),
            names == ids_of(c),
            all == element_tables(root_views, c.elements),
            component.id == old(component).id,
            component.repeaters == old(component).repeaters,
            component.elements@.len() == c.elements.len(),
            i <= component.elements.len(),
            forall|k: int|
                0 <= k < i ==> (#[trigger] component.elements@[k])@ == resolved_element(
                    names,
                    all,
                    k,
                    c.elements[k],
                ),
            forall|k: int|
                i <= k < c.elements.len() ==> (#[trigger] component.elements@[k])@ == c.elements[k],
            diag@.current_path == old(diag)@.current_path,
            diag@.inner == with_all(start, component_resolution_errors(root_views, c, i as int)),
        decreases component.elements.len() - i,
    {
        let ghost before = component.elements@;
        let ghost e = c.elements[i as int];
        assert(before[i as int]@ == e);
        let resolver = Resolver { ids: &ids, tables: &tables, current: i };
        report_element(&resolver, &component.elements[i], diag);
        component.elements[i].visit_expressions(&resolver);
        proof {
            lemma_visited_is_bound(resolver, e);
        }
        let ghost mid = diag@.inner;
        check_element(&tables, i, &mut component.elements[i], diag);
        proof {
            lemma_with_all_concat(
                start,
                component_resolution_errors(root_views, c, i as int),
                element_name_errors(names, all, i as int, e),
            );
            lemma_with_all_concat(
                start,
                component_resolution_errors(root_views, c, i as int) + element_name_errors(
                    names,
                    all,
                    i as int,
                    e,
                ),
                element_type_errors(all, i as int, bound_element(names, all, i as int, e)),
            );
            assert((component_resolution_errors(root_views, c, i as int) + element_name_errors(
                names,
                all,
                i as int,
                e,
            )) + element_type_errors(all, i as int, bound_element(names, all, i as int, e))
                =~= component_resolution_errors(root_views, c, i + 1));
            assert forall|k: int| 0 <= k < i + 1 implies (#[trigger] component.elements@[k])@
                == resolved_element(names, all, k, c.elements[k]) by {
                if k < i {
                    assert(component.elements@[k] == before[k]);
                }
            }
            assert forall|k: int| i + 1 <= k < c.elements.len() implies (
            #[trigger] component.elements@[k])@ == c.elements[k] by {
                assert(component.elements@[k] == before[k]);
            }
        }
        i += 1;
    }
    proof {
        assert(component@.elements =~= resolved_component(root_views, c).elements);
    }
    let root: Vec<PropertyDeclaration> = if tables.len() > 0 {
        clone_table(&tables[0])
    } else {
        Vec::new()
    };
    proof {
        assert(table_views(tables@).len() == c.elements.len());
        if tables@.len() > 0 {
            assert(table_views(tables@)[0] == views(tables@[0]@));
            assert(all[0] == table_of(
                root_views,
                c.elements[0].base_type,
                c.elements[0].declarations,
            ));
        } else {
            assert(views(root@) =~= Seq::<DeclarationView>::empty());
        }
    }
    root
}

/// Resolves the expressions of a document: binds every name and checks
/// every type. What cannot be resolved is reported and replaced by
/// `Invalid`.
pub fn resolve_expressions(doc: &mut Document, diag: &mut FileDiagnostics)
    ensures
        final(doc)@ == resolved_document(old(doc)@),
        final(diag)@.current_path == old(diag)@.current_path,
        final(diag)@.inner == with_all(
            old(diag)@.inner,
            resolution_errors(old(doc)@.components, old(doc)@.components.len() as int),
        ),
{
    let ghost start = diag@.inner;
    let ghost d = doc@;
    let mut roots: Vec<Vec<PropertyDeclaration>> = Vec::new();
    let mut k: usize = 0;
    proof {
        lemma_with_all_empty(start);
        assert(table_views(roots@) =~= document_roots(d.components, 0));
    }
    while k < doc.components.len()
        invariant
            d == old(doc)@,
            doc.root_component == old(doc).root_component,
            doc.path == old(doc).path,
            doc.embedded_resources == old(doc).embedded_resources,
            doc.components@.len() == d.components.len(),
            k <= doc.components.len(),
            table_views(roots@) == document_roots(d.components, k as int),
            forall|q: int|
                0 <= q < k ==> (#[trigger] doc.components@[q])@ == resolved_component(
                    document_roots(d.components, q),
                    d.components[q],
                ),
            forall|q: int|
                k <= q < d.components.len() ==> (#[trigger] doc.components@[q])@ == d.components[q],
            diag@.current_path == old(diag)@.current_path,
            diag@.inner == with_all(start, resolution_errors(d.components, k as int)),
        decreases doc.components.len() - k,
    {
        let ghost before = doc.components@;
        assert(before[k as int]@ == d.components[k as int]);
        let root = resolve_component(&mut doc.components[k], &roots, diag);
        proof {
            lemma_with_all_concat(
                start,
                resolution_errors(d.components, k as int),
                component_resolution_errors(
                    document_roots(d.components, k as int),
                    d.components[k as int],
                    d.components[k as int].elements.len() as int,
                ),
            );
            assert forall|q: int| 0 <= q < k + 1 implies (#[trigger] doc.components@[q])@
                == resolved_component(document_roots(d.components, q), d.components[q]) by {
                if q < k {
                    assert(doc.components@[q] == before[q]);
                }
            }
            assert forall|q: int| k + 1 <= q < d.components.len() implies (
            #[trigger] doc.components@[q])@ == d.components[q] by {
                assert(doc.components@[q] == before[q]);
            }
        }
        let ghost roots_before = table_views(roots@);
        roots.push(root);
        proof {
            assert(table_views(roots@) =~= roots_before.push(
                root_of(roots_before, d.components[k as int]),
            ));
        }
        k += 1;
    }
    proof {
        assert(doc@.components =~= resolved_document(d).components);
    }
}

} // verus!

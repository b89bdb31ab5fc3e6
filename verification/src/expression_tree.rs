//! The expression language of property bindings and what an expression means.
//!
//! An expression is evaluated against a *valuation*: for every property slot
//! of an instance either the value the slot has or nothing, when the slot has
//! no value yet. Evaluation is strict: an expression that reads a slot
//! without a value has no value itself.

use vstd::prelude::*;
use crate::eval::{
    binary_result, default_value, is_true, unary_result, BinaryOperator, UnaryOperator, ValueModel,
};
use crate::typeregister::Type;

verus! {

/// An expression tree as it is attached to a property.
#[derive(Debug)]
pub enum Expression {
    /// What is left of an expression that could not be resolved.
    Invalid,
    /// A name as it was written, not yet bound to a declaration. `scope` is
    /// the qualifying element id, empty when the name was written alone.
    Identifier { scope: String, name: String },
    StringLiteral(String),
    NumberLiteral(i64),
    BoolLiteral(bool),
    ColorLiteral(u32),
    /// The location of an image, as written.
    ResourceReference(String),
    /// A property of an element of the enclosing component: the element by
    /// its position in the component, the property by its position among the
    /// properties of the element.
    PropertyReference { element: usize, property: usize },
    /// A signal of an element of the enclosing component, in the same way.
    SignalReference { element: usize, property: usize },
    /// A resource that is embedded in the program, by its number.
    EmbeddedResource(usize),
    /// The value that a property of the given type has when nothing was
    /// written into it.
    Default(Type),
    /// The position of the enclosing repeated item in its model.
    RepeaterIndexReference,
    /// The model datum of the enclosing repeated item.
    RepeaterModelReference,
    /// A property of the instance, by the slot the layout gave it.
    PropertySlot(usize),
    /// A signal of the instance, by its slot. As the binding of a signal it
    /// says that the signal hands on to that one.
    SignalSlot(usize),
    BinaryExpression { lhs: Box<Expression>, rhs: Box<Expression>, op: BinaryOperator },
    UnaryExpression { sub: Box<Expression>, op: UnaryOperator },
    Condition {
        condition: Box<Expression>,
        true_expr: Box<Expression>,
        false_expr: Box<Expression>,
    },
}

/// For each slot the value it has, if it has one.
pub type Valuation = Seq<Option<ValueModel>>;

/// The value of `e` under `env`, or `None` when evaluating `e` reads a slot
/// that has no value. A slot beyond the valuation reads as `Void`, as does
/// every form that is not a literal, a slot or an operator.
pub open spec fn eval_with(e: Expression, env: Valuation) -> Option<ValueModel>
    decreases e,
{
    match e {
        Expression::StringLiteral(s) => Some(ValueModel::String(s@)),
        Expression::NumberLiteral(n) => Some(ValueModel::Number(n as int)),
        Expression::BoolLiteral(b) => Some(ValueModel::Bool(b)),
        Expression::ColorLiteral(c) => Some(ValueModel::Color(c)),
        Expression::ResourceReference(s) => Some(ValueModel::Resource(s@)),
        Expression::EmbeddedResource(i) => Some(ValueModel::EmbeddedResource(i)),
        Expression::Default(ty) => Some(default_value(ty)),
        Expression::PropertySlot(slot) => if slot < env.len() {
            env[slot as int]
        } else {
            Some(ValueModel::Void)
        },
        Expression::BinaryExpression { lhs, rhs, op } => match eval_with(*lhs, env) {
            None => None,
            Some(a) => match eval_with(*rhs, env) {
                None => None,
                Some(b) => Some(binary_result(op, a, b)),
            },
        },
        Expression::UnaryExpression { sub, op } => match eval_with(*sub, env) {
            None => None,
            Some(a) => Some(unary_result(op, a)),
        },
        Expression::Condition { condition, true_expr, false_expr } => match eval_with(
            *condition,
            env,
        ) {
            None => None,
            Some(c) => if is_true(c) {
                eval_with(*true_expr, env)
            } else {
                eval_with(*false_expr, env)
            },
        },
        _ => Some(ValueModel::Void),
    }
}

/// The slots that evaluating `e` under `env` reads. Only the branch of a
/// conditional that is taken counts, and nothing after a read that fails.
pub open spec fn reads(e: Expression, env: Valuation) -> Set<int>
    decreases e,
{
    match e {
        Expression::PropertySlot(slot) => if slot < env.len() {
            set![slot as int]
        } else {
            Set::empty()
        },
        Expression::BinaryExpression { lhs, rhs, op } => match eval_with(*lhs, env) {
            None => reads(*lhs, env),
            Some(_) => reads(*lhs, env).union(reads(*rhs, env)),
        },
        Expression::UnaryExpression { sub, op } => reads(*sub, env),
        Expression::Condition { condition, true_expr, false_expr } => match eval_with(
            *condition,
            env,
        ) {
            None => reads(*condition, env),
            Some(c) => if is_true(c) {
                reads(*condition, env).union(reads(*true_expr, env))
            } else {
                reads(*condition, env).union(reads(*false_expr, env))
            },
        },
        _ => Set::empty(),
    }
}

/// The number of nodes of an expression.
pub open spec fn size(e: Expression) -> nat
    decreases e,
{
    match e {
        Expression::BinaryExpression { lhs, rhs, op } => 1 + size(*lhs) + size(*rhs),
        Expression::UnaryExpression { sub, op } => 1 + size(*sub),
        Expression::Condition { condition, true_expr, false_expr } => 1 + size(*condition) + size(
            *true_expr,
        ) + size(*false_expr),
        _ => 1,
    }
}

/// Every slot that an evaluation reads lies within the valuation.
pub proof fn lemma_reads_in_range(e: Expression, env: Valuation)
    ensures
        forall|q: int| reads(e, env).contains(q) ==> 0 <= q < env.len(),
    decreases e,
{
    match e {
        Expression::BinaryExpression { lhs, rhs, op } => {
            lemma_reads_in_range(*lhs, env);
            lemma_reads_in_range(*rhs, env);
            assert(reads(e, env).subset_of(reads(*lhs, env).union(reads(*rhs, env))));
        },
        Expression::UnaryExpression { sub, op } => {
            lemma_reads_in_range(*sub, env);
            assert(reads(e, env) == reads(*sub, env));
        },
        Expression::Condition { condition, true_expr, false_expr } => {
            lemma_reads_in_range(*condition, env);
            lemma_reads_in_range(*true_expr, env);
            lemma_reads_in_range(*false_expr, env);
            assert(reads(e, env).subset_of(
                reads(*condition, env).union(reads(*true_expr, env)).union(
                    reads(*false_expr, env),
                ),
            ));
        },
        Expression::PropertySlot(slot) => {
            assert(reads(e, env).subset_of(set![slot as int]));
        },
        _ => {
            assert(reads(e, env) == Set::<int>::empty());
        },
    }
}

/// An evaluation that has a value has read only slots that have one.
pub proof fn lemma_reads_have_values(e: Expression, env: Valuation)
    requires
        eval_with(e, env).is_some(),
    ensures
        forall|q: int| reads(e, env).contains(q) ==> 0 <= q < env.len() && env[q].is_some(),
    decreases e,
{
    match e {
        Expression::BinaryExpression { lhs, rhs, op } => {
            lemma_reads_have_values(*lhs, env);
            lemma_reads_have_values(*rhs, env);
            assert(reads(e, env) == reads(*lhs, env).union(reads(*rhs, env)));
        },
        Expression::UnaryExpression { sub, op } => {
            lemma_reads_have_values(*sub, env);
            assert(reads(e, env) == reads(*sub, env));
        },
        Expression::Condition { condition, true_expr, false_expr } => {
            lemma_reads_have_values(*condition, env);
            if is_true(eval_with(*condition, env).unwrap()) {
                lemma_reads_have_values(*true_expr, env);
                assert(reads(e, env) == reads(*condition, env).union(reads(*true_expr, env)));
            } else {
                lemma_reads_have_values(*false_expr, env);
                assert(reads(e, env) == reads(*condition, env).union(reads(*false_expr, env)));
            }
        },
        Expression::PropertySlot(slot) => {
            assert(reads(e, env).subset_of(set![slot as int]));
        },
        _ => {
            assert(reads(e, env) == Set::<int>::empty());
        },
    }
}

/// An evaluation depends on the valuation only through the slots it reads.
pub proof fn lemma_eval_frame(e: Expression, env: Valuation, other: Valuation)
    requires
        env.len() == other.len(),
        forall|q: int| reads(e, env).contains(q) ==> other[q] == env[q],
    ensures
        eval_with(e, other) == eval_with(e, env),
        reads(e, other) == reads(e, env),
    decreases e,
{
    match e {
        Expression::BinaryExpression { lhs, rhs, op } => {
            lemma_eval_frame(*lhs, env, other);
            if eval_with(*lhs, env).is_some() {
                lemma_eval_frame(*rhs, env, other);
            }
        },
        Expression::UnaryExpression { sub, op } => {
            lemma_eval_frame(*sub, env, other);
        },
        Expression::Condition { condition, true_expr, false_expr } => {
            lemma_eval_frame(*condition, env, other);
            match eval_with(*condition, env) {
                None => {},
                Some(c) => {
                    if is_true(c) {
                        lemma_eval_frame(*true_expr, env, other);
                    } else {
                        lemma_eval_frame(*false_expr, env, other);
                    }
                },
            }
        },
        _ => {},
    }
}

/// `other` gives every slot that has a value in `env` the same value.
pub open spec fn extends(env: Valuation, other: Valuation) -> bool {
    &&& env.len() == other.len()
    &&& forall|q: int| 0 <= q < env.len() && (#[trigger] env[q]).is_some() ==> other[q] == env[q]
}

/// An evaluation that has a value keeps it when more slots get values.
pub proof fn lemma_eval_extends(e: Expression, env: Valuation, other: Valuation)
    requires
        extends(env, other),
        eval_with(e, env).is_some(),
    ensures
        eval_with(e, other) == eval_with(e, env),
        reads(e, other) == reads(e, env),
{
    lemma_reads_have_values(e, env);
    lemma_eval_frame(e, env, other);
}

/// The two valuations give no slot two different values.
pub open spec fn compatible(env: Valuation, other: Valuation) -> bool {
    &&& env.len() == other.len()
    &&& forall|q: int|
        0 <= q < env.len() && (#[trigger] env[q]).is_some() && other[q].is_some() ==> other[q]
            == env[q]
}

/// Under compatible valuations an expression cannot have two different
/// values.
pub proof fn lemma_eval_compatible(e: Expression, env: Valuation, other: Valuation)
    requires
        compatible(env, other),
        eval_with(e, env).is_some(),
        eval_with(e, other).is_some(),
    ensures
        eval_with(e, other) == eval_with(e, env),
        reads(e, other) == reads(e, env),
    decreases e,
{
    match e {
        Expression::BinaryExpression { lhs, rhs, op } => {
            lemma_eval_compatible(*lhs, env, other);
            lemma_eval_compatible(*rhs, env, other);
        },
        Expression::UnaryExpression { sub, op } => {
            lemma_eval_compatible(*sub, env, other);
        },
        Expression::Condition { condition, true_expr, false_expr } => {
            lemma_eval_compatible(*condition, env, other);
            if is_true(eval_with(*condition, env).unwrap()) {
                lemma_eval_compatible(*true_expr, env, other);
            } else {
                lemma_eval_compatible(*false_expr, env, other);
            }
        },
        _ => {},
    }
}

/// A copy of an expression.
pub fn clone_expression(e: &Expression) -> (r: Expression)
    ensures
        r == *e,
    decreases *e,
{
    match e {
        Expression::Invalid => Expression::Invalid,
        Expression::Identifier { scope, name } => Expression::Identifier {
            scope: scope.clone(),
            name: name.clone(),
        },
        Expression::StringLiteral(s) => Expression::StringLiteral(s.clone()),
        Expression::NumberLiteral(n) => Expression::NumberLiteral(*n),
        Expression::BoolLiteral(b) => Expression::BoolLiteral(*b),
        Expression::ColorLiteral(c) => Expression::ColorLiteral(*c),
        Expression::ResourceReference(s) => Expression::ResourceReference(s.clone()),
        Expression::PropertyReference { element, property } => Expression::PropertyReference {
            element: *element,
            property: *property,
        },
        Expression::SignalReference { element, property } => Expression::SignalReference {
            element: *element,
            property: *property,
        },
        Expression::EmbeddedResource(id) => Expression::EmbeddedResource(*id),
        Expression::Default(ty) => Expression::Default(*ty),
        Expression::RepeaterIndexReference => Expression::RepeaterIndexReference,
        Expression::RepeaterModelReference => Expression::RepeaterModelReference,
        Expression::PropertySlot(slot) => Expression::PropertySlot(*slot),
        Expression::SignalSlot(slot) => Expression::SignalSlot(*slot),
        Expression::BinaryExpression { lhs, rhs, op } => Expression::BinaryExpression {
            lhs: Box::new(clone_expression(lhs)),
            rhs: Box::new(clone_expression(rhs)),
            op: *op,
        },
        Expression::UnaryExpression { sub, op } => Expression::UnaryExpression {
            sub: Box::new(clone_expression(sub)),
            op: *op,
        },
        Expression::Condition { condition, true_expr, false_expr } => Expression::Condition {
            condition: Box::new(clone_expression(condition)),
            true_expr: Box::new(clone_expression(true_expr)),
            false_expr: Box::new(clone_expression(false_expr)),
        },
    }
}

} // verus!

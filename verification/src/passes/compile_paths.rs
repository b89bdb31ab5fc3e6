//! Works out ahead of time what the constant expressions of path items
//! come to, so that nothing is left to compute for them when the path is
//! drawn.

use vstd::prelude::*;
use crate::eval::{apply_binary, apply_unary, default_for, Value, ValueModel};
use crate::expression_tree::{clone_expression, eval_with, Expression};
use crate::object_tree::{BindingView, Component, ComponentView, ElementView};
use crate::typeregister::{ItemKind, Type};

verus! {

/// Whether the expression is made of literals and operators alone.
pub open spec fn is_constant(e: Expression) -> bool
    decreases e,
{
    match e {
        Expression::StringLiteral(_) => true,
        Expression::NumberLiteral(_) => true,
        Expression::BoolLiteral(_) => true,
        Expression::ColorLiteral(_) => true,
        Expression::Default(_) => true,
        Expression::BinaryExpression { lhs, rhs, op } => is_constant(*lhs) && is_constant(*rhs),
        Expression::UnaryExpression { sub, op } => is_constant(*sub),
        Expression::Condition { condition, true_expr, false_expr } => is_constant(*condition)
            && is_constant(*true_expr) && is_constant(*false_expr),
        _ => false,
    }
}

/// A constant expression has its value whatever the properties hold.
pub proof fn lemma_constant_value(e: Expression, env: Seq<Option<ValueModel>>)
    requires
        is_constant(e),
    ensures
        eval_with(e, env) == eval_with(e, Seq::empty()),
        eval_with(e, env).is_some(),
    decreases e,
{
    match e {
        Expression::BinaryExpression { lhs, rhs, op } => {
            lemma_constant_value(*lhs, env);
            lemma_constant_value(*rhs, env);
        },
        Expression::UnaryExpression { sub, op } => {
            lemma_constant_value(*sub, env);
        },
        Expression::Condition { condition, true_expr, false_expr } => {
            lemma_constant_value(*condition, env);
            lemma_constant_value(*true_expr, env);
            lemma_constant_value(*false_expr, env);
        },
        _ => {},
    }
}

/// The literal that stands for a value, for the values that have one.
pub open spec fn literal_of(v: ValueModel) -> Option<Expression> {
    match v {
        ValueModel::Number(n) => if i64::MIN <= n <= i64::MAX {
            Some(Expression::NumberLiteral(n as i64))
        } else {
            None
        },
        ValueModel::Bool(b) => Some(Expression::BoolLiteral(b)),
        ValueModel::Color(c) => Some(Expression::ColorLiteral(c)),
        _ => None,
    }
}

/// The expression worked out: a constant expression whose value has a
/// literal is that literal; every other expression is as it was.
pub open spec fn folded(e: Expression) -> Expression {
    if is_constant(e) {
        match literal_of(eval_with(e, Seq::empty()).unwrap()) {
            Some(literal) => literal,
            None => e,
        }
    } else {
        e
    }
}

/// Working out an expression does not change its value.
pub proof fn lemma_folded_value(e: Expression, env: Seq<Option<ValueModel>>)
    ensures
        eval_with(folded(e), env) == eval_with(e, env),
{
    if is_constant(e) {
        lemma_constant_value(e, env);
    }
}

/// Whether the expression is made of literals and operators alone.
pub fn constant(e: &Expression) -> (ok: bool)
    ensures
        ok == is_constant(*e),
    decreases *e,
{
    match e {
        Expression::StringLiteral(_) => true,
        Expression::NumberLiteral(_) => true,
        Expression::BoolLiteral(_) => true,
        Expression::ColorLiteral(_) => true,
        Expression::Default(_) => true,
        Expression::BinaryExpression { lhs, rhs, op } => constant(lhs) && constant(rhs),
        Expression::UnaryExpression { sub, op } => constant(sub),
        Expression::Condition { condition, true_expr, false_expr } => constant(condition)
            && constant(true_expr) && constant(false_expr),
        _ => false,
    }
}

/// The value of a constant expression.
pub fn eval_constant(e: &Expression) -> (v: Value)
    requires
        is_constant(*e),
    ensures
        Some(v@) == eval_with(*e, Seq::empty()),
    decreases *e,
{
    match e {
        Expression::StringLiteral(s) => Value::String(s.clone()),
        Expression::NumberLiteral(n) => Value::Number(*n),
        Expression::BoolLiteral(b) => Value::Bool(*b),
        Expression::ColorLiteral(c) => Value::Color(*c),
        Expression::Default(ty) => default_for(*ty),
        Expression::BinaryExpression { lhs, rhs, op } => {
            let a = eval_constant(lhs);
            let b = eval_constant(rhs);
            apply_binary(*op, &a, &b)
        },
        Expression::UnaryExpression { sub, op } => {
            let a = eval_constant(sub);
            apply_unary(*op, &a)
        },
        Expression::Condition { condition, true_expr, false_expr } => {
            let c = eval_constant(condition);
            match c {
                Value::Bool(true) => eval_constant(true_expr),
                _ => eval_constant(false_expr),
            }
        },
        _ => Value::Void,
    }
}

/// Works out an expression.
pub fn fold(e: &Expression) -> (r: Expression)
    ensures
        r == folded(*e),
{
    if constant(e) {
        match eval_constant(e) {
            Value::Number(n) => Expression::NumberLiteral(n),
            Value::Bool(b) => Expression::BoolLiteral(b),
            Value::Color(c) => Expression::ColorLiteral(c),
            _ => clone_expression(e),
        }
    } else {
        clone_expression(e)
    }
}

/// The element with its paths compiled: the bindings of a path item are
/// worked out; every other element is as it was.
pub open spec fn compiled_element(e: ElementView) -> ElementView {
    if e.base_type == Type::Builtin(ItemKind::Path) {
        ElementView {
            bindings: Seq::new(
                e.bindings.len(),
                |k: int|
                    BindingView { expression: folded(e.bindings[k].expression), ..e.bindings[k] },
            ),
            ..e
        }
    } else {
        e
    }
}

/// The component with its paths compiled.
pub open spec fn compiled_paths(c: ComponentView) -> ComponentView {
    ComponentView {
        elements: Seq::new(c.elements.len(), |i: int| compiled_element(c.elements[i])),
        ..c
    }
}

/// Compiles the paths of a component.
pub fn compile_paths(component: &mut Component)
    ensures
        final(component)@ == compiled_paths(old(component)@),
{
    let ghost c = component@;
    let mut i: usize = 0;
    while i < component.elements.len()
        invariant
            c == old(component)@,
            component.id == old(component).id,
            component.repeaters == old(component).repeaters,
            component.elements@.len() == c.elements.len(),
            i <= component.elements.len(),
            forall|q: int|
                0 <= q < i ==> (#[trigger] component.elements@[q])@ == compiled_element(
                    c.elements[q],
                ),
            forall|q: int|
                i <= q < c.elements.len() ==> (#[trigger] component.elements@[q])@ == c.elements[q],
        decreases component.elements.len() - i,
    {
        let ghost before = component.elements@;
        let ghost e = c.elements[i as int];
        assert(before[i as int]@ == e);
        if component.elements[i].base_type == Type::Builtin(ItemKind::Path) {
            let mut k: usize = 0;
            while k < component.elements[i].bindings.len()
                invariant
                    i < component.elements.len(),
                    component.id == old(component).id,
                    component.repeaters == old(component).repeaters,
                    component.elements@.len() == before.len(),
                    forall|q: int|
                        0 <= q < before.len() && q != i ==> component.elements@[q] == before[q],
                    component.elements@[i as int].id == before[i as int].id,
                    component.elements@[i as int].base_type == before[i as int].base_type,
                    component.elements@[i as int].parent == before[i as int].parent,
                    component.elements@[i as int].declarations == before[i as int].declarations,
                    component.elements@[i as int].repeated == before[i as int].repeated,
                    component.elements@[i as int].states == before[i as int].states,
                    component.elements@[i as int].transitions == before[i as int].transitions,
                    component.elements@[i as int].unique_id == before[i as int].unique_id,
                    component.elements@[i as int].span == before[i as int].span,
                    component.elements@[i as int].bindings@.len() == e.bindings.len(),
                    k <= e.bindings.len(),
                    forall|q: int|
                        0 <= q < k ==> (#[trigger] component.elements@[i as int].bindings@[q])@ == (
                        BindingView { expression: folded(e.bindings[q].expression), ..e.bindings[q] }),
                    forall|q: int|
                        k <= q < e.bindings.len() ==> (
                        #[trigger] component.elements@[i as int].bindings@[q])@ == e.bindings[q],
                decreases e.bindings.len() - k,
            {
                let ghost inner = component.elements@;
                assert(inner[i as int].bindings@[k as int]@ == e.bindings[k as int]);
                let worked = fold(&component.elements[i].bindings[k].expression);
                component.elements[i].bindings[k].expression = worked;
                proof {
                    assert forall|q: int| 0 <= q < k + 1 implies (
                    #[trigger] component.elements@[i as int].bindings@[q])@ == (BindingView {
                        expression: folded(e.bindings[q].expression),
                        ..e.bindings[q]
                    }) by {
                        if q < k {
                            assert(component.elements@[i as int].bindings@[q]
                                == inner[i as int].bindings@[q]);
                        }
                    }
                    assert forall|q: int| k + 1 <= q < e.bindings.len() implies (
                    #[trigger] component.elements@[i as int].bindings@[q])@ == e.bindings[q] by {
                        assert(component.elements@[i as int].bindings@[q]
                            == inner[i as int].bindings@[q]);
                    }
                }
                k += 1;
            }
            proof {
                assert(component.elements@[i as int]@.bindings =~= compiled_element(e).bindings);
            }
        }
        proof {
            assert forall|q: int| 0 <= q < i + 1 implies (#[trigger] component.elements@[q])@
                == compiled_element(c.elements[q]) by {
                if q < i {
                    assert(component.elements@[q] == before[q]);
                }
            }
            assert forall|q: int| i + 1 <= q < c.elements.len() implies (
            #[trigger] component.elements@[q])@ == c.elements[q] by {
                assert(component.elements@[q] == before[q]);
            }
        }
        i += 1;
    }
    assert(component@.elements =~= compiled_paths(c).elements);
}

} // verus!

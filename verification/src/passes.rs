//! The passes that lower a document, and what they share: a way to apply a
//! change to every expression that a part of the document holds.

use vstd::prelude::*;
use crate::expression_tree::Expression;
use crate::names::views;
use crate::object_tree::{
    Binding,
    BindingView,
    Component,
    ComponentView,
    Element,
    ElementView,
    PropertyChangeView,
    RepeaterView,
    State,
    StateView,
};

pub mod collect_resources;
pub mod compile_paths;
pub mod inlining;
pub mod lower_layout;
pub mod lower_states;
pub mod move_declarations;
pub mod repeater_component;
pub mod resolving;
pub mod unique_id;

verus! {

/// A change that is applied to expressions: what becomes of an expression
/// depends on the expression alone.
pub trait ExpressionRewriter {
    /// What becomes of `e`.
    spec fn rewritten(&self, e: Expression) -> Expression;

    /// Makes what becomes of `e`.
    fn rewrite(&self, e: &Expression) -> (r: Expression)
        ensures
            r == self.rewritten(*e),
    ;
}

/// A part of the document that holds expressions, to which changes of the
/// kind `R` can be applied.
pub trait ExpressionFieldsVisitor<R: ExpressionRewriter>: View + Sized {
    /// The part after the change was applied to each expression it holds.
    spec fn visited(part: Self::V, visitor: R) -> Self::V;

    /// Applies the change to each expression that the part holds.
    fn visit_expressions(&mut self, visitor: &R)
        ensures
            final(self)@ == Self::visited(old(self)@, *visitor),
    ;
}

/// The bindings with the change applied to their expressions.
pub open spec fn visited_bindings<R: ExpressionRewriter>(bindings: Seq<BindingView>, visitor: R) -> Seq<
    BindingView,
> {
    Seq::new(
        bindings.len(),
        |k: int| BindingView { expression: visitor.rewritten(bindings[k].expression), ..bindings[k] },
    )
}

/// The changes of a state with the change applied to their expressions.
pub open spec fn visited_changes<R: ExpressionRewriter>(
    changes: Seq<PropertyChangeView>,
    visitor: R,
) -> Seq<PropertyChangeView> {
    Seq::new(
        changes.len(),
        |k: int|
            PropertyChangeView { expression: visitor.rewritten(changes[k].expression), ..changes[k] },
    )
}

/// The states with the change applied to their conditions and to the
/// expressions of their changes.
pub open spec fn visited_states<R: ExpressionRewriter>(states: Seq<StateView>, visitor: R) -> Seq<
    StateView,
> {
    Seq::new(
        states.len(),
        |k: int|
            StateView {
                condition: visitor.rewritten(states[k].condition),
                changes: visited_changes(states[k].changes, visitor),
                ..states[k]
            },
    )
}

/// The model with the change applied, if there is a model.
pub open spec fn visited_model<R: ExpressionRewriter>(model: Option<Expression>, visitor: R) -> Option<
    Expression,
> {
    match model {
        Some(e) => Some(visitor.rewritten(e)),
        None => None,
    }
}

/// The element with the change applied to the expressions of its bindings,
/// to its model and to its states.
pub open spec fn visited_element<R: ExpressionRewriter>(element: ElementView, visitor: R) -> ElementView {
    ElementView {
        bindings: visited_bindings(element.bindings, visitor),
        repeated: visited_model(element.repeated, visitor),
        states: visited_states(element.states, visitor),
        ..element
    }
}

/// The component with the change applied to its elements and to the models
/// of its repeaters.
pub open spec fn visited_component<R: ExpressionRewriter>(component: ComponentView, visitor: R) -> ComponentView {
    ComponentView {
        elements: Seq::new(
            component.elements.len(),
            |i: int| visited_element(component.elements[i], visitor),
        ),
        repeaters: Seq::new(
            component.repeaters.len(),
            |r: int|
                RepeaterView {
                    model: visitor.rewritten(component.repeaters[r].model),
                    ..component.repeaters[r]
                },
        ),
        ..component
    }
}

/// Applies the change to the expressions of the bindings.
pub fn visit_bindings<R: ExpressionRewriter>(bindings: &mut Vec<Binding>, visitor: &R)
    ensures
        views(final(bindings)@) == visited_bindings(views(old(bindings)@), *visitor),
{
    let ghost start = views(bindings@);
    let mut k: usize = 0;
    while k < bindings.len()
        invariant
            k <= bindings.len(),
            bindings@.len() == start.len(),
            forall|i: int|
                0 <= i < k ==> (#[trigger] bindings@[i])@ == visited_bindings(start, *visitor)[i],
            forall|i: int| k <= i < bindings@.len() ==> (#[trigger] bindings@[i])@ == start[i],
        decreases bindings.len() - k,
    {
        let ghost before = bindings@;
        let changed = visitor.rewrite(&bindings[k].expression);
        bindings[k].expression = changed;
        proof {
            assert forall|i: int| 0 <= i < k + 1 implies (#[trigger] bindings@[i])@
                == visited_bindings(start, *visitor)[i] by {
                if i < k {
                    assert(bindings@[i] == before[i]);
                } else {
                    assert(before[i]@ == start[i]);
                }
            }
            assert forall|i: int| k + 1 <= i < bindings@.len() implies (#[trigger] bindings@[i])@
                == start[i] by {
                assert(bindings@[i] == before[i]);
            }
        }
        k += 1;
    }
    assert(views(bindings@) =~= visited_bindings(start, *visitor));
}

/// Applies the change to the conditions of the states and to the
/// expressions of their changes.
pub fn visit_states<R: ExpressionRewriter>(states: &mut Vec<State>, visitor: &R)
    ensures
        views(final(states)@) == visited_states(views(old(states)@), *visitor),
{
    let ghost start = views(states@);
    let mut k: usize = 0;
    while k < states.len()
        invariant
            k <= states.len(),
            states@.len() == start.len(),
            forall|i: int|
                0 <= i < k ==> (#[trigger] states@[i])@ == visited_states(start, *visitor)[i],
            forall|i: int| k <= i < states@.len() ==> (#[trigger] states@[i])@ == start[i],
        decreases states.len() - k,
    {
        let ghost before = states@;
        let ghost changes_start = views(states@[k as int].changes@);
        let condition = visitor.rewrite(&states[k].condition);
        states[k].condition = condition;
        let ghost with_condition = states@;
        let mut c: usize = 0;
        while c < states[k].changes.len()
            invariant
                k < states.len(),
                states@.len() == with_condition.len(),
                forall|i: int| 0 <= i < states@.len() && i != k ==> states@[i] == with_condition[i],
                states@[k as int].id == with_condition[k as int].id,
                states@[k as int].condition == with_condition[k as int].condition,
                states@[k as int].changes@.len() == changes_start.len(),
                c <= states@[k as int].changes@.len(),
                forall|i: int|
                    0 <= i < c ==> (#[trigger] states@[k as int].changes@[i])@ == visited_changes(
                        changes_start,
                        *visitor,
                    )[i],
                forall|i: int|
                    c <= i < changes_start.len() ==> (#[trigger] states@[k as int].changes@[i])@
                        == changes_start[i],
            decreases states@[k as int].changes@.len() - c,
        {
            let ghost inner = states@;
            let changed = visitor.rewrite(&states[k].changes[c].expression);
            states[k].changes[c].expression = changed;
            proof {
                assert forall|i: int| 0 <= i < c + 1 implies (
                #[trigger] states@[k as int].changes@[i])@ == visited_changes(
                    changes_start,
                    *visitor,
                )[i] by {
                    if i < c {
                        assert(states@[k as int].changes@[i] == inner[k as int].changes@[i]);
                    } else {
                        assert(inner[k as int].changes@[i]@ == changes_start[i]);
                    }
                }
                assert forall|i: int| c + 1 <= i < changes_start.len() implies (
                #[trigger] states@[k as int].changes@[i])@ == changes_start[i] by {
                    assert(states@[k as int].changes@[i] == inner[k as int].changes@[i]);
                }
            }
            c += 1;
        }
        proof {
            assert(views(states@[k as int].changes@) =~= visited_changes(changes_start, *visitor));
            assert forall|i: int| 0 <= i < k + 1 implies (#[trigger] states@[i])@ == visited_states(
                start,
                *visitor,
            )[i] by {
                if i < k {
                    assert(states@[i] == with_condition[i]);
                    assert(with_condition[i] == before[i]);
                } else {
                    assert(before[i]@ == start[i]);
                }
            }
            assert forall|i: int| k + 1 <= i < states@.len() implies (#[trigger] states@[i])@
                == start[i] by {
                assert(states@[i] == with_condition[i]);
                assert(with_condition[i] == before[i]);
            }
        }
        k += 1;
    }
    assert(views(states@) =~= visited_states(start, *visitor));
}

impl<R: ExpressionRewriter> ExpressionFieldsVisitor<R> for Element {
    open spec fn visited(part: ElementView, visitor: R) -> ElementView {
        visited_element(part, visitor)
    }

    fn visit_expressions(&mut self, visitor: &R) {
        visit_bindings(&mut self.bindings, visitor);
        let model = match &self.repeated {
            Some(e) => Some(visitor.rewrite(e)),
            None => None,
        };
        self.repeated = model;
        visit_states(&mut self.states, visitor);
    }
}

impl<R: ExpressionRewriter> ExpressionFieldsVisitor<R> for Component {
    open spec fn visited(part: ComponentView, visitor: R) -> ComponentView {
        visited_component(part, visitor)
    }

    fn visit_expressions(&mut self, visitor: &R) {
        let ghost start = self@;
        let mut i: usize = 0;
        while i < self.elements.len()
            invariant
                i <= self.elements.len(),
                self.id == old(self).id,
                self.repeaters == old(self).repeaters,
                self.elements@.len() == start.elements.len(),
                start == old(self)@,
                forall|k: int|
                    0 <= k < i ==> (#[trigger] self.elements@[k])@ == visited_element(
                        start.elements[k],
                        *visitor,
                    ),
                forall|k: int|
                    i <= k < self.elements@.len() ==> (#[trigger] self.elements@[k])@
                        == start.elements[k],
            decreases self.elements.len() - i,
        {
            let ghost before = self.elements@;
            self.elements[i].visit_expressions(visitor);
            proof {
                assert forall|k: int| 0 <= k < i + 1 implies (#[trigger] self.elements@[k])@
                    == visited_element(start.elements[k], *visitor) by {
                    if k < i {
                        assert(self.elements@[k] == before[k]);
                    } else {
                        assert(before[k]@ == start.elements[k]);
                    }
                }
                assert forall|k: int| i + 1 <= k < self.elements@.len() implies (
                #[trigger] self.elements@[k])@ == start.elements[k] by {
                    assert(self.elements@[k] == before[k]);
                }
            }
            i += 1;
        }
        let ghost elements_done = self.elements@;
        let mut r: usize = 0;
        while r < self.repeaters.len()
            invariant
                r <= self.repeaters.len(),
                self.id == old(self).id,
                self.elements@ == elements_done,
                self.repeaters@.len() == start.repeaters.len(),
                start == old(self)@,
                forall|k: int|
                    0 <= k < r ==> (#[trigger] self.repeaters@[k])@ == (RepeaterView {
                        model: visitor.rewritten(start.repeaters[k].model),
                        ..start.repeaters[k]
                    }),
                forall|k: int|
                    r <= k < self.repeaters@.len() ==> (#[trigger] self.repeaters@[k])@
                        == start.repeaters[k],
            decreases self.repeaters.len() - r,
        {
            let ghost before = self.repeaters@;
            let model = visitor.rewrite(&self.repeaters[r].model);
            self.repeaters[r].model = model;
            proof {
                assert forall|k: int| 0 <= k < r + 1 implies (#[trigger] self.repeaters@[k])@ == (
                RepeaterView {
                    model: visitor.rewritten(start.repeaters[k].model),
                    ..start.repeaters[k]
                }) by {
                    if k < r {
                        assert(self.repeaters@[k] == before[k]);
                    } else {
                        assert(before[k]@ == start.repeaters[k]);
                    }
                }
                assert forall|k: int| r + 1 <= k < self.repeaters@.len() implies (
                #[trigger] self.repeaters@[k])@ == start.repeaters[k] by {
                    assert(self.repeaters@[k] == before[k]);
                }
            }
            r += 1;
        }
        proof {
            assert(self@.elements =~= visited_component(start, *visitor).elements);
            assert(self@.repeaters =~= visited_component(start, *visitor).repeaters);
        }
    }
}

} // verus!

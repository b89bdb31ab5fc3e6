//! Turns states into bindings.
//!
//! A change of a state becomes a binding of the property it changes: the
//! property has the value of the change while the condition of the state
//! holds, and the value it had before otherwise. The animation that the
//! transition into the state declares for the property becomes the
//! animation of the binding. The states are taken in the order in which
//! they are written, so that a later state overrides an earlier one. When
//! all changes are bindings, the states and the transitions are gone.

use vstd::prelude::*;
use crate::dynamic_component::{binding_of, find_binding};
use crate::expression_tree::{clone_expression, Expression};
use crate::items::PropertyAnimation;
use crate::names::views;
use crate::object_tree::{
    element_table, Binding, BindingView, Component, ComponentView, Element, ElementView,
    StateView, Transition, TransitionAnimation, TransitionView,
};
use crate::typeregister::{builtin_properties, Type};

verus! {

/// The animation that the first `n` animations of a transition give for a
/// property: that of the last one that names the property.
pub open spec fn animation_in(
    animations: Seq<TransitionAnimation>,
    t: usize,
    p: usize,
    n: int,
) -> Option<PropertyAnimation>
    decreases n,
{
    if n <= 0 {
        None
    } else if animations[n - 1].element == t && animations[n - 1].property == p {
        Some(animations[n - 1].animation)
    } else {
        animation_in(animations, t, p, n - 1)
    }
}

/// The animation that the first `n` transitions give for a property when
/// state `s` is entered: that of the last transition into the state that
/// names the property.
pub open spec fn transition_animation(
    transitions: Seq<TransitionView>,
    s: usize,
    t: usize,
    p: usize,
    n: int,
) -> Option<PropertyAnimation>
    decreases n,
{
    if n <= 0 {
        None
    } else if transitions[n - 1].state == s && animation_in(
        transitions[n - 1].animations,
        t,
        p,
        transitions[n - 1].animations.len() as int,
    ) is Some {
        animation_in(
            transitions[n - 1].animations,
            t,
            p,
            transitions[n - 1].animations.len() as int,
        )
    } else {
        transition_animation(transitions, s, t, p, n - 1)
    }
}

/// The type of property `p` of an element; `Invalid` where the element has
/// no such property.
pub open spec fn property_type_of(e: ElementView, p: usize) -> Type {
    if p < element_table(e).len() {
        element_table(e)[p as int].property_type
    } else {
        Type::Invalid
    }
}

/// The binding that change `k` of state `s` of element `i` comes to, with
/// the element it is a binding of. A change of an element that does not
/// exist, and a change whose expression is invalid, comes to nothing.
pub open spec fn change_binding(elements: Seq<ElementView>, i: int, s: int, k: int) -> Option<
    (int, BindingView),
> {
    let state = elements[i].states[s];
    let change = state.changes[k];
    let t = change.element as int;
    if t < elements.len() && !(change.expression is Invalid) {
        let before = binding_of(elements[t].bindings, change.property as int);
        let otherwise = match before {
            Some(b) => b.expression,
            None => Expression::Default(property_type_of(elements[t], change.property)),
        };
        let animation = match transition_animation(
            elements[i].transitions,
            s as usize,
            change.element,
            change.property,
            elements[i].transitions.len() as int,
        ) {
            Some(a) => Some(a),
            None => match before {
                Some(b) => b.animation,
                None => None,
            },
        };
        Some(
            (
                t,
                BindingView {
                    property: change.property,
                    expression: Expression::Condition {
                        condition: Box::new(state.condition),
                        true_expr: Box::new(change.expression),
                        false_expr: Box::new(otherwise),
                    },
                    animation,
                    span: elements[i].span,
                },
            ),
        )
    } else {
        None
    }
}

/// The elements after change `k` of state `s` of element `i` has become a
/// binding.
pub open spec fn with_change(elements: Seq<ElementView>, i: int, s: int, k: int) -> Seq<ElementView> {
    match change_binding(elements, i, s, k) {
        Some((t, b)) => elements.update(
            t,
            ElementView { bindings: elements[t].bindings.push(b), ..elements[t] },
        ),
        None => elements,
    }
}

/// The elements after the first `n` changes of state `s` of element `i`.
pub open spec fn after_changes(elements: Seq<ElementView>, i: int, s: int, n: int) -> Seq<ElementView>
    decreases n,
{
    if n <= 0 {
        elements
    } else {
        with_change(after_changes(elements, i, s, n - 1), i, s, n - 1)
    }
}

/// The elements after the first `n` states of element `i`.
pub open spec fn after_states(elements: Seq<ElementView>, i: int, n: int) -> Seq<ElementView>
    decreases n,
{
    if n <= 0 {
        elements
    } else {
        after_changes(
            after_states(elements, i, n - 1),
            i,
            n - 1,
            elements[i].states[n - 1].changes.len() as int,
        )
    }
}

/// The elements after the states of the first `n` elements.
pub open spec fn after_elements(elements: Seq<ElementView>, n: int) -> Seq<ElementView>
    decreases n,
{
    if n <= 0 {
        elements
    } else {
        after_states(after_elements(elements, n - 1), n - 1, elements[n - 1].states.len() as int)
    }
}

/// The elements without their states and transitions.
pub open spec fn without_states(elements: Seq<ElementView>) -> Seq<ElementView> {
    Seq::new(
        elements.len(),
        |i: int|
            ElementView { states: Seq::empty(), transitions: Seq::empty(), ..elements[i] },
    )
}

/// The component with its states lowered.
pub open spec fn lowered_states(c: ComponentView) -> ComponentView {
    ComponentView {
        elements: without_states(after_elements(c.elements, c.elements.len() as int)),
        ..c
    }
}

/// Whether the elements differ at most in their bindings.
pub open spec fn same_shape(a: Seq<ElementView>, b: Seq<ElementView>) -> bool {
    &&& a.len() == b.len()
    &&& forall|q: int|
        0 <= q < a.len() ==> (#[trigger] a[q]) == (ElementView { bindings: a[q].bindings, ..b[q] })
}

/// Turning a change into a binding changes bindings and nothing else.
pub proof fn lemma_with_change_shape(elements: Seq<ElementView>, i: int, s: int, k: int)
    ensures
        same_shape(with_change(elements, i, s, k), elements),
{
}

/// The animation that a list of animations gives for a property.
fn find_animation(animations: &Vec<TransitionAnimation>, t: usize, p: usize) -> (found: Option<
    PropertyAnimation,
>)
    ensures
        found == animation_in(animations@, t, p, animations@.len() as int),
{
    let mut n: usize = animations.len();
    while n > 0
        invariant
            n <= animations.len(),
            animation_in(animations@, t, p, animations@.len() as int) == animation_in(
                animations@,
                t,
                p,
                n as int,
            ),
        decreases n,
    {
        n -= 1;
        if animations[n].element == t && animations[n].property == p {
            return Some(animations[n].animation);
        }
    }
    None
}

/// The animation that the transitions give for a property when state `s`
/// is entered.
fn find_transition_animation(transitions: &Vec<Transition>, s: usize, t: usize, p: usize) -> (found:
    Option<PropertyAnimation>)
    ensures
        found == transition_animation(views(transitions@), s, t, p, transitions@.len() as int),
{
    let mut n: usize = transitions.len();
    while n > 0
        invariant
            n <= transitions.len(),
            transition_animation(views(transitions@), s, t, p, transitions@.len() as int)
                == transition_animation(views(transitions@), s, t, p, n as int),
        decreases n,
    {
        n -= 1;
        assert(views(transitions@)[n as int] == transitions@[n as int]@);
        if transitions[n].state == s {
            match find_animation(&transitions[n].animations, t, p) {
                Some(a) => {
                    return Some(a);
                },
                None => {},
            }
        }
    }
    None
}

/// The type of a property of an element.
fn type_of_property(element: &Element, p: usize) -> (ty: Type)
    ensures
        ty == property_type_of(element@, p),
{
    match element.base_type {
        Type::Builtin(kind) => {
            let table = builtin_properties(kind);
            if p < table.len() {
                assert(views(table@)[p as int] == table@[p as int]@);
                table[p].property_type
            } else if p - table.len() < element.declarations.len() {
                assert(views(element.declarations@)[p - table.len()]
                    == element.declarations@[p - table.len()]@);
                element.declarations[p - table.len()].property_type
            } else {
                Type::Invalid
            }
        },
        _ => {
            if p < element.declarations.len() {
                assert(views(element.declarations@)[p as int] == element.declarations@[p as int]@);
                element.declarations[p].property_type
            } else {
                Type::Invalid
            }
        },
    }
}

/// The binding that a change comes to.
fn binding_for_change(elements: &Vec<Element>, i: usize, s: usize, k: usize) -> (out: Option<
    (usize, Binding),
>)
    requires
        i < elements.len(),
        s < elements@[i as int].states@.len(),
        k < elements@[i as int].states@[s as int].changes@.len(),
    ensures
        match out {
            Some((t, b)) => change_binding(views(elements@), i as int, s as int, k as int) == Some(
                (t as int, b@),
            ) && t < elements.len(),
            None => change_binding(views(elements@), i as int, s as int, k as int).is_none(),
        },
{
    let owner = &elements[i];
    let state = &owner.states[s];
    let change = &state.changes[k];
    proof {
        assert(views(elements@)[i as int] == owner@);
        assert(owner@.states[s as int] == state@);
        assert(state@.changes[k as int] == change@);
    }
    let t = change.element;
    let invalid = match &change.expression {
        Expression::Invalid => true,
        _ => false,
    };
    if t < elements.len() && !invalid {
        let target = &elements[t];
        assert(views(elements@)[t as int] == target@);
        let (otherwise, kept) = match find_binding(&target.bindings, change.property) {
            Some(b) => (clone_expression(&target.bindings[b].expression), target.bindings[b].animation),
            None => (Expression::Default(type_of_property(target, change.property)), None),
        };
        let animation = match find_transition_animation(
            &owner.transitions,
            s,
            t,
            change.property,
        ) {
            Some(a) => Some(a),
            None => kept,
        };
        Some(
            (
                t,
                Binding {
                    property: change.property,
                    expression: Expression::Condition {
                        condition: Box::new(clone_expression(&state.condition)),
                        true_expr: Box::new(clone_expression(&change.expression)),
                        false_expr: Box::new(otherwise),
                    },
                    animation,
                    span: owner.span,
                },
            ),
        )
    } else {
        None
    }
}

/// Lowers the states of a component.
pub fn lower_states(component: &mut Component)
    ensures
        final(component)@ == lowered_states(old(component)@),
{
    let ghost c = component@;
    let mut i: usize = 0;
    while i < component.elements.len()
        invariant
            c == old(component)@,
            component.id == old(component).id,
            component.repeaters == old(component).repeaters,
            i <= component.elements.len(),
            views(component.elements@) == after_elements(c.elements, i as int),
            same_shape(views(component.elements@), c.elements),
        decreases component.elements.len() - i,
    {
        let ghost at_element = views(component.elements@);
        let mut s: usize = 0;
        assert(at_element[i as int] == component.elements@[i as int]@);
        let states = component.elements[i].states.len();
        while s < states
            invariant
                c == old(component)@,
                component.id == old(component).id,
                component.repeaters == old(component).repeaters,
                i < component.elements.len(),
                states == c.elements[i as int].states.len(),
                s <= states,
                at_element == after_elements(c.elements, i as int),
                views(component.elements@) == after_states(at_element, i as int, s as int),
                same_shape(views(component.elements@), c.elements),
                same_shape(at_element, c.elements),
            decreases states - s,
        {
            let ghost at_state = views(component.elements@);
            assert(at_state[i as int] == component.elements@[i as int]@);
            assert(at_state[i as int].states[s as int] == component.elements@[i as int].states@[s as int]@);
            let changes = component.elements[i].states[s].changes.len();
            let mut k: usize = 0;
            while k < changes
                invariant
                    c == old(component)@,
                    component.id == old(component).id,
                    component.repeaters == old(component).repeaters,
                    i < component.elements.len(),
                    s < c.elements[i as int].states.len(),
                    changes == c.elements[i as int].states[s as int].changes.len(),
                    k <= changes,
                    views(component.elements@) == after_changes(at_state, i as int, s as int, k as int),
                    same_shape(views(component.elements@), c.elements),
                decreases changes - k,
            {
                let ghost now = views(component.elements@);
                assert(now[i as int] == component.elements@[i as int]@);
                assert(now[i as int].states[s as int]
                    == component.elements@[i as int].states@[s as int]@);
                let made = binding_for_change(&component.elements, i, s, k);
                match made {
                    Some((t, binding)) => {
                        let ghost before = component.elements@;
                        let ghost pushed = binding@;
                        component.elements[t].bindings.push(binding);
                        proof {
                            assert(views(before)[t as int] == before[t as int]@);
                            assert(component.elements@[t as int]@.bindings =~= now[t as int].bindings.push(
                                pushed,
                            ));
                            assert(views(component.elements@) =~= now.update(
                                t as int,
                                ElementView {
                                    bindings: now[t as int].bindings.push(pushed),
                                    ..now[t as int]
                                },
                            )) by {
                                assert forall|q: int| 0 <= q < before.len() implies views(
                                    component.elements@,
                                )[q] == now.update(
                                    t as int,
                                    ElementView {
                                        bindings: now[t as int].bindings.push(pushed),
                                        ..now[t as int]
                                    },
                                )[q] by {
                                    if q != t {
                                        assert(component.elements@[q] == before[q]);
                                        assert(views(before)[q] == before[q]@);
                                    }
                                }
                            }
                        }
                    },
                    None => {},
                }
                proof {
                    lemma_with_change_shape(now, i as int, s as int, k as int);
                    assert(same_shape(views(component.elements@), c.elements)) by {
                        assert forall|q: int| 0 <= q < now.len() implies (#[trigger] views(
                            component.elements@,
                        )[q]) == (ElementView {
                            bindings: views(component.elements@)[q].bindings,
                            ..c.elements[q]
                        }) by {
                            assert(with_change(now, i as int, s as int, k as int)[q] == (
                            ElementView {
                                bindings: with_change(now, i as int, s as int, k as int)[q].bindings,
                                ..now[q]
                            }));
                            assert(now[q] == (ElementView { bindings: now[q].bindings, ..c.elements[q] }));
                        }
                    }
                }
                k += 1;
            }
            proof {
                assert(at_element[i as int] == (ElementView {
                    bindings: at_element[i as int].bindings,
                    ..c.elements[i as int]
                }));
            }
            s += 1;
        }
        i += 1;
    }
    let ghost folded = views(component.elements@);
    let mut n: usize = 0;
    while n < component.elements.len()
        invariant
            c == old(component)@,
            component.id == old(component).id,
            component.repeaters == old(component).repeaters,
            component.elements@.len() == folded.len(),
            n <= component.elements.len(),
            forall|q: int|
                0 <= q < n ==> (#[trigger] component.elements@[q])@ == without_states(folded)[q],
            forall|q: int| n <= q < folded.len() ==> (#[trigger] component.elements@[q])@ == folded[q],
        decreases component.elements.len() - n,
    {
        let ghost before = component.elements@;
        component.elements[n].states = Vec::new();
        component.elements[n].transitions = Vec::new();
        proof {
            assert(views(component.elements@[n as int].states@) =~= Seq::<StateView>::empty());
            assert(views(component.elements@[n as int].transitions@) =~= Seq::<
                TransitionView,
            >::empty());
            assert forall|q: int| 0 <= q < n + 1 implies (#[trigger] component.elements@[q])@
                == without_states(folded)[q] by {
                if q < n {
                    assert(component.elements@[q] == before[q]);
                } else {
                    assert(before[q]@ == folded[q]);
                }
            }
            assert forall|q: int| n + 1 <= q < folded.len() implies (
            #[trigger] component.elements@[q])@ == folded[q] by {
                assert(component.elements@[q] == before[q]);
            }
        }
        n += 1;
    }
    assert(component@.elements =~= lowered_states(c).elements);
}

} // verus!

//! Replaces each element that is an instance of another component by what
//! that component is made of.
//!
//! The element takes the base type of the root of the component; the
//! declarations, bindings, states and transitions of that root come before
//! its own, so that its own bindings count. The other elements of the
//! component are added at the end of the list of elements. References keep
//! their meaning: a reference to the root of the component becomes a
//! reference to the element, and a reference to another element of the
//! component becomes a reference to its copy.
//!
//! An element whose component cannot be inlined, because it is not an
//! earlier component of the document or because the result would be too
//! large, gets the base type `Invalid`.

use vstd::prelude::*;
use crate::expression_tree::{clone_expression, Expression};
use crate::names::views;
use crate::object_tree::{
    clone_declaration,
    Binding,
    BindingView,
    Component,
    ComponentView,
    Document,
    DocumentView,
    Element,
    ElementView,
    PropertyChange,
    PropertyChangeView,
    State,
    StateView,
    Transition,
    TransitionAnimation,
    TransitionView,
};
use crate::typeregister::{PropertyDeclaration, Type};

verus! {

/// Where the elements of an inlined component go: its root becomes element
/// `at`, and its `count - 1` other elements follow element `base - 1`.
pub struct Placement {
    pub at: usize,
    pub base: usize,
    pub count: usize,
}

/// The placement can be carried out: no position overflows.
pub open spec fn placement_fits(place: Placement) -> bool {
    place.count >= 1 && place.base + place.count - 1 <= usize::MAX
}

/// The position that element `j` of the component gets.
pub open spec fn rebased_index(place: Placement, j: usize) -> usize {
    if j == 0 {
        place.at
    } else if j < place.count {
        (place.base + j - 1) as usize
    } else {
        j
    }
}

/// The expression with its references moved.
pub open spec fn rebased(place: Placement, e: Expression) -> Expression
    decreases e,
{
    match e {
        Expression::PropertyReference { element, property } => Expression::PropertyReference {
            element: rebased_index(place, element),
            property,
        },
        Expression::SignalReference { element, property } => Expression::SignalReference {
            element: rebased_index(place, element),
            property,
        },
        Expression::BinaryExpression { lhs, rhs, op } => Expression::BinaryExpression {
            lhs: Box::new(rebased(place, *lhs)),
            rhs: Box::new(rebased(place, *rhs)),
            op,
        },
        Expression::UnaryExpression { sub, op } => Expression::UnaryExpression {
            sub: Box::new(rebased(place, *sub)),
            op,
        },
        Expression::Condition { condition, true_expr, false_expr } => Expression::Condition {
            condition: Box::new(rebased(place, *condition)),
            true_expr: Box::new(rebased(place, *true_expr)),
            false_expr: Box::new(rebased(place, *false_expr)),
        },
        _ => e,
    }
}

/// The bindings with their references moved.
pub open spec fn rebased_bindings(place: Placement, bindings: Seq<BindingView>) -> Seq<BindingView> {
    Seq::new(
        bindings.len(),
        |k: int| BindingView { expression: rebased(place, bindings[k].expression), ..bindings[k] },
    )
}

/// The states with their references moved.
pub open spec fn rebased_states(place: Placement, states: Seq<StateView>) -> Seq<StateView> {
    Seq::new(
        states.len(),
        |k: int|
            StateView {
                condition: rebased(place, states[k].condition),
                changes: Seq::new(
                    states[k].changes.len(),
                    |c: int|
                        PropertyChangeView {
                            element: rebased_index(place, states[k].changes[c].element),
                            property: states[k].changes[c].property,
                            expression: rebased(place, states[k].changes[c].expression),
                        },
                ),
                ..states[k]
            },
    )
}

/// The transitions with their references moved, and with the states that
/// they lead into counted from `shift`.
pub open spec fn rebased_transitions(
    place: Placement,
    shift: usize,
    transitions: Seq<TransitionView>,
) -> Seq<TransitionView> {
    Seq::new(
        transitions.len(),
        |k: int|
            TransitionView {
                state: (transitions[k].state + shift) as usize,
                animations: Seq::new(
                    transitions[k].animations.len(),
                    |a: int|
                        TransitionAnimation {
                            element: rebased_index(place, transitions[k].animations[a].element),
                            ..transitions[k].animations[a]
                        },
                ),
            },
    )
}

/// The placement that moves nothing.
pub open spec fn in_place() -> Placement {
    Placement { at: 0, base: 0, count: 0 }
}

/// The element as an instance of a component whose root is `root`.
pub open spec fn merged(target: ElementView, root: ElementView, place: Placement) -> ElementView {
    ElementView {
        base_type: root.base_type,
        declarations: root.declarations + target.declarations,
        bindings: rebased_bindings(place, root.bindings) + target.bindings,
        states: rebased_states(place, root.states) + target.states,
        transitions: rebased_transitions(place, 0, root.transitions) + rebased_transitions(
            in_place(),
            root.states.len() as usize,
            target.transitions,
        ),
        ..target
    }
}

/// The copy of an element of the component that is not its root.
pub open spec fn copied(source: ElementView, place: Placement) -> ElementView {
    ElementView {
        parent: match source.parent {
            Some(p) => Some(rebased_index(place, p)),
            None => None,
        },
        bindings: rebased_bindings(place, source.bindings),
        repeated: match source.repeated {
            Some(model) => Some(rebased(place, model)),
            None => None,
        },
        states: rebased_states(place, source.states),
        transitions: rebased_transitions(place, 0, source.transitions),
        ..source
    }
}

/// Whether element `e` can take in the component: the component has a
/// root, and the positions of its elements and of the states fit.
pub open spec fn can_take(elements: Seq<ElementView>, e: int, source: ComponentView) -> bool {
    &&& source.elements.len() >= 1
    &&& elements.len() + source.elements.len() - 1 <= usize::MAX
    &&& forall|k: int|
        0 <= k < elements[e].transitions.len() ==> (#[trigger] elements[e].transitions[k]).state
            + source.elements[0].states.len() <= usize::MAX
}

/// The elements after element `e` has taken in the component.
pub open spec fn inlined_at(elements: Seq<ElementView>, e: int, source: ComponentView) -> Seq<
    ElementView,
> {
    let place = Placement {
        at: e as usize,
        base: elements.len() as usize,
        count: source.elements.len() as usize,
    };
    elements.update(e, merged(elements[e], source.elements[0], place)) + Seq::new(
        (source.elements.len() - 1) as nat,
        |j: int| copied(source.elements[j + 1], place),
    )
}

/// The elements after element `e` was looked at: an instance of an earlier
/// component has taken the component in, or has the base type `Invalid`
/// where it cannot; every other element is as it was.
pub open spec fn inlined_step(
    elements: Seq<ElementView>,
    e: int,
    done: Seq<ComponentView>,
) -> Seq<ElementView> {
    match elements[e].base_type {
        Type::Component(c) => if c < done.len() && can_take(elements, e, done[c as int]) {
            inlined_at(elements, e, done[c as int])
        } else {
            elements.update(e, ElementView { base_type: Type::Invalid, ..elements[e] })
        },
        _ => elements,
    }
}

/// The elements after the first `n` elements were looked at.
pub open spec fn inlined_elements(
    elements: Seq<ElementView>,
    done: Seq<ComponentView>,
    n: int,
) -> Seq<ElementView>
    decreases n,
{
    if n <= 0 {
        elements
    } else {
        inlined_step(inlined_elements(elements, done, n - 1), n - 1, done)
    }
}

/// The first `n` components after inlining. A component takes in the
/// components before it as they are after inlining.
pub open spec fn inlined_components(components: Seq<ComponentView>, n: int) -> Seq<ComponentView>
    decreases n,
{
    if n <= 0 {
        Seq::empty()
    } else {
        let done = inlined_components(components, n - 1);
        done.push(
            ComponentView {
                elements: inlined_elements(
                    components[n - 1].elements,
                    done,
                    components[n - 1].elements.len() as int,
                ),
                ..components[n - 1]
            },
        )
    }
}

/// The document after inlining.
pub open spec fn inlined_document(doc: DocumentView) -> DocumentView {
    DocumentView {
        components: inlined_components(doc.components, doc.components.len() as int),
        ..doc
    }
}

/// The position that element `j` of the component gets.
fn rebase_index(place: &Placement, j: usize) -> (r: usize)
    requires
        placement_fits(*place) || place.count == 0,
    ensures
        r == rebased_index(*place, j),
{
    if j == 0 {
        place.at
    } else if j < place.count {
        place.base + j - 1
    } else {
        j
    }
}

/// The expression with its references moved.
fn rebase(place: &Placement, e: &Expression) -> (r: Expression)
    requires
        placement_fits(*place) || place.count == 0,
    ensures
        r == rebased(*place, *e),
    decreases *e,
{
    match e {
        Expression::PropertyReference { element, property } => Expression::PropertyReference {
            element: rebase_index(place, *element),
            property: *property,
        },
        Expression::SignalReference { element, property } => Expression::SignalReference {
            element: rebase_index(place, *element),
            property: *property,
        },
        Expression::BinaryExpression { lhs, rhs, op } => Expression::BinaryExpression {
            lhs: Box::new(rebase(place, lhs)),
            rhs: Box::new(rebase(place, rhs)),
            op: *op,
        },
        Expression::UnaryExpression { sub, op } => Expression::UnaryExpression {
            sub: Box::new(rebase(place, sub)),
            op: *op,
        },
        Expression::Condition { condition, true_expr, false_expr } => Expression::Condition {
            condition: Box::new(rebase(place, condition)),
            true_expr: Box::new(rebase(place, true_expr)),
            false_expr: Box::new(rebase(place, false_expr)),
        },
        _ => clone_expression(e),
    }
}

/// The bindings with their references moved.
fn rebase_bindings(place: &Placement, bindings: &Vec<Binding>) -> (out: Vec<Binding>)
    requires
        placement_fits(*place) || place.count == 0,
    ensures
        views(out@) == rebased_bindings(*place, views(bindings@)),
{
    let mut out: Vec<Binding> = Vec::new();
    let mut k: usize = 0;
    while k < bindings.len()
        invariant
            placement_fits(*place) || place.count == 0,
            k <= bindings.len(),
            out@.len() == k,
            forall|q: int|
                0 <= q < k ==> (#[trigger] out@[q])@ == rebased_bindings(
                    *place,
                    views(bindings@),
                )[q],
        decreases bindings.len() - k,
    {
        let b = &bindings[k];
        assert(views(bindings@)[k as int] == b@);
        out.push(
            Binding {
                property: b.property,
                expression: rebase(place, &b.expression),
                animation: b.animation,
                span: b.span,
            },
        );
        k += 1;
    }
    assert(views(out@) =~= rebased_bindings(*place, views(bindings@)));
    out
}

/// The states with their references moved.
fn rebase_states(place: &Placement, states: &Vec<State>) -> (out: Vec<State>)
    requires
        placement_fits(*place) || place.count == 0,
    ensures
        views(out@) == rebased_states(*place, views(states@)),
{
    let mut out: Vec<State> = Vec::new();
    let mut k: usize = 0;
    while k < states.len()
        invariant
            placement_fits(*place) || place.count == 0,
            k <= states.len(),
            out@.len() == k,
            forall|q: int|
                0 <= q < k ==> (#[trigger] out@[q])@ == rebased_states(*place, views(states@))[q],
        decreases states.len() - k,
    {
        let state = &states[k];
        assert(views(states@)[k as int] == state@);
        let ghost source = state@.changes;
        let mut changes: Vec<PropertyChange> = Vec::new();
        let mut c: usize = 0;
        while c < state.changes.len()
            invariant
                placement_fits(*place) || place.count == 0,
                source == state@.changes,
                c <= state.changes.len(),
                changes@.len() == c,
                forall|q: int|
                    0 <= q < c ==> (#[trigger] changes@[q])@ == (PropertyChangeView {
                        element: rebased_index(*place, source[q].element),
                        property: source[q].property,
                        expression: rebased(*place, source[q].expression),
                    }),
            decreases state.changes.len() - c,
        {
            let change = &state.changes[c];
            assert(source[c as int] == change@);
            changes.push(
                PropertyChange {
                    element: rebase_index(place, change.element),
                    property: change.property,
                    expression: rebase(place, &change.expression),
                },
            );
            c += 1;
        }
        assert(views(changes@) =~= rebased_states(*place, views(states@))[k as int].changes);
        out.push(
            State { id: state.id.clone(), condition: rebase(place, &state.condition), changes },
        );
        k += 1;
    }
    assert(views(out@) =~= rebased_states(*place, views(states@)));
    out
}

/// The transitions with their references moved and their states shifted.
fn rebase_transitions(place: &Placement, shift: usize, transitions: &Vec<Transition>) -> (out: Vec<
    Transition,
>)
    requires
        placement_fits(*place) || place.count == 0,
        forall|k: int|
            0 <= k < transitions@.len() ==> (#[trigger] transitions@[k]).state + shift
                <= usize::MAX,
    ensures
        views(out@) == rebased_transitions(*place, shift, views(transitions@)),
{
    let mut out: Vec<Transition> = Vec::new();
    let mut k: usize = 0;
    while k < transitions.len()
        invariant
            placement_fits(*place) || place.count == 0,
            forall|q: int|
                0 <= q < transitions@.len() ==> (#[trigger] transitions@[q]).state + shift
                    <= usize::MAX,
            k <= transitions.len(),
            out@.len() == k,
            forall|q: int|
                0 <= q < k ==> (#[trigger] out@[q])@ == rebased_transitions(
                    *place,
                    shift,
                    views(transitions@),
                )[q],
        decreases transitions.len() - k,
    {
        let transition = &transitions[k];
        assert(views(transitions@)[k as int] == transition@);
        let ghost source = transition.animations@;
        let mut animations: Vec<TransitionAnimation> = Vec::new();
        let mut a: usize = 0;
        while a < transition.animations.len()
            invariant
                placement_fits(*place) || place.count == 0,
                source == transition.animations@,
                a <= transition.animations.len(),
                animations@.len() == a,
                forall|q: int|
                    0 <= q < a ==> (#[trigger] animations@[q]) == (TransitionAnimation {
                        element: rebased_index(*place, source[q].element),
                        ..source[q]
                    }),
            decreases transition.animations.len() - a,
        {
            let animation = &transition.animations[a];
            animations.push(
                TransitionAnimation {
                    element: rebase_index(place, animation.element),
                    property: animation.property,
                    animation: animation.animation,
                },
            );
            a += 1;
        }
        assert(animations@ =~= rebased_transitions(
            *place,
            shift,
            views(transitions@),
        )[k as int].animations);
        out.push(Transition { state: transition.state + shift, animations });
        k += 1;
    }
    assert(views(out@) =~= rebased_transitions(*place, shift, views(transitions@)));
    out
}

/// A copy of the declarations.
fn clone_declarations(declarations: &Vec<PropertyDeclaration>) -> (out: Vec<PropertyDeclaration>)
    ensures
        views(out@) == views(declarations@),
{
    let mut out: Vec<PropertyDeclaration> = Vec::new();
    let mut k: usize = 0;
    while k < declarations.len()
        invariant
            k <= declarations.len(),
            out@.len() == k,
            forall|q: int| 0 <= q < k ==> (#[trigger] out@[q])@ == declarations@[q]@,
        decreases declarations.len() - k,
    {
        out.push(clone_declaration(&declarations[k]));
        k += 1;
    }
    assert(views(out@) =~= views(declarations@));
    out
}

/// The copy of an element of the component that is not its root.
fn copy_element(source: &Element, place: &Placement) -> (out: Element)
    requires
        placement_fits(*place),
    ensures
        out@ == copied(source@, *place),
{
    let parent = match source.parent {
        Some(p) => Some(rebase_index(place, p)),
        None => None,
    };
    let repeated = match &source.repeated {
        Some(model) => Some(rebase(place, model)),
        None => None,
    };
    Element {
        id: source.id.clone(),
        base_type: source.base_type,
        parent,
        declarations: clone_declarations(&source.declarations),
        bindings: rebase_bindings(place, &source.bindings),
        repeated,
        states: rebase_states(place, &source.states),
        transitions: rebase_transitions(place, 0, &source.transitions),
        unique_id: source.unique_id,
        span: source.span,
    }
}

/// Lets element `e` take in the component.
fn inline_element(elements: &mut Vec<Element>, e: usize, source: &Component)
    requires
        e < old(elements).len(),
        can_take(views(old(elements)@), e as int, source@),
    ensures
        views(final(elements)@) == inlined_at(views(old(elements)@), e as int, source@),
{
    let ghost start = views(elements@);
    let ghost s = source@;
    let place = Placement { at: e, base: elements.len(), count: source.elements.len() };
    let root = &source.elements[0];
    assert(s.elements[0] == root@);
    assert(start[e as int] == elements@[e as int]@);
    let ghost target = start[e as int];
    let mut declarations = clone_declarations(&root.declarations);
    let mut bindings = rebase_bindings(&place, &root.bindings);
    let mut states = rebase_states(&place, &root.states);
    let mut transitions = rebase_transitions(&place, 0, &root.transitions);
    let identity = Placement { at: 0, base: 0, count: 0 };
    proof {
        assert forall|k: int| 0 <= k < elements@[e as int].transitions@.len() implies (
        #[trigger] elements@[e as int].transitions@[k]).state + root.states.len()
            <= usize::MAX by {
            assert(target.transitions[k] == elements@[e as int].transitions@[k]@);
        }
    }
    let mut shifted = rebase_transitions(&identity, root.states.len(), &elements[e].transitions);
    let ghost d0 = views(declarations@);
    let ghost b0 = views(bindings@);
    let ghost s0 = views(states@);
    let ghost t0 = views(transitions@);
    let ghost t1 = views(shifted@);
    let ghost before = elements@;
    declarations.append(&mut elements[e].declarations);
    bindings.append(&mut elements[e].bindings);
    states.append(&mut elements[e].states);
    transitions.append(&mut shifted);
    proof {
        assert(views(declarations@) =~= d0 + target.declarations);
        assert(views(bindings@) =~= b0 + target.bindings);
        assert(views(states@) =~= s0 + target.states);
        assert(views(transitions@) =~= t0 + t1);
    }
    elements[e].base_type = root.base_type;
    elements[e].declarations = declarations;
    elements[e].bindings = bindings;
    elements[e].states = states;
    elements[e].transitions = transitions;
    let ghost merged_elements = views(elements@);
    proof {
        assert(elements@[e as int]@ == merged(target, s.elements[0], place));
        assert(merged_elements =~= start.update(
            e as int,
            merged(target, s.elements[0], place),
        )) by {
            assert forall|q: int| 0 <= q < start.len() implies merged_elements[q] == start.update(
                e as int,
                merged(target, s.elements[0], place),
            )[q] by {
                if q != e {
                    assert(elements@[q] == before[q]);
                    assert(start[q] == before[q]@);
                }
            }
        }
    }
    let mut j: usize = 1;
    while j < source.elements.len()
        invariant
            s == source@,
            placement_fits(place),
            place.count == source.elements.len(),
            1 <= j <= source.elements.len(),
            views(elements@) == merged_elements + Seq::new(
                (j - 1) as nat,
                |q: int| copied(s.elements[q + 1], place),
            ),
        decreases source.elements.len() - j,
    {
        assert(s.elements[j as int] == source.elements@[j as int]@);
        let copy = copy_element(&source.elements[j], &place);
        let ghost sofar = views(elements@);
        elements.push(copy);
        proof {
            assert(views(elements@) =~= sofar.push(copied(s.elements[j as int], place)));
            assert(views(elements@) =~= merged_elements + Seq::new(
                j as nat,
                |q: int| copied(s.elements[q + 1], place),
            ));
        }
        j += 1;
    }
}

/// Whether element `e` can take in the component.
fn takes(elements: &Vec<Element>, e: usize, source: &Component) -> (ok: bool)
    requires
        e < elements.len(),
    ensures
        ok == can_take(views(elements@), e as int, source@),
{
    if source.elements.len() == 0 {
        return false;
    }
    match elements.len().checked_add(source.elements.len() - 1) {
        Some(_) => {},
        None => {
            return false;
        },
    }
    let shift = source.elements[0].states.len();
    assert(source@.elements[0] == source.elements@[0]@);
    assert(views(elements@)[e as int] == elements@[e as int]@);
    let transitions = &elements[e].transitions;
    let mut k: usize = 0;
    while k < transitions.len()
        invariant
            k <= transitions.len(),
            e < elements.len(),
            *transitions == elements@[e as int].transitions,
            views(elements@)[e as int] == elements@[e as int]@,
            source@.elements[0].states.len() == shift,
            forall|q: int| 0 <= q < k ==> (#[trigger] transitions@[q]).state + shift <= usize::MAX,
        decreases transitions.len() - k,
    {
        match transitions[k].state.checked_add(shift) {
            Some(_) => {},
            None => {
                proof {
                    assert(views(transitions@)[k as int] == transitions@[k as int]@);
                    assert(views(elements@)[e as int].transitions[k as int]
                        == transitions@[k as int]@);
                    assert(source@.elements[0].states.len() == shift);
                }
                return false;
            },
        }
        k += 1;
    }
    proof {
        assert forall|q: int| 0 <= q < views(transitions@).len() implies (#[trigger] views(
            transitions@,
        )[q]).state + shift <= usize::MAX by {
            assert(views(transitions@)[q] == transitions@[q]@);
        }
    }
    true
}

/// Inlines the instances among the elements of a component. `all` holds
/// the components of the document, of which the first `k` are inlined and
/// can be taken in.
fn inline_component(component: &mut Component, all: &Vec<Component>, k: usize)
    requires
        k <= all.len(),
    ensures
        final(component)@ == (ComponentView {
            elements: inlined_elements(
                old(component)@.elements,
                views(all@).subrange(0, k as int),
                old(component)@.elements.len() as int,
            ),
            ..old(component)@
        }),
{
    let ghost c = component@;
    let ghost done = views(all@).subrange(0, k as int);
    let count = component.elements.len();
    let mut i: usize = 0;
    while i < count
        invariant
            c == old(component)@,
            done == views(all@).subrange(0, k as int),
            k <= all.len(),
            component.id == old(component).id,
            component.repeaters == old(component).repeaters,
            count == c.elements.len(),
            count <= component.elements.len(),
            i <= count,
            views(component.elements@) == inlined_elements(c.elements, done, i as int),
        decreases count - i,
    {
        let ghost now = views(component.elements@);
        assert(now[i as int] == component.elements@[i as int]@);
        match component.elements[i].base_type {
            Type::Component(index) => {
                if index < k {
                    assert(done[index as int] == all@[index as int]@);
                }
                if index < k && takes(&component.elements, i, &all[index]) {
                    inline_element(&mut component.elements, i, &all[index]);
                    assert(views(component.elements@).len() >= now.len());
                } else {
                    let ghost before = component.elements@;
                    component.elements[i].base_type = Type::Invalid;
                    proof {
                        assert(views(component.elements@) =~= now.update(
                            i as int,
                            ElementView { base_type: Type::Invalid, ..now[i as int] },
                        )) by {
                            assert forall|q: int| 0 <= q < now.len() implies views(
                                component.elements@,
                            )[q] == now.update(
                                i as int,
                                ElementView { base_type: Type::Invalid, ..now[i as int] },
                            )[q] by {
                                if q != i {
                                    assert(component.elements@[q] == before[q]);
                                    assert(now[q] == before[q]@);
                                }
                            }
                        }
                    }
                }
            },
            _ => {},
        }
        i += 1;
    }
}

/// Inlines the instances of components in a document.
pub fn inline(doc: &mut Document)
    ensures
        final(doc)@ == inlined_document(old(doc)@),
{
    let ghost d = doc@;
    let mut k: usize = 0;
    proof {
        assert(views(doc.components@).subrange(0, 0) =~= inlined_components(d.components, 0));
    }
    while k < doc.components.len()
        invariant
            d == old(doc)@,
            doc.root_component == old(doc).root_component,
            doc.path == old(doc).path,
            doc.embedded_resources == old(doc).embedded_resources,
            doc.components@.len() == d.components.len(),
            k <= doc.components.len(),
            views(doc.components@).subrange(0, k as int) == inlined_components(
                d.components,
                k as int,
            ),
            forall|q: int|
                k <= q < d.components.len() ==> (#[trigger] doc.components@[q])@ == d.components[q],
        decreases doc.components.len() - k,
    {
        let ghost before = doc.components@;
        let mut taken = Component { id: String::new(), elements: Vec::new(), repeaters: Vec::new() };
        core::mem::swap(&mut doc.components[k], &mut taken);
        let ghost during = doc.components@;
        proof {
            assert(taken@ == d.components[k as int]);
            assert(views(during).subrange(0, k as int) =~= views(before).subrange(0, k as int));
        }
        inline_component(&mut taken, &doc.components, k);
        let ghost made = taken@;
        core::mem::swap(&mut doc.components[k], &mut taken);
        proof {
            assert(views(doc.components@).subrange(0, k + 1) =~= inlined_components(
                d.components,
                k as int,
            ).push(made));
            assert forall|q: int| k + 1 <= q < d.components.len() implies (
            #[trigger] doc.components@[q])@ == d.components[q] by {
                assert(doc.components@[q] == during[q]);
                assert(during[q] == before[q]);
            }
        }
        k += 1;
    }
    proof {
        assert(views(doc.components@).subrange(0, k as int) =~= views(doc.components@));
    }
}

/// An element that was looked at is no instance of a component any more,
/// and a later look at other elements leaves it so.
pub proof fn lemma_inlined_base(
    elements: Seq<ElementView>,
    done: Seq<ComponentView>,
    n: int,
    e: int,
)
    requires
        0 <= e < n <= elements.len(),
        forall|c: int, j: int|
            0 <= c < done.len() && 0 <= j < done[c].elements.len() ==> !((
            #[trigger] done[c].elements[j]).base_type is Component),
    ensures
        e < inlined_elements(elements, done, n).len(),
        !(inlined_elements(elements, done, n)[e].base_type is Component),
        elements.len() <= inlined_elements(elements, done, n).len(),
    decreases n,
{
    let before = inlined_elements(elements, done, n - 1);
    lemma_inlined_length(elements, done, n - 1);
    if e < n - 1 {
        lemma_inlined_base(elements, done, n - 1, e);
    }
    lemma_inlined_length(elements, done, n);
}

/// Inlining never removes an element.
pub proof fn lemma_inlined_length(elements: Seq<ElementView>, done: Seq<ComponentView>, n: int)
    requires
        0 <= n <= elements.len(),
    ensures
        elements.len() <= inlined_elements(elements, done, n).len(),
    decreases n,
{
    if n > 0 {
        lemma_inlined_length(elements, done, n - 1);
    }
}

} // verus!

//! Moves the properties that elements declare to the root element, so that
//! every declared property has its storage in one place.
//!
//! The properties that the root declares stay where they are. After them
//! come the properties that the other elements declare, element by element
//! in the order of the elements. A binding of a moved property moves with
//! it, and every reference to a moved property is a reference to the
//! property of the root that it has become.

use vstd::prelude::*;
use crate::dynamic_component::item_cells;
use crate::expression_tree::{clone_expression, Expression};
use crate::names::views;
use crate::object_tree::{
    clone_declaration,
    Binding,
    BindingView,
    Component,
    ComponentView,
    Element,
    ElementView,
    PropertyChange,
    PropertyChangeView,
    RepeaterView,
    State,
    StateView,
    Transition,
    TransitionAnimation,
    TransitionView,
};
use crate::typeregister::{builtin_count, DeclarationView, PropertyDeclaration, Type};

verus! {

/// Where the declared properties of the elements go: for each element the
/// number of properties of its item, the number of properties it declares,
/// and the position in the root at which its declared properties start.
pub struct HoistPlan {
    pub own: Seq<usize>,
    pub declared: Seq<usize>,
    pub start: Seq<usize>,
}

/// The number of properties that the elements after the root and before
/// element `i` declare.
pub open spec fn declared_before(elements: Seq<ElementView>, i: int) -> nat
    decreases i,
{
    if i <= 1 {
        0
    } else {
        declared_before(elements, i - 1) + elements[i - 1].declarations.len()
    }
}

/// The position in the root at which the properties of the other elements
/// start.
pub open spec fn root_end(elements: Seq<ElementView>) -> nat {
    if elements.len() == 0 {
        0
    } else {
        item_cells(elements[0]) + elements[0].declarations.len()
    }
}

/// Whether every moved property gets a position that can be written down.
pub open spec fn movable(elements: Seq<ElementView>) -> bool {
    root_end(elements) + declared_before(elements, elements.len() as int) <= usize::MAX
}

/// The plan for the elements.
pub open spec fn plan_of(elements: Seq<ElementView>) -> HoistPlan {
    HoistPlan {
        own: Seq::new(elements.len(), |i: int| item_cells(elements[i]) as usize),
        declared: Seq::new(elements.len(), |i: int| elements[i].declarations.len() as usize),
        start: Seq::new(
            elements.len(),
            |i: int| (root_end(elements) + declared_before(elements, i)) as usize,
        ),
    }
}

/// What property `p` of element `t` has become.
pub open spec fn hoisted_reference(plan: HoistPlan, t: usize, p: usize) -> (usize, usize) {
    if 0 < t < plan.own.len() && p >= plan.own[t as int] && p - plan.own[t as int]
        < plan.declared[t as int] {
        (0usize, (plan.start[t as int] + (p - plan.own[t as int])) as usize)
    } else {
        (t, p)
    }
}

/// The expression with its references brought up to date.
pub open spec fn hoisted(plan: HoistPlan, e: Expression) -> Expression
    decreases e,
{
    match e {
        Expression::PropertyReference { element, property } => Expression::PropertyReference {
            element: hoisted_reference(plan, element, property).0,
            property: hoisted_reference(plan, element, property).1,
        },
        Expression::SignalReference { element, property } => Expression::SignalReference {
            element: hoisted_reference(plan, element, property).0,
            property: hoisted_reference(plan, element, property).1,
        },
        Expression::BinaryExpression { lhs, rhs, op } => Expression::BinaryExpression {
            lhs: Box::new(hoisted(plan, *lhs)),
            rhs: Box::new(hoisted(plan, *rhs)),
            op,
        },
        Expression::UnaryExpression { sub, op } => Expression::UnaryExpression {
            sub: Box::new(hoisted(plan, *sub)),
            op,
        },
        Expression::Condition { condition, true_expr, false_expr } => Expression::Condition {
            condition: Box::new(hoisted(plan, *condition)),
            true_expr: Box::new(hoisted(plan, *true_expr)),
            false_expr: Box::new(hoisted(plan, *false_expr)),
        },
        _ => e,
    }
}

/// The bindings among the first `n` of element `i` that stay with the
/// element: those of the properties of its item. The root keeps all.
pub open spec fn kept_bindings(plan: HoistPlan, i: int, bindings: Seq<BindingView>, n: int) -> Seq<
    BindingView,
>
    decreases n,
{
    if n <= 0 {
        Seq::empty()
    } else if i == 0 || hoisted_reference(plan, i as usize, bindings[n - 1].property).0 == i {
        kept_bindings(plan, i, bindings, n - 1).push(
            BindingView {
                property: bindings[n - 1].property,
                expression: hoisted(plan, bindings[n - 1].expression),
                ..bindings[n - 1]
            },
        )
    } else {
        kept_bindings(plan, i, bindings, n - 1)
    }
}

/// The bindings among the first `n` of element `i` that move to the root,
/// each for the property that its property has become.
pub open spec fn moved_bindings(plan: HoistPlan, i: int, bindings: Seq<BindingView>, n: int) -> Seq<
    BindingView,
>
    decreases n,
{
    if n <= 0 {
        Seq::empty()
    } else if i != 0 && hoisted_reference(plan, i as usize, bindings[n - 1].property).0 != i {
        moved_bindings(plan, i, bindings, n - 1).push(
            BindingView {
                property: hoisted_reference(plan, i as usize, bindings[n - 1].property).1,
                expression: hoisted(plan, bindings[n - 1].expression),
                ..bindings[n - 1]
            },
        )
    } else {
        moved_bindings(plan, i, bindings, n - 1)
    }
}

/// The declarations that the first `n` elements give to the root.
pub open spec fn gathered_declarations(elements: Seq<ElementView>, n: int) -> Seq<DeclarationView>
    decreases n,
{
    if n <= 1 {
        Seq::empty()
    } else {
        gathered_declarations(elements, n - 1) + elements[n - 1].declarations
    }
}

/// The bindings that the first `n` elements give to the root.
pub open spec fn gathered_bindings(plan: HoistPlan, elements: Seq<ElementView>, n: int) -> Seq<
    BindingView,
>
    decreases n,
{
    if n <= 1 {
        Seq::empty()
    } else {
        gathered_bindings(plan, elements, n - 1) + moved_bindings(
            plan,
            n - 1,
            elements[n - 1].bindings,
            elements[n - 1].bindings.len() as int,
        )
    }
}

/// The changes of a state brought up to date.
pub open spec fn hoisted_changes(plan: HoistPlan, changes: Seq<PropertyChangeView>) -> Seq<
    PropertyChangeView,
> {
    Seq::new(
        changes.len(),
        |k: int|
            PropertyChangeView {
                element: hoisted_reference(plan, changes[k].element, changes[k].property).0,
                property: hoisted_reference(plan, changes[k].element, changes[k].property).1,
                expression: hoisted(plan, changes[k].expression),
            },
    )
}

/// The states brought up to date.
pub open spec fn hoisted_states(plan: HoistPlan, states: Seq<StateView>) -> Seq<StateView> {
    Seq::new(
        states.len(),
        |k: int|
            StateView {
                condition: hoisted(plan, states[k].condition),
                changes: hoisted_changes(plan, states[k].changes),
                ..states[k]
            },
    )
}

/// The transitions brought up to date.
pub open spec fn hoisted_transitions(plan: HoistPlan, transitions: Seq<TransitionView>) -> Seq<
    TransitionView,
> {
    Seq::new(
        transitions.len(),
        |k: int|
            TransitionView {
                animations: Seq::new(
                    transitions[k].animations.len(),
                    |a: int|
                        TransitionAnimation {
                            element: hoisted_reference(
                                plan,
                                transitions[k].animations[a].element,
                                transitions[k].animations[a].property,
                            ).0,
                            property: hoisted_reference(
                                plan,
                                transitions[k].animations[a].element,
                                transitions[k].animations[a].property,
                            ).1,
                            animation: transitions[k].animations[a].animation,
                        },
                ),
                ..transitions[k]
            },
    )
}

/// Element `i` after the declarations have moved.
pub open spec fn hoisted_element(plan: HoistPlan, elements: Seq<ElementView>, i: int) -> ElementView {
    let e = elements[i];
    ElementView {
        declarations: if i == 0 {
            e.declarations + gathered_declarations(elements, elements.len() as int)
        } else {
            Seq::empty()
        },
        bindings: if i == 0 {
            kept_bindings(plan, 0, e.bindings, e.bindings.len() as int) + gathered_bindings(
                plan,
                elements,
                elements.len() as int,
            )
        } else {
            kept_bindings(plan, i, e.bindings, e.bindings.len() as int)
        },
        repeated: match e.repeated {
            Some(model) => Some(hoisted(plan, model)),
            None => None,
        },
        states: hoisted_states(plan, e.states),
        transitions: hoisted_transitions(plan, e.transitions),
        ..e
    }
}

/// The component after the declarations have moved. A component with so
/// many declarations that their positions cannot be written down is as it
/// was.
pub open spec fn with_moved_declarations(c: ComponentView) -> ComponentView {
    if movable(c.elements) {
        ComponentView {
            elements: Seq::new(
                c.elements.len(),
                |i: int| hoisted_element(plan_of(c.elements), c.elements, i),
            ),
            repeaters: Seq::new(
                c.repeaters.len(),
                |r: int|
                    RepeaterView {
                        model: hoisted(plan_of(c.elements), c.repeaters[r].model),
                        ..c.repeaters[r]
                    },
            ),
            ..c
        }
    } else {
        c
    }
}

/// The plan, worked out.
pub struct Hoister {
    pub own: Vec<usize>,
    pub declared: Vec<usize>,
    pub start: Vec<usize>,
}

impl View for Hoister {
    type V = HoistPlan;

    open spec fn view(&self) -> HoistPlan {
        HoistPlan { own: self.own@, declared: self.declared@, start: self.start@ }
    }
}

impl Hoister {
    /// The plan is one in which the tables have the same length and no
    /// position overflows.
    pub open spec fn wf(&self) -> bool {
        &&& self.own@.len() == self.declared@.len()
        &&& self.own@.len() == self.start@.len()
        &&& forall|t: int|
            0 < t < self.own@.len() ==> (#[trigger] self.start@[t]) + self.declared@[t]
                <= usize::MAX
    }

    /// What a property of an element has become.
    pub fn reference(&self, t: usize, p: usize) -> (out: (usize, usize))
        requires
            self.wf(),
        ensures
            out == hoisted_reference(self@, t, p),
    {
        if 0 < t && t < self.own.len() && p >= self.own[t] && p - self.own[t] < self.declared[t] {
            (0, self.start[t] + (p - self.own[t]))
        } else {
            (t, p)
        }
    }
}

impl Hoister {
    /// The expression with its references brought up to date.
    pub fn rewrite(&self, e: &Expression) -> (r: Expression)
        requires
            self.wf(),
        ensures
            r == hoisted(self@, *e),
        decreases *e,
    {
        match e {
            Expression::PropertyReference { element, property } => {
                let (t, p) = self.reference(*element, *property);
                Expression::PropertyReference { element: t, property: p }
            },
            Expression::SignalReference { element, property } => {
                let (t, p) = self.reference(*element, *property);
                Expression::SignalReference { element: t, property: p }
            },
            Expression::BinaryExpression { lhs, rhs, op } => Expression::BinaryExpression {
                lhs: Box::new(self.rewrite(lhs)),
                rhs: Box::new(self.rewrite(rhs)),
                op: *op,
            },
            Expression::UnaryExpression { sub, op } => Expression::UnaryExpression {
                sub: Box::new(self.rewrite(sub)),
                op: *op,
            },
            Expression::Condition { condition, true_expr, false_expr } => Expression::Condition {
                condition: Box::new(self.rewrite(condition)),
                true_expr: Box::new(self.rewrite(true_expr)),
                false_expr: Box::new(self.rewrite(false_expr)),
            },
            _ => clone_expression(e),
        }
    }

    /// The bindings of element `i` that stay with the element.
    fn keep(&self, bindings: &Vec<Binding>, i: usize) -> (kept: Vec<Binding>)
        requires
            self.wf(),
        ensures
            views(kept@) == kept_bindings(
                self@,
                i as int,
                views(bindings@),
                bindings@.len() as int,
            ),
    {
        let mut kept: Vec<Binding> = Vec::new();
        let mut n: usize = 0;
        assert(views(kept@) =~= kept_bindings(self@, i as int, views(bindings@), 0));
        while n < bindings.len()
            invariant
                self.wf(),
                n <= bindings.len(),
                views(kept@) == kept_bindings(self@, i as int, views(bindings@), n as int),
            decreases bindings.len() - n,
        {
            let b = &bindings[n];
            assert(views(bindings@)[n as int] == b@);
            let (t, p) = self.reference(i, b.property);
            if i == 0 || t == i {
                kept.push(
                    Binding {
                        property: b.property,
                        expression: self.rewrite(&b.expression),
                        animation: b.animation,
                        span: b.span,
                    },
                );
            }
            assert(views(kept@) =~= kept_bindings(self@, i as int, views(bindings@), n + 1));
            n += 1;
        }
        kept
    }

    /// Adds to `out` the bindings of element `i` that move to the root.
    fn take(&self, bindings: &Vec<Binding>, i: usize, out: &mut Vec<Binding>)
        requires
            self.wf(),
        ensures
            views(final(out)@) == views(old(out)@) + moved_bindings(
                self@,
                i as int,
                views(bindings@),
                bindings@.len() as int,
            ),
    {
        let ghost start = views(out@);
        let mut n: usize = 0;
        assert(views(out@) =~= start + moved_bindings(self@, i as int, views(bindings@), 0));
        while n < bindings.len()
            invariant
                self.wf(),
                n <= bindings.len(),
                views(out@) == start + moved_bindings(self@, i as int, views(bindings@), n as int),
            decreases bindings.len() - n,
        {
            let b = &bindings[n];
            assert(views(bindings@)[n as int] == b@);
            let (t, p) = self.reference(i, b.property);
            let ghost sofar = views(out@);
            let ghost moved = moved_bindings(self@, i as int, views(bindings@), n as int);
            if i != 0 && t != i {
                let binding = Binding {
                    property: p,
                    expression: self.rewrite(&b.expression),
                    animation: b.animation,
                    span: b.span,
                };
                let ghost pushed = binding@;
                out.push(binding);
                proof {
                    assert(views(out@) =~= sofar.push(pushed));
                    assert((start + moved).push(pushed) =~= start + moved.push(pushed));
                }
            }
            assert(views(out@) =~= start + moved_bindings(
                self@,
                i as int,
                views(bindings@),
                n + 1,
            ));
            n += 1;
        }
    }

    /// The states brought up to date.
    fn states(&self, states: &Vec<State>) -> (out: Vec<State>)
        requires
            self.wf(),
        ensures
            views(out@) == hoisted_states(self@, views(states@)),
    {
        let mut out: Vec<State> = Vec::new();
        let mut k: usize = 0;
        while k < states.len()
            invariant
                self.wf(),
                k <= states.len(),
                out@.len() == k,
                forall|q: int|
                    0 <= q < k ==> (#[trigger] out@[q])@ == hoisted_states(self@, views(states@))[q],
            decreases states.len() - k,
        {
            let state = &states[k];
            assert(views(states@)[k as int] == state@);
            let mut changes: Vec<PropertyChange> = Vec::new();
            let mut c: usize = 0;
            while c < state.changes.len()
                invariant
                    self.wf(),
                    c <= state.changes.len(),
                    changes@.len() == c,
                    forall|q: int|
                        0 <= q < c ==> (#[trigger] changes@[q])@ == hoisted_changes(
                            self@,
                            state@.changes,
                        )[q],
                decreases state.changes.len() - c,
            {
                let change = &state.changes[c];
                assert(state@.changes[c as int] == change@);
                let (t, p) = self.reference(change.element, change.property);
                changes.push(
                    PropertyChange {
                        element: t,
                        property: p,
                        expression: self.rewrite(&change.expression),
                    },
                );
                c += 1;
            }
            assert(views(changes@) =~= hoisted_changes(self@, state@.changes));
            out.push(
                State {
                    id: state.id.clone(),
                    condition: self.rewrite(&state.condition),
                    changes,
                },
            );
            k += 1;
        }
        assert(views(out@) =~= hoisted_states(self@, views(states@)));
        out
    }

    /// The transitions brought up to date.
    fn transitions(&self, transitions: &Vec<Transition>) -> (out: Vec<Transition>)
        requires
            self.wf(),
        ensures
            views(out@) == hoisted_transitions(self@, views(transitions@)),
    {
        let mut out: Vec<Transition> = Vec::new();
        let mut k: usize = 0;
        while k < transitions.len()
            invariant
                self.wf(),
                k <= transitions.len(),
                out@.len() == k,
                forall|q: int|
                    0 <= q < k ==> (#[trigger] out@[q])@ == hoisted_transitions(
                        self@,
                        views(transitions@),
                    )[q],
            decreases transitions.len() - k,
        {
            let transition = &transitions[k];
            assert(views(transitions@)[k as int] == transition@);
            let mut animations: Vec<TransitionAnimation> = Vec::new();
            let mut a: usize = 0;
            let ghost source = transition.animations@;
            while a < transition.animations.len()
                invariant
                    self.wf(),
                    source == transition.animations@,
                    a <= transition.animations.len(),
                    animations@.len() == a,
                    forall|q: int|
                        0 <= q < a ==> (#[trigger] animations@[q]) == (TransitionAnimation {
                            element: hoisted_reference(self@, source[q].element, source[q].property).0,
                            property: hoisted_reference(self@, source[q].element, source[q].property).1,
                            animation: source[q].animation,
                        }),
                decreases transition.animations.len() - a,
            {
                let animation = &transition.animations[a];
                let (t, p) = self.reference(animation.element, animation.property);
                animations.push(
                    TransitionAnimation { element: t, property: p, animation: animation.animation },
                );
                a += 1;
            }
            assert(animations@ =~= hoisted_transitions(
                self@,
                views(transitions@),
            )[k as int].animations);
            out.push(Transition { state: transition.state, animations });
            k += 1;
        }
        assert(views(out@) =~= hoisted_transitions(self@, views(transitions@)));
        out
    }
}

/// Works out the plan for a component; `None` when a position would not
/// fit.
fn plan(component: &Component) -> (out: Option<Hoister>)
    ensures
        match out {
            Some(h) => movable(component@.elements) && h@ == plan_of(component@.elements)
                && h.wf(),
            None => !movable(component@.elements),
        },
{
    let ghost elements = component@.elements;
    let mut own: Vec<usize> = Vec::new();
    let mut declared: Vec<usize> = Vec::new();
    let mut start: Vec<usize> = Vec::new();
    if component.elements.len() == 0 {
        let h = Hoister { own, declared, start };
        assert(h@.own =~= plan_of(elements).own);
        assert(h@.declared =~= plan_of(elements).declared);
        assert(h@.start =~= plan_of(elements).start);
        return Some(h);
    }
    assert(elements[0] == component.elements@[0]@);
    let root_own = match component.elements[0].base_type {
        Type::Builtin(kind) => builtin_count(kind),
        _ => 0,
    };
    let mut next = match root_own.checked_add(component.elements[0].declarations.len()) {
        Some(next) => next,
        None => {
            return None;
        },
    };
    let mut i: usize = 0;
    while i < component.elements.len()
        invariant
            elements == component@.elements,
            elements.len() > 0,
            i <= component.elements.len(),
            own@.len() == i,
            declared@.len() == i,
            start@.len() == i,
            next == root_end(elements) + declared_before(elements, i as int),
            forall|q: int| 0 <= q < i ==> (#[trigger] own@[q]) == item_cells(elements[q]),
            forall|q: int| 0 <= q < i ==> (#[trigger] declared@[q]) == elements[q].declarations.len(),
            forall|q: int|
                0 <= q < i ==> (#[trigger] start@[q]) == root_end(elements) + declared_before(
                    elements,
                    q,
                ),
            forall|q: int| 0 < q < i ==> (#[trigger] start@[q]) + declared@[q] <= usize::MAX,
        decreases component.elements.len() - i,
    {
        let element = &component.elements[i];
        assert(elements[i as int] == element@);
        let count = match element.base_type {
            Type::Builtin(kind) => builtin_count(kind),
            _ => 0,
        };
        let after = if i == 0 {
            Some(next)
        } else {
            next.checked_add(element.declarations.len())
        };
        match after {
            Some(after) => {
                own.push(count);
                declared.push(element.declarations.len());
                start.push(next);
                next = after;
            },
            None => {
                proof {
                    lemma_declared_before_monotone(elements, i + 1, elements.len() as int);
                }
                return None;
            },
        }
        i += 1;
    }
    let h = Hoister { own, declared, start };
    assert(h@.own =~= plan_of(elements).own);
    assert(h@.declared =~= plan_of(elements).declared);
    assert(h@.start =~= plan_of(elements).start);
    Some(h)
}

/// The count of moved declarations grows with the number of elements
/// counted.
pub proof fn lemma_declared_before_monotone(elements: Seq<ElementView>, low: int, high: int)
    requires
        low <= high,
    ensures
        declared_before(elements, low) <= declared_before(elements, high),
    decreases high - low,
{
    if low < high {
        lemma_declared_before_monotone(elements, low, high - 1);
    }
}

/// Moves the declarations of a component to its root.
pub fn move_declarations(component: &mut Component)
    ensures
        final(component)@ == with_moved_declarations(old(component)@),
{
    let ghost c = component@;
    let hoister = match plan(component) {
        Some(hoister) => hoister,
        None => {
            return ;
        },
    };
    let ghost p = hoister@;
    let mut declarations: Vec<PropertyDeclaration> = Vec::new();
    let mut bindings: Vec<Binding> = Vec::new();
    let mut i: usize = 1;
    proof {
        assert(views(declarations@) =~= gathered_declarations(c.elements, 1));
        assert(views(bindings@) =~= gathered_bindings(p, c.elements, 1));
    }
    while i < component.elements.len()
        invariant
            c == old(component)@,
            *component == *old(component),
            hoister.wf(),
            p == hoister@,
            1 <= i,
            i <= component.elements.len() || component.elements.len() == 0,
            component.elements.len() == 0 ==> i == 1,
            views(declarations@) == gathered_declarations(c.elements, i as int),
            views(bindings@) == gathered_bindings(p, c.elements, i as int),
        decreases component.elements.len() - i,
    {
        let element = &component.elements[i];
        assert(c.elements[i as int] == element@);
        let mut d: usize = 0;
        let ghost before = views(declarations@);
        while d < element.declarations.len()
            invariant
                d <= element.declarations.len(),
                views(declarations@) == before + views(element.declarations@).subrange(0, d as int),
            decreases element.declarations.len() - d,
        {
            let ghost sofar = views(declarations@);
            declarations.push(clone_declaration(&element.declarations[d]));
            assert(views(declarations@) =~= sofar.push(element.declarations@[d as int]@));
            assert(views(declarations@) =~= before + views(element.declarations@).subrange(
                0,
                d + 1,
            ));
            d += 1;
        }
        assert(views(element.declarations@).subrange(0, d as int) =~= views(element.declarations@));
        hoister.take(&element.bindings, i, &mut bindings);
        i += 1;
    }
    let count = component.elements.len();
    let ghost all_declarations = gathered_declarations(c.elements, c.elements.len() as int);
    let ghost all_bindings = gathered_bindings(p, c.elements, c.elements.len() as int);
    proof {
        assert(c.elements.len() == count);
        if count == 0 {
            assert(i == 1);
            assert(gathered_declarations(c.elements, 0) =~= gathered_declarations(c.elements, 1));
            assert(gathered_bindings(p, c.elements, 0) =~= gathered_bindings(p, c.elements, 1));
        } else {
            assert(i == count);
        }
        assert(views(declarations@) == all_declarations);
        assert(views(bindings@) == all_bindings);
    }
    let mut n: usize = 0;
    while n < count
        invariant
            c == old(component)@,
            component.id == old(component).id,
            component.repeaters == old(component).repeaters,
            component.elements@.len() == c.elements.len(),
            count == c.elements.len(),
            hoister.wf(),
            p == hoister@,
            n <= count,
            all_declarations == gathered_declarations(c.elements, c.elements.len() as int),
            all_bindings == gathered_bindings(p, c.elements, c.elements.len() as int),
            n == 0 ==> views(declarations@) == all_declarations && views(bindings@)
                == all_bindings,
            forall|q: int|
                0 <= q < n ==> (#[trigger] component.elements@[q])@ == hoisted_element(
                    p,
                    c.elements,
                    q,
                ),
            forall|q: int|
                n <= q < c.elements.len() ==> (#[trigger] component.elements@[q])@ == c.elements[q],
        decreases count - n,
    {
        let ghost before = component.elements@;
        let ghost e = c.elements[n as int];
        assert(before[n as int]@ == e);
        let mut kept = hoister.keep(&component.elements[n].bindings, n);
        let states = hoister.states(&component.elements[n].states);
        let transitions = hoister.transitions(&component.elements[n].transitions);
        let model = match &component.elements[n].repeated {
            Some(model) => Some(hoister.rewrite(model)),
            None => None,
        };
        if n == 0 {
            let ghost kept_before = views(kept@);
            let ghost own_before = views(component.elements@[0].declarations@);
            kept.append(&mut bindings);
            component.elements[n].declarations.append(&mut declarations);
            proof {
                assert(views(kept@) =~= kept_before + all_bindings);
                assert(views(component.elements@[0].declarations@) =~= own_before
                    + all_declarations);
            }
        } else {
            component.elements[n].declarations = Vec::new();
            assert(views(component.elements@[n as int].declarations@) =~= Seq::<
                DeclarationView,
            >::empty());
        }
        let ghost declarations_now = views(component.elements@[n as int].declarations@);
        let ghost kept_now = views(kept@);
        component.elements[n].bindings = kept;
        component.elements[n].states = states;
        component.elements[n].transitions = transitions;
        component.elements[n].repeated = model;
        proof {
            let made = component.elements@[n as int]@;
            let wanted = hoisted_element(p, c.elements, n as int);
            if n == 0 {
                assert(declarations_now =~= e.declarations + all_declarations);
                assert(wanted.declarations =~= e.declarations + all_declarations);
                assert(kept_now =~= kept_bindings(p, 0, e.bindings, e.bindings.len() as int)
                    + all_bindings);
                assert(wanted.bindings =~= kept_bindings(p, 0, e.bindings, e.bindings.len() as int)
                    + all_bindings);
            } else {
                assert(declarations_now =~= Seq::<DeclarationView>::empty());
                assert(wanted.declarations =~= Seq::<DeclarationView>::empty());
                assert(kept_now =~= kept_bindings(p, n as int, e.bindings, e.bindings.len() as int));
                assert(wanted.bindings =~= kept_bindings(
                    p,
                    n as int,
                    e.bindings,
                    e.bindings.len() as int,
                ));
            }
            assert(made.declarations =~= wanted.declarations);
            assert(made.bindings =~= wanted.bindings);
            assert forall|q: int| 0 <= q < n + 1 implies (#[trigger] component.elements@[q])@
                == hoisted_element(p, c.elements, q) by {
                if q < n {
                    assert(component.elements@[q] == before[q]);
                }
            }
            assert forall|q: int| n + 1 <= q < c.elements.len() implies (
            #[trigger] component.elements@[q])@ == c.elements[q] by {
                assert(component.elements@[q] == before[q]);
            }
        }
        n += 1;
    }
    let ghost elements_done = component.elements@;
    let mut r: usize = 0;
    while r < component.repeaters.len()
        invariant
            c == old(component)@,
            component.id == old(component).id,
            component.elements@ == elements_done,
            component.repeaters@.len() == c.repeaters.len(),
            hoister.wf(),
            p == hoister@,
            r <= component.repeaters.len(),
            forall|q: int|
                0 <= q < r ==> (#[trigger] component.repeaters@[q])@ == (RepeaterView {
                    model: hoisted(p, c.repeaters[q].model),
                    ..c.repeaters[q]
                }),
            forall|q: int|
                r <= q < c.repeaters.len() ==> (#[trigger] component.repeaters@[q])@
                    == c.repeaters[q],
        decreases component.repeaters.len() - r,
    {
        let ghost before = component.repeaters@;
        assert(before[r as int]@ == c.repeaters[r as int]);
        let model = hoister.rewrite(&component.repeaters[r].model);
        component.repeaters[r].model = model;
        proof {
            assert forall|q: int| 0 <= q < r + 1 implies (#[trigger] component.repeaters@[q])@ == (
            RepeaterView { model: hoisted(p, c.repeaters[q].model), ..c.repeaters[q] }) by {
                if q < r {
                    assert(component.repeaters@[q] == before[q]);
                }
            }
            assert forall|q: int| r + 1 <= q < c.repeaters.len() implies (
            #[trigger] component.repeaters@[q])@ == c.repeaters[q] by {
                assert(component.repeaters@[q] == before[q]);
            }
        }
        r += 1;
    }
    proof {
        assert(component@.elements =~= with_moved_declarations(c).elements);
        assert(component@.repeaters =~= with_moved_declarations(c).repeaters);
    }
}

} // verus!

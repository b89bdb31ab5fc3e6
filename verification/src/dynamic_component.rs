//! Compiled components and their live instances.
//!
//! A [`ComponentDescription`] is made once from a lowered component. It says
//! which property cells an instance has, what each cell holds at first, and
//! where each field stands in the instance's block. A [`ComponentBox`] is one
//! instance: it owns its cells, its signal handlers and the instances that
//! its repeaters have made.
//!
//! An instance holds the description that it was made from, and every
//! operation that a description is asked to do on an instance begins with
//! the question whether the instance holds this very description. Two
//! descriptions are never taken for each other, however alike they are:
//! the question is answered by the object, not by what it says. What the
//! operation does then is told by a function of its own, which takes the
//! answer as an argument. The number that a description carries only
//! tells apart the descriptions that one source has numbered.
//!
//! The cells of an instance are numbered. Cell 0 holds the index of the
//! instance in its repeater and cell 1 its model datum. Then come the cells
//! of the items, element by element, then the cells of the properties that
//! the root element declares, then one cell for the model of each repeater.

use vstd::prelude::*;
use std::rc::Rc;
use crate::passes::resolving::{contains_invalid, has_invalid};
use crate::dynamic_type::{block_size, DynamicLayout, FieldKind};
use crate::eval::{default_for, default_value, Value, ValueModel};
use crate::properties::{denotation, BindingLoop, Content, PropertyStore};
use crate::expression_tree::{clone_expression, Expression};
use crate::animations::{animated_value, finished, is_finished, value_at};
use crate::items::{
    models, InputEventResult, Item, MouseEvent, PropertyAnimation, TouchArea,
};
use crate::names::{same_text, views};
use crate::object_tree::{
    element_table, BindingView, Component, ComponentView, Document, DocumentView, Element,
    ElementView,
};
use crate::typeregister::{
    builtin_count, builtin_properties, builtin_table, decl, DeclarationView, ItemKind,
    PropertyDeclaration, Type,
};

verus! {

/// The number of cells that the item of an element takes: one for each
/// property or signal of a built-in kind, none for other elements.
pub open spec fn item_cells(element: ElementView) -> nat {
    match element.base_type {
        Type::Builtin(kind) => builtin_table(kind).len(),
        _ => 0,
    }
}

/// The number of cells of the items of the first `n` elements.
pub open spec fn cells_before(elements: Seq<ElementView>, n: int) -> nat
    decreases n,
{
    if n <= 0 {
        0
    } else {
        cells_before(elements, n - 1) + item_cells(elements[n - 1])
    }
}

/// The cell of the first property of the item of element `i`.
pub open spec fn first_slot(component: ComponentView, i: int) -> nat {
    2 + cells_before(component.elements, i)
}

/// The cell of the first property that the root element declares.
pub open spec fn declared_base(component: ComponentView) -> nat {
    first_slot(component, component.elements.len() as int)
}

/// The number of properties and signals that the root element declares.
pub open spec fn declared_count(component: ComponentView) -> nat {
    if component.elements.len() == 0 {
        0
    } else {
        component.elements[0].declarations.len()
    }
}

/// The cell of the model of the first repeater.
pub open spec fn model_base(component: ComponentView) -> nat {
    declared_base(component) + declared_count(component)
}

/// The number of cells of an instance.
pub open spec fn cell_total(component: ComponentView) -> nat {
    model_base(component) + component.repeaters.len()
}

/// The cell that holds a property of an element, for the properties that
/// have a cell: those of the item of the element and those that the root
/// declares.
pub open spec fn slot_of(component: ComponentView, element: int, property: int) -> Option<nat> {
    if 0 <= element < component.elements.len() && 0 <= property {
        let e = component.elements[element];
        if property < item_cells(e) {
            Some((first_slot(component, element) + property) as nat)
        } else if element == 0 && property - item_cells(e) < e.declarations.len() {
            Some((declared_base(component) + property - item_cells(e)) as nat)
        } else {
            None
        }
    } else {
        None
    }
}

/// An expression of the component as an instance evaluates it: every
/// reference to a property is the number of its cell. A reference to a
/// property without a cell, and every form that has no value at run time,
/// is `Invalid`.
pub open spec fn translated(component: ComponentView, e: Expression) -> Expression
    decreases e,
{
    match e {
        Expression::StringLiteral(_) => e,
        Expression::NumberLiteral(_) => e,
        Expression::BoolLiteral(_) => e,
        Expression::ColorLiteral(_) => e,
        Expression::ResourceReference(_) => e,
        Expression::EmbeddedResource(_) => e,
        Expression::Default(_) => e,
        Expression::PropertySlot(_) => e,
        Expression::PropertyReference { element, property } => match slot_of(
            component,
            element as int,
            property as int,
        ) {
            Some(slot) => if slot <= usize::MAX {
                Expression::PropertySlot(slot as usize)
            } else {
                Expression::Invalid
            },
            None => Expression::Invalid,
        },
        Expression::SignalReference { element, property } => match slot_of(
            component,
            element as int,
            property as int,
        ) {
            Some(slot) => if slot <= usize::MAX {
                Expression::SignalSlot(slot as usize)
            } else {
                Expression::Invalid
            },
            None => Expression::Invalid,
        },
        Expression::SignalSlot(_) => e,
        Expression::RepeaterIndexReference => Expression::PropertySlot(0),
        Expression::RepeaterModelReference => Expression::PropertySlot(1),
        Expression::BinaryExpression { lhs, rhs, op } => Expression::BinaryExpression {
            lhs: Box::new(translated(component, *lhs)),
            rhs: Box::new(translated(component, *rhs)),
            op,
        },
        Expression::UnaryExpression { sub, op } => Expression::UnaryExpression {
            sub: Box::new(translated(component, *sub)),
            op,
        },
        Expression::Condition { condition, true_expr, false_expr } => Expression::Condition {
            condition: Box::new(translated(component, *condition)),
            true_expr: Box::new(translated(component, *true_expr)),
            false_expr: Box::new(translated(component, *false_expr)),
        },
        _ => Expression::Invalid,
    }
}

/// The binding that counts for a property: the last one in the list.
pub open spec fn binding_of(bindings: Seq<BindingView>, property: int) -> Option<BindingView>
    decreases bindings.len(),
{
    if bindings.len() == 0 {
        None
    } else if bindings.last().property == property {
        Some(bindings.last())
    } else {
        binding_of(bindings.drop_last(), property)
    }
}

/// What a cell is made from: the type of the property, the binding that
/// gives its value, and the animation that runs when a value is written.
#[derive(Debug)]
pub struct CellDescription {
    pub property_type: Type,
    pub binding: Option<Expression>,
    pub animation: Option<PropertyAnimation>,
}

/// The cell of property `property` of element `element`.
pub open spec fn cell_for(component: ComponentView, element: int, property: int) -> CellDescription {
    let e = component.elements[element];
    match binding_of(e.bindings, property) {
        Some(b) => CellDescription {
            property_type: element_table(e)[property].property_type,
            binding: Some(translated(component, b.expression)),
            animation: b.animation,
        },
        None => CellDescription {
            property_type: element_table(e)[property].property_type,
            binding: None,
            animation: None,
        },
    }
}

/// The cell of the model of repeater `r`.
pub open spec fn model_cell(component: ComponentView, r: int) -> CellDescription {
    CellDescription {
        property_type: Type::Invalid,
        binding: Some(translated(component, component.repeaters[r].model)),
        animation: None,
    }
}

/// A cell that the instance's maker fills: the index or the model datum.
pub open spec fn hidden_cell() -> CellDescription {
    CellDescription { property_type: Type::Invalid, binding: None, animation: None }
}

/// The cell of property `p` of the item of element `i`.
pub open spec fn item_slot(component: ComponentView, i: int, p: int) -> int {
    first_slot(component, i) + p
}

/// The cell of the `d`-th property that the root declares.
pub open spec fn declared_slot(component: ComponentView, d: int) -> int {
    declared_base(component) + d
}

/// The cell of the model of repeater `r`.
pub open spec fn model_slot(component: ComponentView, r: int) -> int {
    model_base(component) + r
}

/// The cells of the instances of a component are the two hidden cells, the
/// cells of the items, the cells of the root's declared properties and the
/// cells of the repeaters' models, each as the component says.
pub open spec fn cells_match(component: ComponentView, cells: Seq<CellDescription>) -> bool {
    &&& cells.len() == cell_total(component)
    &&& cells[0] == hidden_cell()
    &&& cells[1] == hidden_cell()
    &&& forall|i: int, p: int|
        0 <= i < component.elements.len() && 0 <= p < item_cells(component.elements[i])
            ==> cells[#[trigger] item_slot(component, i, p)] == cell_for(component, i, p)
    &&& forall|d: int|
        0 <= d < declared_count(component) ==> cells[#[trigger] declared_slot(component, d)]
            == cell_for(component, 0, item_cells(component.elements[0]) + d)
    &&& forall|r: int|
        0 <= r < component.repeaters.len() ==> cells[#[trigger] model_slot(component, r)]
            == model_cell(component, r)
}

/// A source of numbers for descriptions. The numbers tell the descriptions
/// that one source has numbered from each other, and nothing more: two
/// sources hand out the same numbers, and whether an instance is one of a
/// description is never decided by the number alone.
pub struct IdentitySource {
    next: u64,
}

impl IdentitySource {
    /// The next number that the source hands out.
    pub closed spec fn upcoming(&self) -> u64 {
        self.next
    }

    /// A source that has handed out nothing yet.
    pub fn new() -> (source: Self)
        ensures
            source.upcoming() == 0,
    {
        IdentitySource { next: 0 }
    }

    /// A source that hands out `first` and the numbers after it: for a
    /// host that has numbered descriptions before.
    pub fn starting_at(first: u64) -> (source: Self)
        ensures
            source.upcoming() == first,
    {
        IdentitySource { next: first }
    }

    /// Hands out a number that the source has not handed out before; fails
    /// only when the numbers have run out.
    pub fn fresh(&mut self) -> (identity: Option<u64>)
        ensures
            match identity {
                Some(n) => n == old(self).upcoming() && final(self).upcoming() == n + 1,
                None => old(self).upcoming() == u64::MAX && final(self).upcoming() == u64::MAX,
            },
    {
        if self.next == u64::MAX {
            None
        } else {
            let n = self.next;
            self.next = n + 1;
            Some(n)
        }
    }
}

/// Where the cells of a component stand, worked out once for all its
/// expressions.
pub struct SlotTable {
    /// For each element the cell of the first property of its item.
    pub first: Vec<usize>,
    /// For each element the number of cells of its item.
    pub counts: Vec<usize>,
    /// The cell of the first property that the root declares.
    pub declared_base: usize,
    /// The number of properties that the root declares.
    pub declared_count: usize,
}

impl SlotTable {
    /// The table holds what the component gives.
    pub open spec fn matches(&self, component: ComponentView) -> bool {
        &&& self.first@.len() == component.elements.len()
        &&& self.counts@.len() == component.elements.len()
        &&& forall|i: int|
            0 <= i < component.elements.len() ==> #[trigger] self.first@[i] == first_slot(
                component,
                i,
            )
        &&& forall|i: int|
            0 <= i < component.elements.len() ==> #[trigger] self.counts@[i] == item_cells(
                component.elements[i],
            )
        &&& self.declared_base == declared_base(component)
        &&& self.declared_count == declared_count(component)
        &&& model_base(component) <= usize::MAX
    }

    /// The cell of a property of an element, if the property has one.
    fn slot(&self, element: usize, property: usize, Ghost(component): Ghost<ComponentView>) -> (slot:
        Option<usize>)
        requires
            self.matches(component),
        ensures
            match slot {
                Some(s) => slot_of(component, element as int, property as int) == Some(s as nat),
                None => slot_of(component, element as int, property as int).is_none(),
            },
    {
        if element < self.first.len() {
            let count = self.counts[element];
            proof {
                lemma_slots_bounded(component, element as int);
            }
            if property < count {
                Some(self.first[element] + property)
            } else if element == 0 && property - count < self.declared_count {
                Some(self.declared_base + (property - count))
            } else {
                None
            }
        } else {
            None
        }
    }
}

/// The cells of the items lie before the cells of the declared properties.
pub proof fn lemma_slots_bounded(component: ComponentView, i: int)
    requires
        0 <= i < component.elements.len(),
    ensures
        first_slot(component, i) + item_cells(component.elements[i]) <= declared_base(component),
        first_slot(component, i) + item_cells(component.elements[i]) == first_slot(
            component,
            i + 1,
        ),
{
    lemma_cells_before_monotone(component.elements, i + 1, component.elements.len() as int);
}

/// The count of cells grows with the number of elements counted.
pub proof fn lemma_cells_before_monotone(elements: Seq<ElementView>, low: int, high: int)
    requires
        0 <= low <= high,
    ensures
        cells_before(elements, low) <= cells_before(elements, high),
    decreases high - low,
{
    if low < high {
        lemma_cells_before_monotone(elements, low, high - 1);
    }
}

/// Two different properties with cells have different cells.
pub proof fn lemma_slots_distinct(
    component: ComponentView,
    first: int,
    first_property: int,
    second: int,
    second_property: int,
)
    requires
        slot_of(component, first, first_property).is_some(),
        slot_of(component, second, second_property).is_some(),
        (first, first_property) != (second, second_property),
    ensures
        slot_of(component, first, first_property) != slot_of(component, second, second_property),
        2 <= slot_of(component, first, first_property).unwrap() < model_base(component),
{
    lemma_slots_bounded(component, first);
    lemma_slots_bounded(component, second);
    if first < second {
        lemma_cells_before_monotone(component.elements, first + 1, second);
    } else if second < first {
        lemma_cells_before_monotone(component.elements, second + 1, first);
    }
}

/// The expression as an instance evaluates it.
fn translate(e: &Expression, table: &SlotTable, Ghost(component): Ghost<ComponentView>) -> (r:
    Expression)
    requires
        table.matches(component),
    ensures
        r == translated(component, *e),
    decreases *e,
{
    match e {
        Expression::StringLiteral(s) => Expression::StringLiteral(s.clone()),
        Expression::NumberLiteral(n) => Expression::NumberLiteral(*n),
        Expression::BoolLiteral(b) => Expression::BoolLiteral(*b),
        Expression::ColorLiteral(c) => Expression::ColorLiteral(*c),
        Expression::ResourceReference(s) => Expression::ResourceReference(s.clone()),
        Expression::EmbeddedResource(i) => Expression::EmbeddedResource(*i),
        Expression::Default(ty) => Expression::Default(*ty),
        Expression::PropertySlot(slot) => Expression::PropertySlot(*slot),
        Expression::PropertyReference { element, property } => match table.slot(
            *element,
            *property,
            Ghost(component),
        ) {
            Some(slot) => Expression::PropertySlot(slot),
            None => Expression::Invalid,
        },
        Expression::SignalReference { element, property } => match table.slot(
            *element,
            *property,
            Ghost(component),
        ) {
            Some(slot) => Expression::SignalSlot(slot),
            None => Expression::Invalid,
        },
        Expression::SignalSlot(slot) => Expression::SignalSlot(*slot),
        Expression::RepeaterIndexReference => Expression::PropertySlot(0),
        Expression::RepeaterModelReference => Expression::PropertySlot(1),
        Expression::BinaryExpression { lhs, rhs, op } => Expression::BinaryExpression {
            lhs: Box::new(translate(lhs, table, Ghost(component))),
            rhs: Box::new(translate(rhs, table, Ghost(component))),
            op: *op,
        },
        Expression::UnaryExpression { sub, op } => Expression::UnaryExpression {
            sub: Box::new(translate(sub, table, Ghost(component))),
            op: *op,
        },
        Expression::Condition { condition, true_expr, false_expr } => Expression::Condition {
            condition: Box::new(translate(condition, table, Ghost(component))),
            true_expr: Box::new(translate(true_expr, table, Ghost(component))),
            false_expr: Box::new(translate(false_expr, table, Ghost(component))),
        },
        _ => Expression::Invalid,
    }
}

/// Works out where the cells of a component stand. Fails when there would be
/// more cells than can be numbered.
pub fn slot_table(component: &Component) -> (table: Option<SlotTable>)
    ensures
        match table {
            Some(t) => t.matches(component@) && cell_total(component@) <= usize::MAX,
            None => cell_total(component@) > usize::MAX,
        },
{
    let mut first: Vec<usize> = Vec::new();
    let mut counts: Vec<usize> = Vec::new();
    let mut next: usize = 2;
    let mut i: usize = 0;
    let ghost view = component@;
    while i < component.elements.len()
        invariant
            view == component@,
            i <= component.elements.len(),
            first@.len() == i,
            counts@.len() == i,
            next == first_slot(view, i as int),
            forall|k: int| 0 <= k < i ==> #[trigger] first@[k] == first_slot(view, k),
            forall|k: int| 0 <= k < i ==> #[trigger] counts@[k] == item_cells(view.elements[k]),
        decreases component.elements.len() - i,
    {
        let count = match component.elements[i].base_type {
            Type::Builtin(kind) => builtin_count(kind),
            _ => 0,
        };
        assert(view.elements[i as int] == component.elements@[i as int]@);
        assert(count == item_cells(view.elements[i as int]));
        first.push(next);
        counts.push(count);
        match next.checked_add(count) {
            Some(sum) => {
                next = sum;
            },
            None => {
                proof {
                    lemma_cells_before_monotone(
                        view.elements,
                        i + 1,
                        view.elements.len() as int,
                    );
                }
                return None;
            },
        }
        i += 1;
    }
    let declared = if component.elements.len() == 0 {
        0
    } else {
        component.elements[0].declarations.len()
    };
    proof {
        if component.elements.len() > 0 {
            assert(view.elements[0] == component.elements@[0]@);
        }
    }
    let models = match next.checked_add(declared) {
        Some(sum) => sum,
        None => {
            return None;
        },
    };
    match models.checked_add(component.repeaters.len()) {
        Some(_) => Some(SlotTable { first, counts, declared_base: next, declared_count: declared }),
        None => None,
    }
}

/// The position of the binding that counts for a property.
pub fn find_binding(bindings: &Vec<crate::object_tree::Binding>, property: usize) -> (found: Option<
    usize,
>)
    ensures
        match found {
            Some(k) => k < bindings.len() && binding_of(views(bindings@), property as int) == Some(
                bindings@[k as int]@,
            ),
            None => binding_of(views(bindings@), property as int).is_none(),
        },
{
    let mut i: usize = bindings.len();
    assert(views(bindings@).subrange(0, i as int) =~= views(bindings@));
    while i > 0
        invariant
            i <= bindings.len(),
            binding_of(views(bindings@), property as int) == binding_of(
                views(bindings@).subrange(0, i as int),
                property as int,
            ),
        decreases i,
    {
        let ghost prefix = views(bindings@).subrange(0, i as int);
        i -= 1;
        assert(prefix.last() == bindings@[i as int]@);
        assert(prefix.drop_last() =~= views(bindings@).subrange(0, i as int));
        if bindings[i].property == property {
            return Some(i);
        }
    }
    None
}

/// The cell of one property of one element.
fn make_cell(
    element: &Element,
    property: usize,
    property_type: Type,
    table: &SlotTable,
    Ghost(component): Ghost<ComponentView>,
    Ghost(i): Ghost<int>,
) -> (cell: CellDescription)
    requires
        table.matches(component),
        0 <= i < component.elements.len(),
        element@ == component.elements[i],
        property_type == element_table(element@)[property as int].property_type,
    ensures
        cell == cell_for(component, i, property as int),
{
    match find_binding(&element.bindings, property) {
        Some(k) => CellDescription {
            property_type,
            binding: Some(translate(&element.bindings[k].expression, table, Ghost(component))),
            animation: element.bindings[k].animation,
        },
        None => CellDescription { property_type, binding: None, animation: None },
    }
}

/// The cells of the instances of a component.
pub fn build_cells(component: &Component, table: &SlotTable) -> (cells: Vec<CellDescription>)
    requires
        table.matches(component@),
        cell_total(component@) <= usize::MAX,
    ensures
        cells_match(component@, cells@),
{
    let ghost view = component@;
    let mut cells: Vec<CellDescription> = Vec::new();
    cells.push(CellDescription { property_type: Type::Invalid, binding: None, animation: None });
    cells.push(CellDescription { property_type: Type::Invalid, binding: None, animation: None });
    let mut i: usize = 0;
    while i < component.elements.len()
        invariant
            view == component@,
            table.matches(view),
            i <= component.elements.len(),
            cells@.len() == first_slot(view, i as int),
            cells@[0] == hidden_cell(),
            cells@[1] == hidden_cell(),
            forall|e: int, p: int|
                0 <= e < i && 0 <= p < item_cells(view.elements[e]) ==> cells@[#[trigger] item_slot(
                    view,
                    e,
                    p,
                )] == cell_for(view, e, p),
        decreases component.elements.len() - i,
    {
        let element = &component.elements[i];
        assert(view.elements[i as int] == element@);
        proof {
            lemma_slots_bounded(view, i as int);
        }
        match element.base_type {
            Type::Builtin(kind) => {
                let properties = builtin_properties(kind);
                let mut p: usize = 0;
                while p < properties.len()
                    invariant
                        view == component@,
                        table.matches(view),
                        i < component.elements.len(),
                        element@ == view.elements[i as int],
                        element.base_type == Type::Builtin(kind),
                        views(properties@) == builtin_table(kind),
                        p <= properties.len(),
                        cells@.len() == first_slot(view, i as int) + p,
                        cells@[0] == hidden_cell(),
                        cells@[1] == hidden_cell(),
                        forall|e: int, q: int|
                            0 <= e < i && 0 <= q < item_cells(view.elements[e])
                                ==> cells@[#[trigger] item_slot(view, e, q)] == cell_for(view, e, q),
                        forall|q: int|
                            0 <= q < p ==> cells@[#[trigger] item_slot(view, i as int, q)]
                                == cell_for(view, i as int, q),
                    decreases properties.len() - p,
                {
                    assert(views(properties@)[p as int] == properties@[p as int]@);
                    assert(element_table(element@)[p as int] == builtin_table(kind)[p as int]);
                    let cell = make_cell(
                        element,
                        p,
                        properties[p].property_type,
                        table,
                        Ghost(view),
                        Ghost(i as int),
                    );
                    let ghost before = cells@;
                    cells.push(cell);
                    proof {
                        assert forall|e: int, q: int|
                            0 <= e < i && 0 <= q < item_cells(view.elements[e])
                                implies cells@[#[trigger] item_slot(view, e, q)] == cell_for(
                                view,
                                e,
                                q,
                            ) by {
                            lemma_slots_bounded(view, e);
                            lemma_cells_before_monotone(view.elements, e + 1, i as int);
                            assert(cells@[item_slot(view, e, q)] == before[item_slot(view, e, q)]);
                        }
                        assert forall|q: int| 0 <= q < p + 1 implies cells@[#[trigger] item_slot(
                            view,
                            i as int,
                            q,
                        )] == cell_for(view, i as int, q) by {
                            if q < p {
                                assert(cells@[item_slot(view, i as int, q)] == before[item_slot(
                                    view,
                                    i as int,
                                    q,
                                )]);
                            }
                        }
                    }
                    p += 1;
                }
            },
            _ => {},
        }
        i += 1;
    }
    let declared = table.declared_count;
    let mut d: usize = 0;
    while d < declared
        invariant
            view == component@,
            table.matches(view),
            declared == declared_count(view),
            d <= declared,
            cells@.len() == declared_base(view) + d,
            cells@[0] == hidden_cell(),
            cells@[1] == hidden_cell(),
            forall|e: int, p: int|
                0 <= e < view.elements.len() && 0 <= p < item_cells(view.elements[e])
                    ==> cells@[#[trigger] item_slot(view, e, p)] == cell_for(view, e, p),
            forall|k: int|
                0 <= k < d ==> cells@[#[trigger] declared_slot(view, k)] == cell_for(
                    view,
                    0,
                    item_cells(view.elements[0]) + k,
                ),
        decreases declared - d,
    {
        let root = &component.elements[0];
        assert(view.elements[0] == root@);
        let count = table.counts[0];
        assert(count == item_cells(view.elements[0]));
        proof {
            lemma_slots_bounded(view, 0);
            assert(views(root.declarations@)[d as int] == root.declarations@[d as int]@);
            assert(element_table(root@)[count + d] == root@.declarations[d as int]);
        }
        let cell = make_cell(
            root,
            count + d,
            root.declarations[d].property_type,
            table,
            Ghost(view),
            Ghost(0),
        );
        let ghost before = cells@;
        cells.push(cell);
        proof {
            assert forall|e: int, p: int|
                0 <= e < view.elements.len() && 0 <= p < item_cells(view.elements[e])
                    implies cells@[#[trigger] item_slot(view, e, p)] == cell_for(view, e, p) by {
                lemma_slots_bounded(view, e);
                assert(cells@[item_slot(view, e, p)] == before[item_slot(view, e, p)]);
            }
            assert forall|k: int| 0 <= k < d + 1 implies cells@[#[trigger] declared_slot(view, k)]
                == cell_for(view, 0, item_cells(view.elements[0]) + k) by {
                if k < d {
                    assert(cells@[declared_slot(view, k)] == before[declared_slot(view, k)]);
                }
            }
        }
        d += 1;
    }
    let mut r: usize = 0;
    while r < component.repeaters.len()
        invariant
            view == component@,
            table.matches(view),
            r <= component.repeaters.len(),
            cells@.len() == model_base(view) + r,
            cells@[0] == hidden_cell(),
            cells@[1] == hidden_cell(),
            forall|e: int, p: int|
                0 <= e < view.elements.len() && 0 <= p < item_cells(view.elements[e])
                    ==> cells@[#[trigger] item_slot(view, e, p)] == cell_for(view, e, p),
            forall|k: int|
                0 <= k < declared_count(view) ==> cells@[#[trigger] declared_slot(view, k)]
                    == cell_for(view, 0, item_cells(view.elements[0]) + k),
            forall|k: int|
                0 <= k < r ==> cells@[#[trigger] model_slot(view, k)] == model_cell(view, k),
        decreases component.repeaters.len() - r,
    {
        assert(view.repeaters[r as int] == component.repeaters@[r as int]@);
        let cell = CellDescription {
            property_type: Type::Invalid,
            binding: Some(translate(&component.repeaters[r].model, table, Ghost(view))),
            animation: None,
        };
        let ghost before = cells@;
        cells.push(cell);
        proof {
            assert forall|e: int, p: int|
                0 <= e < view.elements.len() && 0 <= p < item_cells(view.elements[e])
                    implies cells@[#[trigger] item_slot(view, e, p)] == cell_for(view, e, p) by {
                lemma_slots_bounded(view, e);
                assert(cells@[item_slot(view, e, p)] == before[item_slot(view, e, p)]);
            }
            assert forall|k: int|
                0 <= k < declared_count(view) implies cells@[#[trigger] declared_slot(view, k)]
                == cell_for(view, 0, item_cells(view.elements[0]) + k) by {
                assert(cells@[declared_slot(view, k)] == before[declared_slot(view, k)]);
            }
            assert forall|k: int| 0 <= k < r + 1 implies cells@[#[trigger] model_slot(view, k)]
                == model_cell(view, k) by {
                if k < r {
                    assert(cells@[model_slot(view, k)] == before[model_slot(view, k)]);
                }
            }
        }
        r += 1;
    }
    cells
}

/// The fields of the items of the first `n` elements, in order: one record
/// for each element whose base type is built in.
pub open spec fn item_fields(elements: Seq<ElementView>, n: int) -> Seq<FieldKind>
    decreases n,
{
    if n <= 0 {
        Seq::empty()
    } else {
        match elements[n - 1].base_type {
            Type::Builtin(kind) => item_fields(elements, n - 1).push(FieldKind::Item(kind)),
            _ => item_fields(elements, n - 1),
        }
    }
}

/// The field of a declared property or signal.
pub open spec fn declared_field(d: DeclarationView) -> FieldKind {
    if d.property_type == Type::Signal {
        FieldKind::Signal
    } else {
        FieldKind::Property(d.property_type)
    }
}

/// The fields of an instance, in the order in which they are laid out: the
/// records of the items, the properties and signals that the root declares,
/// and one list for each repeater.
pub open spec fn layout_fields(component: ComponentView) -> Seq<FieldKind> {
    item_fields(component.elements, component.elements.len() as int) + Seq::new(
        declared_count(component),
        |d: int| declared_field(component.elements[0].declarations[d]),
    ) + Seq::new(component.repeaters.len(), |r: int| FieldKind::Repeater)
}

/// The fields of an instance of the component.
pub fn fields_of(component: &Component) -> (fields: Vec<FieldKind>)
    ensures
        fields@ == layout_fields(component@),
{
    let ghost view = component@;
    let mut fields: Vec<FieldKind> = Vec::new();
    let mut i: usize = 0;
    while i < component.elements.len()
        invariant
            view == component@,
            i <= component.elements.len(),
            fields@ == item_fields(view.elements, i as int),
        decreases component.elements.len() - i,
    {
        assert(view.elements[i as int] == component.elements@[i as int]@);
        match component.elements[i].base_type {
            Type::Builtin(kind) => {
                fields.push(FieldKind::Item(kind));
            },
            _ => {},
        }
        i += 1;
    }
    let ghost items = fields@;
    if component.elements.len() > 0 {
        let root = &component.elements[0];
        assert(view.elements[0] == root@);
        let mut d: usize = 0;
        while d < root.declarations.len()
            invariant
                view == component@,
                view.elements.len() > 0,
                root@ == view.elements[0],
                d <= root.declarations.len(),
                fields@ == items + Seq::new(
                    d as nat,
                    |k: int| declared_field(view.elements[0].declarations[k]),
                ),
            decreases root.declarations.len() - d,
        {
            assert(views(root.declarations@)[d as int] == root.declarations@[d as int]@);
            let kind = if root.declarations[d].property_type == Type::Signal {
                FieldKind::Signal
            } else {
                FieldKind::Property(root.declarations[d].property_type)
            };
            fields.push(kind);
            assert(fields@ =~= items + Seq::new(
                (d + 1) as nat,
                |k: int| declared_field(view.elements[0].declarations[k]),
            ));
            d += 1;
        }
    } else {
        assert(fields@ =~= items + Seq::new(
            0nat,
            |k: int| declared_field(view.elements[0].declarations[k]),
        ));
    }
    let ghost declared = fields@;
    let mut r: usize = 0;
    while r < component.repeaters.len()
        invariant
            view == component@,
            r <= component.repeaters.len(),
            fields@ == declared + Seq::new(r as nat, |k: int| FieldKind::Repeater),
        decreases component.repeaters.len() - r,
    {
        fields.push(FieldKind::Repeater);
        assert(fields@ =~= declared + Seq::new((r + 1) as nat, |k: int| FieldKind::Repeater));
        r += 1;
    }
    fields
}

/// A property or signal that the root element declares: what a host may
/// name.
#[derive(Debug)]
pub struct PublicProperty {
    pub name: String,
    pub property_type: Type,
    /// The cell of the property.
    pub slot: usize,
}

/// Where the item of an element stands among the cells.
#[derive(Clone, Copy, Debug)]
pub struct ItemDescription {
    /// The kind of the item; `None` for an element without an item.
    pub kind: Option<ItemKind>,
    /// The cell of the first property of the item.
    pub first_slot: usize,
}

/// A repeater of a component: where its model is evaluated and what it
/// instantiates.
pub struct RepeaterDescription {
    /// The cell that holds the model.
    pub model_slot: usize,
    /// What the repeater instantiates. The instances hold it too.
    pub template: Rc<ComponentDescription>,
}

/// The compiled form of a component: what an instance is made from.
pub struct ComponentDescription {
    pub id: String,
    /// The number that the instances carry.
    pub identity: u64,
    pub layout: DynamicLayout,
    pub cells: Vec<CellDescription>,
    /// What the root declares, in the order of declaration.
    pub public: Vec<PublicProperty>,
    /// One entry for each element.
    pub items: Vec<ItemDescription>,
    pub repeaters: Vec<RepeaterDescription>,
    /// How deeply templates nest below this description.
    pub nesting: Ghost<nat>,
}

/// Why a description could not be made.
#[derive(Clone, Copy, Debug, PartialEq, Eq, Structural)]
pub enum BuildError {
    /// The document has no component at the given position.
    UnknownComponent,
    /// An instance would have more cells, or more bytes, than can be
    /// addressed.
    TooLarge,
    /// The source of identities has run out.
    IdentitiesExhausted,
    /// A repeater names a template that is not a later component of the
    /// document.
    NotLowered,
}

/// What making the description of component `index` comes to, when `next` is
/// the next identity: the next identity afterwards, or the reason for which
/// no description is made. The description takes the first identity, then
/// the templates of its repeaters are made in order.
pub open spec fn outcome(doc: DocumentView, index: int, next: nat) -> Result<nat, BuildError>
    decreases doc.components.len() - index, 1nat, 0nat,
{
    if !(0 <= index < doc.components.len()) {
        Err(BuildError::UnknownComponent)
    } else if cell_total(doc.components[index]) > usize::MAX || block_size(
        layout_fields(doc.components[index]),
    ) > usize::MAX {
        Err(BuildError::TooLarge)
    } else if next >= u64::MAX {
        Err(BuildError::IdentitiesExhausted)
    } else {
        templates_outcome(doc, index, doc.components[index].repeaters.len(), next + 1)
    }
}

/// What making the templates of the first `n` repeaters of component `index`
/// comes to.
pub open spec fn templates_outcome(doc: DocumentView, index: int, n: nat, next: nat) -> Result<
    nat,
    BuildError,
>
    decreases doc.components.len() - index, 0nat, n,
{
    if !(0 <= index < doc.components.len()) {
        Err(BuildError::UnknownComponent)
    } else if n == 0 {
        Ok(next)
    } else {
        match templates_outcome(doc, index, (n - 1) as nat, next) {
            Err(e) => Err(e),
            Ok(after) => {
                let template = doc.components[index].repeaters[n - 1].component as int;
                if template <= index || template >= doc.components.len() {
                    Err(BuildError::NotLowered)
                } else {
                    outcome(doc, template, after)
                }
            },
        }
    }
}

impl ComponentDescription {
    /// The description is consistent in itself: every cell that it names is
    /// a cell of the instance, and its templates are consistent.
    pub open spec fn wf(&self) -> bool
        decreases self.nesting@,
    {
        &&& self.layout.wf()
        &&& self.cells@.len() >= 2
        &&& forall|k: int|
            0 <= k < self.public@.len() ==> (#[trigger] self.public@[k]).slot < self.cells@.len()
        &&& forall|k: int|
            0 <= k < self.items@.len() ==> match (#[trigger] self.items@[k]).kind {
                Some(kind) => self.items@[k].first_slot + builtin_table(kind).len()
                    <= self.cells@.len(),
                None => true,
            }
        &&& forall|r: int|
            0 <= r < self.repeaters@.len() ==> {
                &&& (#[trigger] self.repeaters@[r]).model_slot < self.cells@.len()
                &&& self.repeaters@[r].template.nesting@ < self.nesting@
                &&& self.repeaters@[r].template.wf()
            }
    }

    /// The description is the one of component `index` of the document.
    pub open spec fn describes(&self, doc: DocumentView, index: int) -> bool
        decreases self.nesting@,
    {
        &&& 0 <= index < doc.components.len()
        &&& self.id@ == doc.components[index].id
        &&& cells_match(doc.components[index], self.cells@)
        &&& self.layout.fields() == layout_fields(doc.components[index])
        &&& self.public@.len() == declared_count(doc.components[index])
        &&& forall|d: int|
            0 <= d < self.public@.len() ==> {
                &&& (#[trigger] self.public@[d]).name@
                    == doc.components[index].elements[0].declarations[d].name
                &&& self.public@[d].property_type
                    == doc.components[index].elements[0].declarations[d].property_type
                &&& self.public@[d].slot == declared_slot(doc.components[index], d)
            }
        &&& self.items@.len() == doc.components[index].elements.len()
        &&& forall|i: int|
            0 <= i < self.items@.len() ==> {
                &&& (#[trigger] self.items@[i]).first_slot == first_slot(doc.components[index], i)
                &&& self.items@[i].kind == match doc.components[index].elements[i].base_type {
                    Type::Builtin(kind) => Some(kind),
                    _ => None,
                }
            }
        &&& self.repeaters@.len() == doc.components[index].repeaters.len()
        &&& forall|r: int|
            0 <= r < self.repeaters@.len() ==> {
                &&& (#[trigger] self.repeaters@[r]).model_slot == model_slot(
                    doc.components[index],
                    r,
                )
                &&& self.repeaters@[r].template.nesting@ < self.nesting@
                &&& self.repeaters@[r].template.describes(
                    doc,
                    doc.components[index].repeaters[r].component as int,
                )
            }
    }

    /// Every identity in the description, its own and those of its
    /// templates at any depth, lies in the given range.
    pub open spec fn identities_within(&self, low: nat, high: nat) -> bool
        decreases self.nesting@,
    {
        &&& low <= self.identity < high
        &&& forall|r: int|
            0 <= r < self.repeaters@.len() ==> {
                &&& (#[trigger] self.repeaters@[r]).template.nesting@ < self.nesting@
                &&& self.repeaters@[r].template.identities_within(low, high)
            }
    }

    /// Makes the description of component `index` of a lowered document,
    /// numbering it and its templates from `identities`.
    pub fn build(doc: &Document, index: usize, identities: &mut IdentitySource) -> (result: Result<
        Rc<ComponentDescription>,
        BuildError,
    >)
        ensures
            match outcome(doc@, index as int, old(identities).upcoming() as nat) {
                Ok(after) => {
                    &&& result is Ok
                    &&& result.unwrap().wf()
                    &&& result.unwrap().describes(doc@, index as int)
                    &&& result.unwrap().identity == old(identities).upcoming()
                    &&& result.unwrap().identities_within(
                        old(identities).upcoming() as nat,
                        after,
                    )
                    &&& final(identities).upcoming() == after
                },
                Err(e) => result == Err::<Rc<ComponentDescription>, BuildError>(e),
            },
        decreases doc.components.len() - index,
    {
        let ghost view = doc@;
        let ghost start = identities.upcoming() as nat;
        if index >= doc.components.len() {
            return Err(BuildError::UnknownComponent);
        }
        let component = &doc.components[index];
        let ghost comp = view.components[index as int];
        assert(comp == component@);
        let table = match slot_table(component) {
            Some(table) => table,
            None => {
                return Err(BuildError::TooLarge);
            },
        };
        let layout = match DynamicLayout::build(fields_of(component)) {
            Ok(layout) => layout,
            Err(_) => {
                return Err(BuildError::TooLarge);
            },
        };
        let identity = match identities.fresh() {
            Some(identity) => identity,
            None => {
                return Err(BuildError::IdentitiesExhausted);
            },
        };
        let cells = build_cells(component, &table);
        let mut repeaters: Vec<RepeaterDescription> = Vec::new();
        let ghost mut nesting: nat = 0;
        let mut r: usize = 0;
        while r < component.repeaters.len()
            invariant
                view == doc@,
                index < doc.components.len(),
                comp == component@,
                comp == view.components[index as int],
                table.matches(comp),
                cell_total(comp) <= usize::MAX,
                cells_match(comp, cells@),
                r <= component.repeaters.len(),
                repeaters@.len() == r,
                templates_outcome(view, index as int, r as nat, start + 1) == Ok::<
                    nat,
                    BuildError,
                >(identities.upcoming() as nat),
                start == old(identities).upcoming(),
                outcome(view, index as int, start) == templates_outcome(
                    view,
                    index as int,
                    comp.repeaters.len(),
                    start + 1,
                ),
                start + 1 <= identities.upcoming(),
                forall|k: int|
                    0 <= k < r ==> {
                        &&& (#[trigger] repeaters@[k]).model_slot == model_slot(comp, k)
                        &&& repeaters@[k].template.nesting@ < nesting
                        &&& repeaters@[k].template.wf()
                        &&& repeaters@[k].template.describes(
                            view,
                            comp.repeaters[k].component as int,
                        )
                        &&& repeaters@[k].template.identities_within(
                            start + 1,
                            identities.upcoming() as nat,
                        )
                    },
            decreases component.repeaters.len() - r,
        {
            assert(comp.repeaters[r as int] == component.repeaters@[r as int]@);
            let template_index = component.repeaters[r].component;
            if template_index <= index || template_index >= doc.components.len() {
                proof {
                    lemma_template_error_stays(
                        view,
                        index as int,
                        (r + 1) as nat,
                        comp.repeaters.len(),
                        start + 1,
                    );
                }
                return Err(BuildError::NotLowered);
            }
            let ghost before = identities.upcoming() as nat;
            let template = match ComponentDescription::build(doc, template_index, identities) {
                Ok(template) => template,
                Err(e) => {
                    proof {
                        lemma_template_error_stays(
                            view,
                            index as int,
                            (r + 1) as nat,
                            comp.repeaters.len(),
                            start + 1,
                        );
                    }
                    return Err(e);
                },
            };
            let model = table.declared_base + table.declared_count + r;
            let made: &ComponentDescription = &template;
            proof {
                let deeper = template.nesting@ + 1;
                let wider = if deeper > nesting {
                    deeper
                } else {
                    nesting
                };
                assert forall|k: int| 0 <= k < r implies (#[trigger] repeaters@[k]).template.identities_within(
                    start + 1,
                    identities.upcoming() as nat,
                ) by {
                    lemma_identities_widen(
                        *repeaters@[k].template,
                        start + 1,
                        before,
                        start + 1,
                        identities.upcoming() as nat,
                    );
                }
                lemma_identities_widen(
                    *made,
                    before,
                    identities.upcoming() as nat,
                    start + 1,
                    identities.upcoming() as nat,
                );
                nesting = wider;
            }
            repeaters.push(RepeaterDescription { model_slot: model, template });
            r += 1;
        }
        let mut public: Vec<PublicProperty> = Vec::new();
        if component.elements.len() > 0 {
            let root = &component.elements[0];
            assert(comp.elements[0] == root@);
            let mut d: usize = 0;
            while d < root.declarations.len()
                invariant
                    comp == component@,
                    comp.elements.len() > 0,
                    root@ == comp.elements[0],
                    table.matches(comp),
                    cell_total(comp) <= usize::MAX,
                    d <= root.declarations.len(),
                    public@.len() == d,
                    forall|k: int|
                        0 <= k < d ==> {
                            &&& (#[trigger] public@[k]).name@ == comp.elements[0].declarations[k].name
                            &&& public@[k].property_type
                                == comp.elements[0].declarations[k].property_type
                            &&& public@[k].slot == declared_slot(comp, k)
                        },
                decreases root.declarations.len() - d,
            {
                assert(views(root.declarations@)[d as int] == root.declarations@[d as int]@);
                public.push(
                    PublicProperty {
                        name: root.declarations[d].name.clone(),
                        property_type: root.declarations[d].property_type,
                        slot: table.declared_base + d,
                    },
                );
                d += 1;
            }
        }
        let mut items: Vec<ItemDescription> = Vec::new();
        let mut i: usize = 0;
        while i < component.elements.len()
            invariant
                comp == component@,
                table.matches(comp),
                i <= component.elements.len(),
                items@.len() == i,
                forall|k: int|
                    0 <= k < i ==> {
                        &&& (#[trigger] items@[k]).first_slot == first_slot(comp, k)
                        &&& items@[k].kind == match comp.elements[k].base_type {
                            Type::Builtin(kind) => Some(kind),
                            _ => None,
                        }
                    },
            decreases component.elements.len() - i,
        {
            assert(comp.elements[i as int] == component.elements@[i as int]@);
            let kind = match component.elements[i].base_type {
                Type::Builtin(kind) => Some(kind),
                _ => None,
            };
            items.push(ItemDescription { kind, first_slot: table.first[i] });
            i += 1;
        }
        let description = ComponentDescription {
            id: component.id.clone(),
            identity,
            layout,
            cells,
            public,
            items,
            repeaters,
            nesting: Ghost(nesting),
        };
        proof {
            assert forall|k: int| 0 <= k < description.items@.len() implies match (
            #[trigger] description.items@[k]).kind {
                Some(kind) => description.items@[k].first_slot + builtin_table(kind).len()
                    <= description.cells@.len(),
                None => true,
            } by {
                lemma_slots_bounded(comp, k);
            }
            assert(outcome(view, index as int, start) == Ok::<nat, BuildError>(
                identities.upcoming() as nat,
            ));
            assert(description.layout.wf());
            assert(description.cells@.len() >= 2);
            assert(forall|k: int|
                0 <= k < description.public@.len() ==> (#[trigger] description.public@[k]).slot
                    < description.cells@.len());
            assert(forall|r: int|
                0 <= r < description.repeaters@.len() ==> {
                    &&& (#[trigger] description.repeaters@[r]).model_slot
                        < description.cells@.len()
                    &&& description.repeaters@[r].template.nesting@ < description.nesting@
                    &&& description.repeaters@[r].template.wf()
                });
            assert(description.wf());
            assert(description.describes(view, index as int));
            assert forall|r: int| 0 <= r < description.repeaters@.len() implies {
                &&& (#[trigger] description.repeaters@[r]).template.nesting@
                    < description.nesting@
                &&& description.repeaters@[r].template.identities_within(
                    start,
                    identities.upcoming() as nat,
                )
            } by {
                lemma_identities_widen(
                    *description.repeaters@[r].template,
                    start + 1,
                    identities.upcoming() as nat,
                    start,
                    identities.upcoming() as nat,
                );
            }
            assert(description.identities_within(start, identities.upcoming() as nat));
        }
        Ok(Rc::new(description))
    }
}

/// Once a template cannot be made, making more templates does not help.
pub proof fn lemma_template_error_stays(doc: DocumentView, index: int, m: nat, n: nat, next: nat)
    requires
        0 <= index < doc.components.len(),
        m <= n,
        templates_outcome(doc, index, m, next) is Err,
    ensures
        templates_outcome(doc, index, n, next) == templates_outcome(doc, index, m, next),
    decreases n,
{
    if m < n {
        lemma_template_error_stays(doc, index, m, (n - 1) as nat, next);
    }
}

/// A description whose identities lie in a range has them in every wider
/// range.
pub proof fn lemma_identities_widen(
    description: ComponentDescription,
    low: nat,
    high: nat,
    lower: nat,
    higher: nat,
)
    requires
        description.identities_within(low, high),
        lower <= low,
        high <= higher,
    ensures
        description.identities_within(lower, higher),
    decreases description.nesting@,
{
    assert forall|r: int| 0 <= r < description.repeaters@.len() implies {
        &&& (#[trigger] description.repeaters@[r]).template.nesting@ < description.nesting@
        &&& description.repeaters@[r].template.identities_within(lower, higher)
    } by {
        lemma_identities_widen(*description.repeaters@[r].template, low, high, lower, higher);
    }
}

/// Why an operation on an instance was refused.
#[derive(Clone, Copy, Debug, PartialEq, Eq, Structural)]
pub enum AccessError {
    /// The instance was not made from the description: it holds another
    /// one.
    WrongComponent,
    /// The description declares no property of that name.
    PropertyNotFound,
    /// The description declares no signal of that name.
    SignalNotFound,
    /// The property is in a binding loop and has no value.
    BindingLoop,
    /// The value is not of the type of the property.
    TypeMismatch,
}

/// Whether a value may be written into a property of the given type.
pub open spec fn fits(v: ValueModel, ty: Type) -> bool {
    match (ty, v) {
        (Type::Float32, ValueModel::Number(_)) => true,
        (Type::Int32, ValueModel::Number(_)) => true,
        (Type::String, ValueModel::String(_)) => true,
        (Type::Color, ValueModel::Color(_)) => true,
        (Type::Image, ValueModel::Resource(_)) => true,
        (Type::Image, ValueModel::EmbeddedResource(_)) => true,
        (Type::Bool, ValueModel::Bool(_)) => true,
        _ => false,
    }
}

/// Whether a value may be written into a property of the given type.
pub fn value_fits(v: &Value, ty: Type) -> (ok: bool)
    ensures
        ok == fits(v@, ty),
{
    match (ty, v) {
        (Type::Float32, Value::Number(_)) => true,
        (Type::Int32, Value::Number(_)) => true,
        (Type::String, Value::String(_)) => true,
        (Type::Color, Value::Color(_)) => true,
        (Type::Image, Value::Resource(_)) => true,
        (Type::Image, Value::EmbeddedResource(_)) => true,
        (Type::Bool, Value::Bool(_)) => true,
        _ => false,
    }
}

/// What the cells of a new instance hold: cell 0 the index, cell 1 the model
/// datum, every other cell its binding or, without one, the default value of
/// its type. A binding with a part that is `Invalid` counts as none: a
/// property whose binding was found wrong has the default value of its
/// type.
pub open spec fn initial_content(
    cells: Seq<CellDescription>,
    index: ValueModel,
    datum: ValueModel,
) -> Seq<Content> {
    Seq::new(
        cells.len(),
        |s: int|
            if s == 0 {
                Content::Literal(index)
            } else if s == 1 {
                Content::Literal(datum)
            } else {
                match cells[s].binding {
                    Some(e) => if has_invalid(e) {
                        Content::Literal(default_value(cells[s].property_type))
                    } else {
                        Content::Binding(e)
                    },
                    None => Content::Literal(default_value(cells[s].property_type)),
                }
            },
    )
}

/// The number of items that a model asks for: a number asks for that many,
/// `true` for one, everything else, a model in a binding loop too, for none.
pub open spec fn repeat_count(model: Option<ValueModel>) -> nat {
    match model {
        Some(ValueModel::Number(n)) => if n < 0 {
            0
        } else if n > usize::MAX {
            usize::MAX as nat
        } else {
            n as nat
        },
        Some(ValueModel::Bool(true)) => 1,
        _ => 0,
    }
}

/// The model datum of item `j`: its position when the model is a number,
/// nothing otherwise.
pub open spec fn item_datum(model: Option<ValueModel>, j: int) -> ValueModel {
    match model {
        Some(ValueModel::Number(_)) => ValueModel::Number(j),
        _ => ValueModel::Void,
    }
}

/// A property that is on its way to a new value.
#[derive(Clone, Copy, Debug, PartialEq, Eq, Structural)]
pub struct ActiveAnimation {
    /// The cell of the property.
    pub slot: usize,
    pub from: i64,
    pub to: i64,
    /// The time at which the value was written.
    pub start: u64,
    pub animation: PropertyAnimation,
}

/// One live instance of a component. It holds the description that it was
/// made from, so that the description lives as long as the instance and no
/// other description can take its place.
pub struct ComponentBox {
    description: Rc<ComponentDescription>,
    identity: u64,
    store: PropertyStore,
    handlers: Vec<Option<u64>>,
    children: Vec<Vec<ComponentBox>>,
    animations: Vec<ActiveAnimation>,
    now: u64,
}

/// The state of an instance.
pub struct BoxView {
    /// The identity of the description that the instance was made from.
    pub identity: u64,
    /// What each cell holds.
    pub content: Seq<Content>,
    /// For each cell the handler that was set for the signal of the cell.
    pub handlers: Seq<Option<u64>>,
    /// For each repeater the instances that it has made.
    pub children: Seq<Seq<ComponentBox>>,
    /// The animations that are running.
    pub animations: Seq<ActiveAnimation>,
    /// The time of the last tick.
    pub now: u64,
}

/// Calls `core::ptr::eq` on the two descriptions. Trusted: when the call
/// says that the two are one and the same object, they are equal. Nothing
/// is said of two that the call tells apart: two objects can be equal in
/// everything and still be two.
#[verifier::external_body]
fn same_object(a: &ComponentDescription, b: &ComponentDescription) -> (same: bool)
    ensures
        same ==> *a == *b,
{
    core::ptr::eq(a, b)
}

impl View for ComponentBox {
    type V = BoxView;

    closed spec fn view(&self) -> BoxView {
        BoxView {
            identity: self.identity,
            content: self.store.content(),
            handlers: self.handlers@,
            children: Seq::new(self.children@.len(), |r: int| self.children@[r]@),
            animations: self.animations@,
            now: self.now,
        }
    }
}

impl ComponentBox {
    /// The instance is consistent in itself and with the description that
    /// it holds, and so are the instances that its repeaters have made.
    pub closed spec fn wf(&self) -> bool
        decreases self,
    {
        &&& self.description.wf()
        &&& self.identity == self.description.identity
        &&& self.store.spec_len() == self.description.cells@.len()
        &&& self.children@.len() == self.description.repeaters@.len()
        &&& self.store.wf()
        &&& self.store.spec_len() >= 2
        &&& self.handlers@.len() == self.store.spec_len()
        &&& forall|k: int|
            0 <= k < self.animations@.len() ==> (#[trigger] self.animations@[k]).slot
                < self.store.spec_len()
        &&& forall|k: int, l: int|
            0 <= k < l < self.animations@.len() ==> self.animations@[k].slot
                != self.animations@[l].slot
        &&& forall|r: int, j: int|
            0 <= r < self.children.len() && 0 <= j < self.children[r].len()
                ==> (#[trigger] self.children[r][j]).wf()
    }

    /// A consistent instance has as many handlers as cells, and at least the
    /// two hidden cells.
    pub proof fn lemma_wf_shape(&self)
        requires
            self.wf(),
        ensures
            self@.handlers.len() == self@.content.len(),
            self@.content.len() >= 2,
            forall|k: int|
                0 <= k < self@.animations.len() ==> (#[trigger] self@.animations[k]).slot
                    < self@.content.len(),
            forall|k: int, l: int|
                0 <= k < l < self@.animations.len() ==> self@.animations[k].slot
                    != self@.animations[l].slot,
    {
        self.store.lemma_content_len();
    }

    /// The instances that the repeaters of a consistent instance have made
    /// are consistent.
    pub proof fn lemma_children_wf(&self, r: int, j: int)
        requires
            self.wf(),
            0 <= r < self@.children.len(),
            0 <= j < self@.children[r].len(),
        ensures
            self@.children[r][j].wf(),
    {
        assert(self.children[r][j].wf());
    }
}

/// The instance is as a new instance of the description is: it holds the
/// description, its cells hold
/// what the description says, with the given index and model datum; no
/// handler is set and nothing moves; and each repeater has made as many
/// instances as its model asks for, each of them as new.
pub open spec fn freshly_made(
    description: ComponentDescription,
    instance: ComponentBox,
    index: ValueModel,
    datum: ValueModel,
) -> bool
    decreases description.nesting@,
{
    &&& instance.description() == description
    &&& instance@.identity == description.identity
    &&& instance@.content == initial_content(description.cells@, index, datum)
    &&& instance@.handlers == Seq::new(description.cells@.len(), |s: int| None::<u64>)
    &&& instance@.animations == Seq::<ActiveAnimation>::empty()
    &&& instance@.now == 0
    &&& instance@.children.len() == description.repeaters@.len()
    &&& forall|r: int|
        0 <= r < description.repeaters@.len() ==> (#[trigger] instance@.children[r]).len()
            == repeat_count(
            denotation(instance@.content, description.repeaters@[r].model_slot as int),
        )
    &&& forall|r: int, j: int|
        0 <= r < description.repeaters@.len() && 0 <= j < instance@.children[r].len() ==> {
            &&& description.repeaters@[r].template.nesting@ < description.nesting@
            &&& freshly_made(
                *description.repeaters@[r].template,
                #[trigger] instance@.children[r][j],
                ValueModel::Number(j),
                item_datum(
                    denotation(instance@.content, description.repeaters@[r].model_slot as int),
                    j,
                ),
            )
        }
}

/// Two new instances of one description are in the same state. Each owns
/// its state: whatever is done later to the one is done through a mutable
/// reference to it alone, and leaves the other in the state it has.
pub proof fn lemma_fresh_instances_agree(
    description: ComponentDescription,
    a: ComponentBox,
    b: ComponentBox,
    index: ValueModel,
    datum: ValueModel,
)
    requires
        freshly_made(description, a, index, datum),
        freshly_made(description, b, index, datum),
    ensures
        a@.identity == b@.identity,
        a@.content == b@.content,
        a@.handlers == b@.handlers,
        a@.animations == b@.animations,
        a@.now == b@.now,
        a@.children.len() == b@.children.len(),
        forall|r: int|
            0 <= r < a@.children.len() ==> (#[trigger] a@.children[r]).len()
                == b@.children[r].len(),
{
}

/// The number of items that the value of a model asks for, and whether the
/// items have a datum.
fn count_of(model: &Result<Value, BindingLoop>) -> (out: (usize, bool))
    ensures
        out.0 == repeat_count(
            match *model {
                Ok(v) => Some(v@),
                Err(_) => None,
            },
        ),
        out.1 == (match *model {
            Ok(Value::Number(_)) => true,
            _ => false,
        }),
        out.0 <= i64::MAX,
{
    match model {
        Ok(Value::Number(n)) => {
            if *n < 0 {
                (0, true)
            } else if *n as u64 > usize::MAX as u64 {
                (usize::MAX, true)
            } else {
                (*n as usize, true)
            }
        },
        Ok(Value::Bool(true)) => (1, false),
        _ => (0, false),
    }
}

/// Makes a new instance of the description with the given index and model
/// datum.
fn instantiate(description: &Rc<ComponentDescription>, index: Value, datum: Value) -> (instance:
    ComponentBox)
    requires
        description.wf(),
    ensures
        instance.wf(),
        freshly_made(**description, instance, index@, datum@),
    decreases description.nesting@,
{
    let mut store = PropertyStore::new();
    let mut handlers: Vec<Option<u64>> = Vec::new();
    store.push_literal(index);
    store.push_literal(datum);
    handlers.push(None);
    handlers.push(None);
    let mut s: usize = 2;
    while s < description.cells.len()
        invariant
            2 <= s <= description.cells.len(),
            store.wf(),
            store.fresh(),
            store.spec_len() == s,
            handlers@.len() == s,
            forall|k: int| 0 <= k < s ==> (#[trigger] handlers@[k]).is_none(),
            store.content() == initial_content(description.cells@, index@, datum@).subrange(
                0,
                s as int,
            ),
        decreases description.cells.len() - s,
    {
        let ghost before = store.content();
        match &description.cells[s].binding {
            Some(e) => {
                if contains_invalid(e) {
                    store.push_literal(default_for(description.cells[s].property_type));
                } else {
                    store.push_binding(clone_expression(e));
                }
            },
            None => {
                store.push_literal(default_for(description.cells[s].property_type));
            },
        }
        handlers.push(None);
        assert(store.content() =~= initial_content(description.cells@, index@, datum@).subrange(
            0,
            s + 1,
        ));
        s += 1;
    }
    let ghost content = store.content();
    assert(content =~= initial_content(description.cells@, index@, datum@));
    let mut children: Vec<Vec<ComponentBox>> = Vec::new();
    let mut r: usize = 0;
    while r < description.repeaters.len()
        invariant
            description.wf(),
            r <= description.repeaters.len(),
            store.wf(),
            store.content() == content,
            store.spec_len() == description.cells@.len(),
            children@.len() == r,
            forall|k: int|
                0 <= k < r ==> (#[trigger] children@[k]@).len() == repeat_count(
                    denotation(content, description.repeaters@[k].model_slot as int),
                ),
            forall|k: int, j: int|
                0 <= k < r && 0 <= j < children@[k]@.len() ==> {
                    &&& (#[trigger] children@[k]@[j]).wf()
                    &&& freshly_made(
                        *description.repeaters@[k].template,
                        children@[k]@[j],
                        ValueModel::Number(j),
                        item_datum(
                            denotation(content, description.repeaters@[k].model_slot as int),
                            j,
                        ),
                    )
                },
        decreases description.repeaters.len() - r,
    {
        let repeater = &description.repeaters[r];
        let model = store.get(repeater.model_slot);
        let (count, numbered) = count_of(&model);
        let ghost meaning = denotation(content, repeater.model_slot as int);
        let mut list: Vec<ComponentBox> = Vec::new();
        let mut j: usize = 0;
        while j < count
            invariant
                description.wf(),
                r < description.repeaters.len(),
                *repeater == description.repeaters@[r as int],
                j <= count <= i64::MAX,
                numbered == (meaning matches Some(ValueModel::Number(_))),
                list@.len() == j,
                forall|i: int|
                    0 <= i < j ==> {
                        &&& (#[trigger] list@[i]).wf()
                        &&& freshly_made(
                            *repeater.template,
                            list@[i],
                            ValueModel::Number(i),
                            item_datum(meaning, i),
                        )
                    },
            decreases count - j,
        {
            let item_index = Value::Number(j as i64);
            let item_value = if numbered {
                Value::Number(j as i64)
            } else {
                Value::Void
            };
            let child = instantiate(&repeater.template, item_index, item_value);
            list.push(child);
            j += 1;
        }
        children.push(list);
        r += 1;
    }
    let instance = ComponentBox {
        description: description.clone(),
        identity: description.identity,
        store,
        handlers,
        children,
        animations: Vec::new(),
        now: 0,
    };
    proof {
        assert(instance@.handlers =~= Seq::new(description.cells@.len(), |s: int| None::<u64>));
        assert(instance@.animations =~= Seq::<ActiveAnimation>::empty());
        assert forall|k: int|
            0 <= k < description.repeaters@.len() implies (#[trigger] instance@.children[k]).len()
            == repeat_count(
            denotation(instance@.content, description.repeaters@[k].model_slot as int),
        ) by {
            assert(instance@.children[k] == children@[k]@);
        }
        assert forall|k: int, j: int|
            0 <= k < description.repeaters@.len() && 0 <= j < instance@.children[k].len() implies {
            &&& description.repeaters@[k].template.nesting@ < description.nesting@
            &&& freshly_made(
                *description.repeaters@[k].template,
                #[trigger] instance@.children[k][j],
                ValueModel::Number(j),
                item_datum(
                    denotation(instance@.content, description.repeaters@[k].model_slot as int),
                    j,
                ),
            )
        } by {
            assert(instance@.children[k] == children@[k]@);
            assert(children@[k]@[j].wf());
        }
    }
    instance
}

/// The first declaration of `name` among the public ones that is a signal,
/// or that is a property, as `signal` asks.
pub open spec fn public_at(public: Seq<PublicProperty>, name: Seq<char>, signal: bool) -> Option<
    int,
>
    decreases public.len(),
{
    if public.len() == 0 {
        None
    } else if public[0].name@ == name && (public[0].property_type == Type::Signal) == signal {
        Some(0)
    } else {
        match public_at(public.subrange(1, public.len() as int), name, signal) {
            Some(k) => Some(k + 1),
            None => None,
        }
    }
}

/// `public_at` gives the first declaration that has the name and is of the
/// wanted sort, and misses only what is not declared.
pub proof fn lemma_public_at(public: Seq<PublicProperty>, name: Seq<char>, signal: bool)
    ensures
        match public_at(public, name, signal) {
            Some(k) => 0 <= k < public.len() && public[k].name@ == name && (public[k].property_type
                == Type::Signal) == signal && forall|i: int|
                0 <= i < k ==> !((#[trigger] public[i]).name@ == name && (public[i].property_type
                    == Type::Signal) == signal),
            None => forall|i: int|
                0 <= i < public.len() ==> !((#[trigger] public[i]).name@ == name && (
                public[i].property_type == Type::Signal) == signal),
        },
    decreases public.len(),
{
    if public.len() > 0 && !(public[0].name@ == name && (public[0].property_type == Type::Signal)
        == signal) {
        let rest = public.subrange(1, public.len() as int);
        lemma_public_at(rest, name, signal);
        match public_at(rest, name, signal) {
            Some(k) => {
                assert(rest[k] == public[k + 1]);
                assert forall|i: int| 0 <= i < k + 1 implies !((#[trigger] public[i]).name@ == name
                    && (public[i].property_type == Type::Signal) == signal) by {
                    if i > 0 {
                        assert(rest[i - 1] == public[i]);
                    }
                }
            },
            None => {
                assert forall|i: int| 0 <= i < public.len() implies !((#[trigger] public[i]).name@
                    == name && (public[i].property_type == Type::Signal) == signal) by {
                    if i > 0 {
                        assert(rest[i - 1] == public[i]);
                    }
                }
            },
        }
    }
}

/// The position of the first public declaration of `name` of the wanted
/// sort.
pub fn find_public(public: &Vec<PublicProperty>, name: &str, signal: bool) -> (found: Option<usize>)
    ensures
        match found {
            Some(k) => public_at(public@, name@, signal) == Some(k as int) && k < public.len(),
            None => public_at(public@, name@, signal).is_none(),
        },
{
    let mut i: usize = 0;
    while i < public.len()
        invariant
            i <= public.len(),
            forall|k: int|
                0 <= k < i ==> !((#[trigger] public@[k]).name@ == name@ && (
                public@[k].property_type == Type::Signal) == signal),
        decreases public.len() - i,
    {
        let is_signal = public[i].property_type == Type::Signal;
        if is_signal == signal && same_text(public[i].name.as_str(), name) {
            proof {
                lemma_public_at(public@, name@, signal);
            }
            return Some(i);
        }
        i += 1;
    }
    proof {
        lemma_public_at(public@, name@, signal);
    }
    None
}

/// An expression that a host wrote, as an instance evaluates it: a name
/// written alone stands for the public property of that name, by its cell;
/// what names nothing is `Invalid`.
pub open spec fn bound(public: Seq<PublicProperty>, e: Expression) -> Expression
    decreases e,
{
    match e {
        Expression::StringLiteral(_) => e,
        Expression::NumberLiteral(_) => e,
        Expression::BoolLiteral(_) => e,
        Expression::ColorLiteral(_) => e,
        Expression::ResourceReference(_) => e,
        Expression::EmbeddedResource(_) => e,
        Expression::Default(_) => e,
        Expression::Identifier { scope, name } => if scope@.len() == 0 {
            match public_at(public, name@, false) {
                Some(k) => Expression::PropertySlot(public[k].slot),
                None => Expression::Invalid,
            }
        } else {
            Expression::Invalid
        },
        Expression::BinaryExpression { lhs, rhs, op } => Expression::BinaryExpression {
            lhs: Box::new(bound(public, *lhs)),
            rhs: Box::new(bound(public, *rhs)),
            op,
        },
        Expression::UnaryExpression { sub, op } => Expression::UnaryExpression {
            sub: Box::new(bound(public, *sub)),
            op,
        },
        Expression::Condition { condition, true_expr, false_expr } => Expression::Condition {
            condition: Box::new(bound(public, *condition)),
            true_expr: Box::new(bound(public, *true_expr)),
            false_expr: Box::new(bound(public, *false_expr)),
        },
        _ => Expression::Invalid,
    }
}

/// The expression of a host as an instance evaluates it.
pub fn bind(public: &Vec<PublicProperty>, e: &Expression) -> (r: Expression)
    ensures
        r == bound(public@, *e),
    decreases *e,
{
    match e {
        Expression::StringLiteral(s) => Expression::StringLiteral(s.clone()),
        Expression::NumberLiteral(n) => Expression::NumberLiteral(*n),
        Expression::BoolLiteral(b) => Expression::BoolLiteral(*b),
        Expression::ColorLiteral(c) => Expression::ColorLiteral(*c),
        Expression::ResourceReference(s) => Expression::ResourceReference(s.clone()),
        Expression::EmbeddedResource(i) => Expression::EmbeddedResource(*i),
        Expression::Default(ty) => Expression::Default(*ty),
        Expression::Identifier { scope, name } => {
            if scope.as_str().is_empty() {
                match find_public(public, name.as_str(), false) {
                    Some(k) => Expression::PropertySlot(public[k].slot),
                    None => Expression::Invalid,
                }
            } else {
                Expression::Invalid
            }
        },
        Expression::BinaryExpression { lhs, rhs, op } => Expression::BinaryExpression {
            lhs: Box::new(bind(public, lhs)),
            rhs: Box::new(bind(public, rhs)),
            op: *op,
        },
        Expression::UnaryExpression { sub, op } => Expression::UnaryExpression {
            sub: Box::new(bind(public, sub)),
            op: *op,
        },
        Expression::Condition { condition, true_expr, false_expr } => Expression::Condition {
            condition: Box::new(bind(public, condition)),
            true_expr: Box::new(bind(public, true_expr)),
            false_expr: Box::new(bind(public, false_expr)),
        },
        _ => Expression::Invalid,
    }
}

/// The animations that `keep` holds of, in their order.
pub open spec fn retained(
    animations: Seq<ActiveAnimation>,
    keep: spec_fn(ActiveAnimation) -> bool,
) -> Seq<ActiveAnimation>
    decreases animations.len(),
{
    if animations.len() == 0 {
        Seq::empty()
    } else if keep(animations.last()) {
        retained(animations.drop_last(), keep).push(animations.last())
    } else {
        retained(animations.drop_last(), keep)
    }
}

/// What is retained of animations of different cells are animations of
/// different cells; each was there before and is one to keep, and each one
/// to keep is retained.
pub proof fn lemma_retained(
    animations: Seq<ActiveAnimation>,
    keep: spec_fn(ActiveAnimation) -> bool,
)
    requires
        forall|k: int, l: int|
            0 <= k < l < animations.len() ==> animations[k].slot != animations[l].slot,
    ensures
        forall|k: int, l: int|
            0 <= k < l < retained(animations, keep).len() ==> retained(animations, keep)[k].slot
                != retained(animations, keep)[l].slot,
        forall|k: int|
            0 <= k < retained(animations, keep).len() ==> animations.contains(
                #[trigger] retained(animations, keep)[k],
            ) && keep(retained(animations, keep)[k]),
        forall|k: int|
            0 <= k < animations.len() && keep(animations[k]) ==> retained(
                animations,
                keep,
            ).contains(#[trigger] animations[k]),
    decreases animations.len(),
{
    if animations.len() > 0 {
        let rest = animations.drop_last();
        let last = animations.last();
        assert forall|k: int, l: int| 0 <= k < l < rest.len() implies rest[k].slot
            != rest[l].slot by {
            assert(rest[k] == animations[k]);
            assert(rest[l] == animations[l]);
        }
        lemma_retained(rest, keep);
        let out = retained(animations, keep);
        let inner = retained(rest, keep);
        assert forall|k: int| 0 <= k < out.len() implies animations.contains(#[trigger] out[k])
            && keep(out[k]) by {
            if k < inner.len() {
                assert(out[k] == inner[k]);
                assert(rest.contains(inner[k]));
                let i = choose|i: int| 0 <= i < rest.len() && rest[i] == inner[k];
                assert(animations[i] == inner[k]);
            } else {
                assert(out[k] == last);
                assert(animations[animations.len() - 1] == last);
            }
        }
        assert forall|k: int, l: int| 0 <= k < l < out.len() implies out[k].slot
            != out[l].slot by {
            if l < inner.len() {
                assert(out[k] == inner[k]);
                assert(out[l] == inner[l]);
            } else {
                assert(out[l] == last);
                assert(out[k] == inner[k]);
                assert(rest.contains(inner[k]));
                let i = choose|i: int| 0 <= i < rest.len() && rest[i] == inner[k];
                assert(animations[i] == inner[k]);
                assert(animations[animations.len() - 1] == last);
            }
        }
        assert forall|k: int| 0 <= k < animations.len() && keep(animations[k]) implies out.contains(
            #[trigger] animations[k],
        ) by {
            if k < rest.len() {
                assert(rest[k] == animations[k]);
                assert(inner.contains(rest[k]));
                let i = choose|i: int| 0 <= i < inner.len() && inner[i] == rest[k];
                assert(out[i] == animations[k]);
            } else {
                assert(out[out.len() - 1] == animations[k]);
            }
        }
    }
}

/// The animations without those of the given cell.
pub open spec fn without(animations: Seq<ActiveAnimation>, slot: usize) -> Seq<ActiveAnimation> {
    retained(animations, |a: ActiveAnimation| a.slot != slot)
}

/// The time that has passed at `now` since `start`.
pub open spec fn elapsed(start: u64, now: u64) -> int {
    if now >= start {
        now - start
    } else {
        0
    }
}

/// The animations that are not over at `now`.
pub open spec fn running(animations: Seq<ActiveAnimation>, now: u64) -> Seq<ActiveAnimation> {
    retained(animations, |a: ActiveAnimation| !finished(a.animation, elapsed(a.start, now)))
}

/// The value that an animated cell has at `now`.
pub open spec fn value_now(a: ActiveAnimation, now: u64) -> ValueModel {
    ValueModel::Number(animated_value(a.from as int, a.to as int, a.animation, elapsed(a.start, now)))
}

/// The animation that a write of `v` to the cell starts: the cell must be
/// animated over a positive time, and both the value it has and the value
/// written must be numbers, and different ones.
pub open spec fn started(
    view: BoxView,
    slot: usize,
    v: ValueModel,
    animation: Option<PropertyAnimation>,
) -> Option<ActiveAnimation> {
    match (animation, v, denotation(view.content, slot as int)) {
        (Some(a), ValueModel::Number(to), Some(ValueModel::Number(from))) => if a.duration > 0
            && from != to && i64::MIN <= from <= i64::MAX && i64::MIN <= to <= i64::MAX {
            Some(
                ActiveAnimation {
                    slot,
                    from: from as i64,
                    to: to as i64,
                    start: view.now,
                    animation: a,
                },
            )
        } else {
            None
        },
        _ => None,
    }
}

/// The state after `v` was written to a cell. Where the write starts an
/// animation, the cell keeps the value it has and the animation is recorded;
/// where it does not, the cell holds `v`. An animation that the cell had is
/// gone either way.
pub open spec fn written(
    view: BoxView,
    slot: usize,
    v: ValueModel,
    animation: Option<PropertyAnimation>,
) -> BoxView {
    match started(view, slot, v, animation) {
        Some(moving) => BoxView {
            content: view.content.update(
                slot as int,
                Content::Literal(ValueModel::Number(moving.from as int)),
            ),
            animations: without(view.animations, slot).push(moving),
            ..view
        },
        None => BoxView {
            content: view.content.update(slot as int, Content::Literal(v)),
            animations: without(view.animations, slot),
            ..view
        },
    }
}

/// A write changes what a cell holds and what moves, and nothing else.
pub proof fn lemma_written_shape(
    view: BoxView,
    slot: usize,
    v: ValueModel,
    animation: Option<PropertyAnimation>,
)
    requires
        slot < view.content.len(),
    ensures
        written(view, slot, v, animation).identity == view.identity,
        written(view, slot, v, animation).content.len() == view.content.len(),
        written(view, slot, v, animation).handlers == view.handlers,
        written(view, slot, v, animation).children == view.children,
        written(view, slot, v, animation).now == view.now,
{
}

impl ComponentBox {
    /// Forgets the animations of the given cell.
    fn stop_animations(&mut self, slot: usize)
        requires
            old(self).wf(),
        ensures
            final(self).wf(),
            final(self).description() == old(self).description(),
            final(self)@ == (BoxView {
                animations: without(old(self)@.animations, slot),
                ..old(self)@
            }),
            forall|k: int|
                0 <= k < final(self)@.animations.len() ==> (#[trigger] final(self)@.animations[k]).slot
                    != slot,
    {
        let mut kept: Vec<ActiveAnimation> = Vec::new();
        let mut i: usize = 0;
        let ghost all = self.animations@;
        let ghost keep = |a: ActiveAnimation| a.slot != slot;
        while i < self.animations.len()
            invariant
                *self == *old(self),
                all == self.animations@,
                keep == (|a: ActiveAnimation| a.slot != slot),
                i <= self.animations.len(),
                kept@ == retained(all.subrange(0, i as int), keep),
            decreases self.animations.len() - i,
        {
            let a = self.animations[i];
            proof {
                let next = all.subrange(0, i + 1);
                assert(next.last() == a);
                assert(next.drop_last() =~= all.subrange(0, i as int));
            }
            if a.slot != slot {
                kept.push(a);
            }
            i += 1;
        }
        proof {
            assert(all.subrange(0, i as int) =~= all);
            lemma_retained(all, keep);
            assert forall|k: int| 0 <= k < kept@.len() implies (#[trigger] kept@[k]).slot
                < self.store.spec_len() && kept@[k].slot != slot by {
                assert(all.contains(kept@[k]));
                let i = choose|i: int| 0 <= i < all.len() && all[i] == kept@[k];
                assert(all[i].slot < self.store.spec_len());
            }
        }
        self.animations = kept;
        proof {
            assert(self@.children =~= old(self)@.children);
        }
    }

    /// The description that the instance was made from.
    pub closed spec fn description(&self) -> ComponentDescription {
        *self.description
    }

    /// Whether the instance is one of the description: it holds this very
    /// description, and it has the number and the shape of its instances.
    /// An instance of the wrong number or shape is never one of the
    /// description; for every other instance the answer lies with the
    /// object that it holds.
    pub fn made_from(&self, description: &ComponentDescription) -> (ok: bool)
        requires
            self.wf(),
        ensures
            ok ==> description.accepts(self@) && *description == self.description(),
            !description.accepts(self@) ==> !ok,
    {
        proof {
            self.store.lemma_content_len();
        }
        self.identity == description.identity && self.store.len() == description.cells.len()
            && self.children.len() == description.repeaters.len() && same_object(
            description,
            &self.description,
        )
    }
}

impl ComponentDescription {
    /// The instance has the number of this description and the shape of
    /// its instances. An instance that has not is none of this
    /// description; one that has is one of it if it holds this very
    /// description.
    pub open spec fn accepts(&self, instance: BoxView) -> bool {
        &&& instance.identity == self.identity
        &&& instance.content.len() == self.cells@.len()
        &&& instance.children.len() == self.repeaters@.len()
    }

    /// The name of the component as the document gives it.
    pub fn id(&self) -> (name: &str)
        ensures
            name@ == self.id@,
    {
        self.id.as_str()
    }

    /// The properties and signals that the component declares for the
    /// outside, in the order of declaration.
    pub fn properties(&self) -> (list: Vec<PropertyDeclaration>)
        ensures
            views(list@) == Seq::new(
                self.public@.len(),
                |k: int| decl(self.public@[k].name@, self.public@[k].property_type),
            ),
    {
        let mut list: Vec<PropertyDeclaration> = Vec::new();
        let mut k: usize = 0;
        while k < self.public.len()
            invariant
                k <= self.public.len(),
                list@.len() == k,
                forall|i: int|
                    0 <= i < k ==> (#[trigger] list@[i])@ == decl(
                        self.public@[i].name@,
                        self.public@[i].property_type,
                    ),
            decreases self.public.len() - k,
        {
            list.push(
                PropertyDeclaration {
                    name: self.public[k].name.clone(),
                    property_type: self.public[k].property_type,
                },
            );
            k += 1;
        }
        assert(views(list@) =~= Seq::new(
            self.public@.len(),
            |k: int| decl(self.public@[k].name@, self.public@[k].property_type),
        ));
        list
    }

    /// Makes an instance: every cell holds its binding or the default value
    /// of its type, no binding has run but those of the repeaters' models,
    /// and each repeater has made one instance for each entry of its model.
    pub fn create(self: &Rc<Self>) -> (instance: ComponentBox)
        requires
            self.wf(),
        ensures
            instance.wf(),
            self.accepts(instance@),
            instance.description() == **self,
            freshly_made(**self, instance, ValueModel::Number(0), ValueModel::Void),
    {
        instantiate(self, Value::Number(0), Value::Void)
    }

    /// Reads a property. Fails when the instance is not one of this
    /// description, when no property of that name is declared, and when the
    /// property is in a binding loop. The instance is the same afterwards.
    pub fn get_property(&self, component: &mut ComponentBox, name: &str) -> (result: Result<
        Value,
        AccessError,
    >)
        requires
            self.wf(),
            old(component).wf(),
        ensures
            !(result matches Err(AccessError::WrongComponent)) ==> *self
                == old(component).description(),
            final(component).wf(),
            final(component).description() == old(component).description(),
            final(component)@ == old(component)@,
            if !self.accepts(old(component)@) {
                result == Err::<Value, AccessError>(AccessError::WrongComponent)
            } else {
                (result == Err::<Value, AccessError>(AccessError::WrongComponent))
                    || (match public_at(self.public@, name@, false) {
                    None => result == Err::<Value, AccessError>(AccessError::PropertyNotFound),
                    Some(k) => match denotation(
                        old(component)@.content,
                        self.public@[k].slot as int,
                    ) {
                        Some(v) => result is Ok && result.unwrap()@ == v,
                        None => result == Err::<Value, AccessError>(AccessError::BindingLoop),
                    },
                })
            },
    {
        let same = component.made_from(self);
        self.get_property_checked(component, name, same)
    }

    /// What [`ComponentDescription::get_property`] does once it is known whether
    /// the instance is one of this description: `same` says so.
    pub fn get_property_checked(
        &self,
        component: &mut ComponentBox,
        name: &str,
        same: bool,
    ) -> (result: Result<
        Value,
        AccessError,
    >)
        requires
            same ==> self.accepts(old(component)@),
            self.wf(),
            old(component).wf(),
        ensures
            final(component).wf(),
            final(component).description() == old(component).description(),
            final(component)@ == old(component)@,
            if !same {
                result == Err::<Value, AccessError>(AccessError::WrongComponent)
            } else {
                match public_at(self.public@, name@, false) {
                    None => result == Err::<Value, AccessError>(AccessError::PropertyNotFound),
                    Some(k) => match denotation(
                        old(component)@.content,
                        self.public@[k].slot as int,
                    ) {
                        Some(v) => result is Ok && result.unwrap()@ == v,
                        None => result == Err::<Value, AccessError>(AccessError::BindingLoop),
                    },
                }
            },
    {
        if !same {
            return Err(AccessError::WrongComponent);
        }
        let k = match find_public(&self.public, name, false) {
            Some(k) => k,
            None => {
                return Err(AccessError::PropertyNotFound);
            },
        };
        let slot = self.public[k].slot;
        proof {
            component.store.lemma_content_len();
        }
        let read = component.store.get(slot);
        proof {
            assert(component@.children =~= old(component)@.children);
        }
        match read {
            Ok(v) => Ok(v),
            Err(_) => Err(AccessError::BindingLoop),
        }
    }

    /// Writes a value into a property. Fails, and changes nothing, when the
    /// instance is not one of this description, when no property of that
    /// name is declared, and when the value is not of the property's type.
    /// Where the property is animated the value is approached over time.
    pub fn set_property(&self, component: &mut ComponentBox, name: &str, value: Value) -> (result:
        Result<(), AccessError>)
        requires
            self.wf(),
            old(component).wf(),
        ensures
            !(result matches Err(AccessError::WrongComponent)) ==> *self
                == old(component).description(),
            final(component).wf(),
            final(component).description() == old(component).description(),
            if !self.accepts(old(component)@) {
                result == Err::<(), AccessError>(AccessError::WrongComponent) && final(component)@
                    == old(component)@
            } else {
                (result == Err::<(), AccessError>(AccessError::WrongComponent) && final(component)@
                    == old(component)@) || (match public_at(self.public@, name@, false) {
                    None => result == Err::<(), AccessError>(AccessError::PropertyNotFound)
                        && final(component)@ == old(component)@,
                    Some(k) => if !fits(value@, self.public@[k].property_type) {
                        result == Err::<(), AccessError>(AccessError::TypeMismatch) && final(component)@ == old(component)@
                    } else {
                        result == Ok::<(), AccessError>(()) && final(component)@ == written(
                            old(component)@,
                            self.public@[k].slot,
                            value@,
                            self.cells@[self.public@[k].slot as int].animation,
                        )
                    },
                })
            },
    {
        let same = component.made_from(self);
        self.set_property_checked(component, name, value, same)
    }

    /// What [`ComponentDescription::set_property`] does once it is known whether
    /// the instance is one of this description: `same` says so.
    pub fn set_property_checked(
        &self,
        component: &mut ComponentBox,
        name: &str,
        value: Value,
        same: bool,
    ) -> (result:
        Result<(), AccessError>)
        requires
            same ==> self.accepts(old(component)@),
            self.wf(),
            old(component).wf(),
        ensures
            final(component).wf(),
            final(component).description() == old(component).description(),
            if !same {
                result == Err::<(), AccessError>(AccessError::WrongComponent) && final(component)@
                    == old(component)@
            } else {
                match public_at(self.public@, name@, false) {
                    None => result == Err::<(), AccessError>(AccessError::PropertyNotFound)
                        && final(component)@ == old(component)@,
                    Some(k) => if !fits(value@, self.public@[k].property_type) {
                        result == Err::<(), AccessError>(AccessError::TypeMismatch) && final(component)@ == old(component)@
                    } else {
                        result == Ok::<(), AccessError>(()) && final(component)@ == written(
                            old(component)@,
                            self.public@[k].slot,
                            value@,
                            self.cells@[self.public@[k].slot as int].animation,
                        )
                    },
                }
            },
    {
        if !same {
            return Err(AccessError::WrongComponent);
        }
        let k = match find_public(&self.public, name, false) {
            Some(k) => k,
            None => {
                return Err(AccessError::PropertyNotFound);
            },
        };
        if !value_fits(&value, self.public[k].property_type) {
            return Err(AccessError::TypeMismatch);
        }
        let slot = self.public[k].slot;
        component.write(slot, value, self.cells[slot].animation);
        Ok(())
    }

    /// Gives a property a binding in place of the value or the binding it
    /// had. In the expression a name written alone stands for the public
    /// property of that name. Fails, and changes nothing, when the instance
    /// is not one of this description and when no property of that name is
    /// declared.
    pub fn set_binding(&self, component: &mut ComponentBox, name: &str, binding: Expression) -> (result:
        Result<(), AccessError>)
        requires
            self.wf(),
            old(component).wf(),
        ensures
            !(result matches Err(AccessError::WrongComponent)) ==> *self
                == old(component).description(),
            final(component).wf(),
            final(component).description() == old(component).description(),
            if !self.accepts(old(component)@) {
                result == Err::<(), AccessError>(AccessError::WrongComponent) && final(component)@
                    == old(component)@
            } else {
                (result == Err::<(), AccessError>(AccessError::WrongComponent) && final(component)@
                    == old(component)@) || (match public_at(self.public@, name@, false) {
                    None => result == Err::<(), AccessError>(AccessError::PropertyNotFound)
                        && final(component)@ == old(component)@,
                    Some(k) => result == Ok::<(), AccessError>(()) && final(component)@ == (BoxView {
                        content: old(component)@.content.update(
                            self.public@[k].slot as int,
                            Content::Binding(bound(self.public@, binding)),
                        ),
                        animations: without(old(component)@.animations, self.public@[k].slot),
                        ..old(component)@
                    }),
                })
            },
    {
        let same = component.made_from(self);
        self.set_binding_checked(component, name, binding, same)
    }

    /// What [`ComponentDescription::set_binding`] does once it is known whether
    /// the instance is one of this description: `same` says so.
    pub fn set_binding_checked(
        &self,
        component: &mut ComponentBox,
        name: &str,
        binding: Expression,
        same: bool,
    ) -> (result:
        Result<(), AccessError>)
        requires
            same ==> self.accepts(old(component)@),
            self.wf(),
            old(component).wf(),
        ensures
            final(component).wf(),
            final(component).description() == old(component).description(),
            if !same {
                result == Err::<(), AccessError>(AccessError::WrongComponent) && final(component)@
                    == old(component)@
            } else {
                match public_at(self.public@, name@, false) {
                    None => result == Err::<(), AccessError>(AccessError::PropertyNotFound)
                        && final(component)@ == old(component)@,
                    Some(k) => result == Ok::<(), AccessError>(()) && final(component)@ == (BoxView {
                        content: old(component)@.content.update(
                            self.public@[k].slot as int,
                            Content::Binding(bound(self.public@, binding)),
                        ),
                        animations: without(old(component)@.animations, self.public@[k].slot),
                        ..old(component)@
                    }),
                }
            },
    {
        if !same {
            return Err(AccessError::WrongComponent);
        }
        let k = match find_public(&self.public, name, false) {
            Some(k) => k,
            None => {
                return Err(AccessError::PropertyNotFound);
            },
        };
        let slot = self.public[k].slot;
        let resolved = bind(&self.public, &binding);
        component.stop_animations(slot);
        let ghost before = component@;
        proof {
            component.store.lemma_content_len();
        }
        component.store.set_binding(slot, resolved);
        proof {
            assert(component@.children =~= before.children);
        }
        Ok(())
    }

    /// Sets the handler of a signal; a handler that was set before is
    /// forgotten. Fails, and changes nothing, when the instance is not one
    /// of this description and when no signal of that name is declared.
    pub fn set_signal_handler(&self, component: &mut ComponentBox, name: &str, handler: u64) -> (result:
        Result<(), AccessError>)
        requires
            self.wf(),
            old(component).wf(),
        ensures
            !(result matches Err(AccessError::WrongComponent)) ==> *self
                == old(component).description(),
            final(component).wf(),
            final(component).description() == old(component).description(),
            if !self.accepts(old(component)@) {
                result == Err::<(), AccessError>(AccessError::WrongComponent) && final(component)@
                    == old(component)@
            } else {
                (result == Err::<(), AccessError>(AccessError::WrongComponent) && final(component)@
                    == old(component)@) || (match public_at(self.public@, name@, true) {
                    None => result == Err::<(), AccessError>(AccessError::SignalNotFound) && final(component)@ == old(component)@,
                    Some(k) => result == Ok::<(), AccessError>(()) && final(component)@ == (BoxView {
                        handlers: old(component)@.handlers.update(
                            self.public@[k].slot as int,
                            Some(handler),
                        ),
                        ..old(component)@
                    }),
                })
            },
    {
        let same = component.made_from(self);
        self.set_signal_handler_checked(component, name, handler, same)
    }

    /// What [`ComponentDescription::set_signal_handler`] does once it is
    /// known whether the instance is one of this description: `same` says
    /// so.
    pub fn set_signal_handler_checked(
        &self,
        component: &mut ComponentBox,
        name: &str,
        handler: u64,
        same: bool,
    ) -> (result:
        Result<(), AccessError>)
        requires
            same ==> self.accepts(old(component)@),
            self.wf(),
            old(component).wf(),
        ensures
            final(component).wf(),
            final(component).description() == old(component).description(),
            if !same {
                result == Err::<(), AccessError>(AccessError::WrongComponent) && final(component)@
                    == old(component)@
            } else {
                match public_at(self.public@, name@, true) {
                    None => result == Err::<(), AccessError>(AccessError::SignalNotFound) && final(component)@ == old(component)@,
                    Some(k) => result == Ok::<(), AccessError>(()) && final(component)@ == (BoxView {
                        handlers: old(component)@.handlers.update(
                            self.public@[k].slot as int,
                            Some(handler),
                        ),
                        ..old(component)@
                    }),
                }
            },
    {
        if !same {
            return Err(AccessError::WrongComponent);
        }
        let k = match find_public(&self.public, name, true) {
            Some(k) => k,
            None => {
                return Err(AccessError::SignalNotFound);
            },
        };
        let slot = self.public[k].slot;
        proof {
            component.store.lemma_content_len();
        }
        component.handlers[slot] = Some(handler);
        proof {
            assert(component@.children =~= old(component)@.children);
        }
        Ok(())
    }

    /// Emits a signal: says which handler is to be invoked now, if one is
    /// set. Fails when the instance is not one of this description and when
    /// no signal of that name is declared.
    pub fn emit_signal(&self, component: &ComponentBox, name: &str) -> (result: Result<
        Option<u64>,
        AccessError,
    >)
        requires
            self.wf(),
            component.wf(),
        ensures
            !(result matches Err(AccessError::WrongComponent)) ==> *self
                == component.description(),
            if !self.accepts(component@) {
                result == Err::<Option<u64>, AccessError>(AccessError::WrongComponent)
            } else {
                (result == Err::<Option<u64>, AccessError>(AccessError::WrongComponent))
                    || (match public_at(self.public@, name@, true) {
                    None => result == Err::<Option<u64>, AccessError>(AccessError::SignalNotFound),
                    Some(k) => result == Ok::<Option<u64>, AccessError>(
                        component@.handlers[self.public@[k].slot as int],
                    ),
                })
            },
    {
        let same = component.made_from(self);
        self.emit_signal_checked(component, name, same)
    }

    /// What [`ComponentDescription::emit_signal`] does once it is known whether
    /// the instance is one of this description: `same` says so.
    pub fn emit_signal_checked(
        &self,
        component: &ComponentBox,
        name: &str,
        same: bool,
    ) -> (result: Result<
        Option<u64>,
        AccessError,
    >)
        requires
            same ==> self.accepts(component@),
            self.wf(),
            component.wf(),
        ensures
            if !same {
                result == Err::<Option<u64>, AccessError>(AccessError::WrongComponent)
            } else {
                match public_at(self.public@, name@, true) {
                    None => result == Err::<Option<u64>, AccessError>(AccessError::SignalNotFound),
                    Some(k) => result == Ok::<Option<u64>, AccessError>(
                        component@.handlers[self.public@[k].slot as int],
                    ),
                }
            },
    {
        if !same {
            return Err(AccessError::WrongComponent);
        }
        let k = match find_public(&self.public, name, true) {
            Some(k) => k,
            None => {
                return Err(AccessError::SignalNotFound);
            },
        };
        let slot = self.public[k].slot;
        proof {
            component.store.lemma_content_len();
        }
        Ok(component.handlers[slot])
    }
}

impl ComponentBox {
    /// Writes `value` to a cell, or starts to move the cell towards it.
    fn write(&mut self, slot: usize, value: Value, animation: Option<PropertyAnimation>)
        requires
            old(self).wf(),
            slot < old(self)@.content.len(),
        ensures
            final(self).wf(),
            final(self).description() == old(self).description(),
            final(self)@ == written(old(self)@, slot, value@, animation),
    {
        proof {
            self.store.lemma_content_len();
        }
        let ghost start = self@;
        self.stop_animations(slot);
        let ghost stopped = self@;
        let moving = match (animation, &value) {
            (Some(a), Value::Number(to)) => {
                if a.duration > 0 {
                    let current = self.store.get(slot);
                    proof {
                        assert(self@.children =~= stopped.children);
                    }
                    match current {
                        Ok(Value::Number(from)) => {
                            if from != *to {
                                Some(
                                    ActiveAnimation {
                                        slot,
                                        from,
                                        to: *to,
                                        start: self.now,
                                        animation: a,
                                    },
                                )
                            } else {
                                None
                            }
                        },
                        _ => None,
                    }
                } else {
                    None
                }
            },
            _ => None,
        };
        assert(self@ == stopped);
        assert(moving == started(start, slot, value@, animation));
        match moving {
            Some(m) => {
                self.store.set(slot, Value::Number(m.from));
                self.animations.push(m);
            },
            None => {
                self.store.set(slot, value);
            },
        }
        proof {
            self.store.lemma_content_len();
            assert(self@.children =~= start.children);
            assert forall|k: int| 0 <= k < self.animations@.len() implies (
            #[trigger] self.animations@[k]).slot < self.store.spec_len() by {
                if k < stopped.animations.len() {
                    assert(self.animations@[k] == stopped.animations[k]);
                }
            }
            assert forall|k: int, l: int|
                0 <= k < l < self.animations@.len() implies self.animations@[k].slot
                != self.animations@[l].slot by {
                assert(self.animations@[k] == stopped.animations[k]);
                if l < stopped.animations.len() {
                    assert(self.animations@[l] == stopped.animations[l]);
                }
            }
        }
    }
}

/// The handler that is invoked when the signal of cell `slot` is emitted:
/// the one set for the cell, or, where none is set and the signal hands on
/// to another, the one that is invoked for that. At most `fuel` signals are
/// followed.
pub open spec fn handler_for(
    cells: Seq<CellDescription>,
    handlers: Seq<Option<u64>>,
    slot: int,
    fuel: nat,
) -> Option<u64>
    decreases fuel,
{
    if !(0 <= slot < handlers.len() && slot < cells.len()) {
        None
    } else {
        match handlers[slot] {
            Some(h) => Some(h),
            None => match cells[slot].binding {
                Some(Expression::SignalSlot(next)) => if fuel == 0 {
                    None
                } else {
                    handler_for(cells, handlers, next as int, (fuel - 1) as nat)
                },
                _ => None,
            },
        }
    }
}

/// Whether one of the first `n` animations is an animation of cell `s`.
pub open spec fn animated(animations: Seq<ActiveAnimation>, n: int, s: int) -> bool {
    exists|k: int| 0 <= k < n && (#[trigger] animations[k]).slot == s
}

/// The content after the first `n` animations were moved to `now`: their
/// cells hold the values of that time, the other cells what they held.
pub open spec fn ticked(
    start: Seq<Content>,
    animations: Seq<ActiveAnimation>,
    now: u64,
    n: int,
    content: Seq<Content>,
) -> bool {
    &&& content.len() == start.len()
    &&& forall|k: int|
        0 <= k < n ==> content[(#[trigger] animations[k]).slot as int] == Content::Literal(
            value_now(animations[k], now),
        )
    &&& forall|s: int|
        0 <= s < start.len() && !animated(animations, n, s) ==> #[trigger] content[s] == start[s]
}

proof fn lemma_ticked_step(
    start: Seq<Content>,
    animations: Seq<ActiveAnimation>,
    now: u64,
    n: int,
    content: Seq<Content>,
)
    requires
        0 <= n < animations.len(),
        ticked(start, animations, now, n, content),
        forall|k: int| 0 <= k < animations.len() ==> (#[trigger] animations[k]).slot < start.len(),
        forall|k: int, l: int|
            0 <= k < l < animations.len() ==> animations[k].slot != animations[l].slot,
    ensures
        ticked(
            start,
            animations,
            now,
            n + 1,
            content.update(
                animations[n].slot as int,
                Content::Literal(value_now(animations[n], now)),
            ),
        ),
{
    let next = content.update(
        animations[n].slot as int,
        Content::Literal(value_now(animations[n], now)),
    );
    assert forall|k: int| 0 <= k < n + 1 implies next[(#[trigger] animations[k]).slot as int]
        == Content::Literal(value_now(animations[k], now)) by {
        if k < n {
            assert(animations[k].slot != animations[n].slot);
        }
    }
    assert forall|s: int|
        0 <= s < start.len() && !animated(animations, n + 1, s) implies #[trigger] next[s]
        == start[s] by {
        assert(animations[n].slot != s);
        if animated(animations, n, s) {
            let k = choose|k: int| 0 <= k < n && (#[trigger] animations[k]).slot == s;
            assert(0 <= k < n + 1 && animations[k].slot == s);
        }
    }
}

/// What a repeater has done to the instances it had, when its model has the
/// given value: there are as many as the model asks for; those that were
/// there before are as they were; the others are new.
pub open spec fn reconciled(
    repeater: RepeaterDescription,
    model: Option<ValueModel>,
    before: Seq<ComponentBox>,
    after: Seq<ComponentBox>,
) -> bool {
    &&& after.len() == repeat_count(model)
    &&& forall|j: int|
        0 <= j < after.len() ==> if j < before.len() {
            #[trigger] after[j] == before[j]
        } else {
            freshly_made(*repeater.template, after[j], ValueModel::Number(j), item_datum(model, j))
        }
}

impl ComponentBox {
    /// Moves the clock to `now`: every animated property takes the value
    /// that it has at that time, and the animations that are over are
    /// forgotten.
    pub fn update_animations(&mut self, now: u64)
        requires
            old(self).wf(),
        ensures
            final(self).wf(),
            final(self).description() == old(self).description(),
            final(self)@.identity == old(self)@.identity,
            final(self)@.handlers == old(self)@.handlers,
            final(self)@.children == old(self)@.children,
            final(self)@.now == now,
            final(self)@.animations == running(old(self)@.animations, now),
            final(self)@.content.len() == old(self)@.content.len(),
            forall|k: int|
                0 <= k < old(self)@.animations.len() ==> final(self)@.content[(
                #[trigger] old(self)@.animations[k]).slot as int] == Content::Literal(
                    value_now(old(self)@.animations[k], now),
                ),
            forall|s: int|
                0 <= s < old(self)@.content.len() && !animated(
                    old(self)@.animations,
                    old(self)@.animations.len() as int,
                    s,
                ) ==> #[trigger] final(self)@.content[s] == old(self)@.content[s],
    {
        let ghost all = self.animations@;
        let ghost start = self@;
        let ghost keep = |a: ActiveAnimation| !finished(a.animation, elapsed(a.start, now));
        let mut kept: Vec<ActiveAnimation> = Vec::new();
        let mut i: usize = 0;
        proof {
            self.store.lemma_content_len();
            self.lemma_wf_shape();
        }
        while i < self.animations.len()
            invariant
                all == old(self).animations@,
                start == old(self)@,
                self.animations == old(self).animations,
                self.children == old(self).children,
                self.handlers == old(self).handlers,
                self.identity == old(self).identity,
                self.description == old(self).description,
                self.now == old(self).now,
                self.store.wf(),
                self.store.spec_len() == start.content.len(),
                keep == (|a: ActiveAnimation| !finished(a.animation, elapsed(a.start, now))),
                i <= self.animations.len(),
                kept@ == retained(all.subrange(0, i as int), keep),
                forall|k: int| 0 <= k < all.len() ==> (#[trigger] all[k]).slot < start.content.len(),
                forall|k: int, l: int| 0 <= k < l < all.len() ==> all[k].slot != all[l].slot,
                ticked(start.content, all, now, i as int, self.store.content()),
            decreases self.animations.len() - i,
        {
            let a = self.animations[i];
            let passed = if now >= a.start {
                now - a.start
            } else {
                0
            };
            let v = value_at(a.from, a.to, a.animation, passed);
            let ghost before = self.store.content();
            self.store.set(a.slot, Value::Number(v));
            proof {
                let next = all.subrange(0, i + 1);
                assert(next.last() == a);
                assert(next.drop_last() =~= all.subrange(0, i as int));
                lemma_ticked_step(start.content, all, now, i as int, before);
            }
            if !is_finished(a.animation, passed) {
                kept.push(a);
            }
            i += 1;
        }
        proof {
            assert(all.subrange(0, i as int) =~= all);
            lemma_retained(all, keep);
            assert forall|k: int| 0 <= k < kept@.len() implies (#[trigger] kept@[k]).slot
                < self.store.spec_len() by {
                assert(all.contains(kept@[k]));
                let i = choose|i: int| 0 <= i < all.len() && all[i] == kept@[k];
                assert(all[i].slot < self.store.spec_len());
            }
        }
        self.animations = kept;
        self.now = now;
        proof {
            assert(self@.children =~= start.children);
        }
    }

    /// The model of repeater `r` of the instance, as its cells give it.
    pub open spec fn model(&self, r: int) -> Option<ValueModel> {
        denotation(self@.content, self.description().repeaters@[r].model_slot as int)
    }

    /// Brings the instances of the repeaters in line with their models, as
    /// every look at those instances does first: what a write has changed
    /// of a model shows in the instances as soon as they are looked at.
    pub fn update_repeaters(&mut self)
        requires
            old(self).wf(),
        ensures
            final(self).wf(),
            final(self).description() == old(self).description(),
            up_to_date(*old(self), final(self)@),
    {
        let description = self.description.clone();
        proof {
            self.store.lemma_content_len();
        }
        let outcome = description.update_repeaters_checked(self, true);
        proof {
            assert(self.description == old(self).description);
        }
    }

    /// The number of instances that repeater `r` has: as many as its model
    /// asks for now. None for a repeater that the instance does not have.
    pub fn repeated_count(&mut self, r: usize) -> (n: usize)
        requires
            old(self).wf(),
        ensures
            final(self).wf(),
            final(self).description() == old(self).description(),
            up_to_date(*old(self), final(self)@),
            n == if r < old(self)@.children.len() {
                repeat_count(old(self).model(r as int))
            } else {
                0
            },
    {
        self.update_repeaters();
        proof {
            if r < self.children.len() {
                assert(self@.children[r as int] == self.children@[r as int]@);
                assert(reconciled(
                    old(self).description().repeaters@[r as int],
                    old(self).model(r as int),
                    old(self)@.children[r as int],
                    self@.children[r as int],
                ));
            }
        }
        if r < self.children.len() {
            self.children[r].len()
        } else {
            0
        }
    }

    /// Instance `j` of repeater `r`, to be changed, after the instances
    /// were brought in line with the models. What is done to it is done to
    /// the instance that holds it; as long as the instance handed out is
    /// consistent when it is given back, the holder is.
    pub fn child_mut(&mut self, r: usize, j: usize) -> (child: &mut ComponentBox)
        requires
            old(self).wf(),
            r < old(self)@.children.len(),
            j < repeat_count(old(self).model(r as int)),
        ensures
            child.wf(),
            final(child).wf() ==> final(self).wf(),
            final(self).description() == old(self).description(),
            final(self)@.identity == old(self)@.identity,
            final(self)@.content == old(self)@.content,
            final(self)@.handlers == old(self)@.handlers,
            final(self)@.animations == old(self)@.animations,
            final(self)@.now == old(self)@.now,
            final(self)@.children.len() == old(self)@.children.len(),
            forall|k: int|
                0 <= k < old(self)@.children.len() && k != r ==> reconciled(
                    old(self).description().repeaters@[k],
                    old(self).model(k),
                    old(self)@.children[k],
                    #[trigger] final(self)@.children[k],
                ),
            final(self)@.children[r as int].len() == repeat_count(old(self).model(r as int)),
            forall|i: int|
                0 <= i < final(self)@.children[r as int].len() && i != j ==> renewed(
                    *old(self),
                    r as int,
                    i,
                    #[trigger] final(self)@.children[r as int][i],
                ),
            renewed(*old(self), r as int, j as int, *child),
            final(self)@.children[r as int][j as int] == *final(child),
    {
        self.update_repeaters();
        let ghost mid = self@;
        proof {
            assert(mid.children[r as int] == self.children@[r as int]@);
            assert(reconciled(
                old(self).description().repeaters@[r as int],
                old(self).model(r as int),
                old(self)@.children[r as int],
                mid.children[r as int],
            ));
            assert(self.children[r as int][j as int].wf());
            assert forall|i: int| 0 <= i < mid.children[r as int].len() implies renewed(
                *old(self),
                r as int,
                i,
                #[trigger] mid.children[r as int][i],
            ) by {}
            assert forall|k: int| 0 <= k < mid.children.len() && k != r implies reconciled(
                old(self).description().repeaters@[k],
                old(self).model(k),
                old(self)@.children[k],
                #[trigger] mid.children[k],
            ) by {}
        }
        self.child_slot(r, j)
    }

    /// Instance `j` of repeater `r` as it stands, to be changed.
    fn child_slot(&mut self, r: usize, j: usize) -> (child: &mut ComponentBox)
        requires
            old(self).wf(),
            r < old(self)@.children.len(),
            j < old(self)@.children[r as int].len(),
        ensures
            *child == old(self)@.children[r as int][j as int],
            child.wf(),
            final(child).wf() ==> final(self).wf(),
            final(self).description() == old(self).description(),
            final(self)@.identity == old(self)@.identity,
            final(self)@.content == old(self)@.content,
            final(self)@.handlers == old(self)@.handlers,
            final(self)@.animations == old(self)@.animations,
            final(self)@.now == old(self)@.now,
            final(self)@.children.len() == old(self)@.children.len(),
            forall|k: int|
                0 <= k < old(self)@.children.len() && k != r ==> #[trigger] final(self)@.children[k]
                    == old(self)@.children[k],
            final(self)@.children[r as int].len() == old(self)@.children[r as int].len(),
            forall|i: int|
                0 <= i < old(self)@.children[r as int].len() && i != j
                    ==> #[trigger] final(self)@.children[r as int][i]
                    == old(self)@.children[r as int][i],
            final(self)@.children[r as int][j as int] == *final(child),
    {
        proof {
            assert(self.children[r as int][j as int].wf());
        }
        &mut self.children[r][j]
    }
}

/// Instance `i` of repeater `r` is what it is when the instances were
/// brought in line with the model: the instance that was there before, or
/// a new one where there was none.
pub open spec fn renewed(before: ComponentBox, r: int, i: int, instance: ComponentBox) -> bool {
    if i < before@.children[r].len() {
        instance == before@.children[r][i]
    } else {
        freshly_made(
            *before.description().repeaters@[r].template,
            instance,
            ValueModel::Number(i),
            item_datum(before.model(r), i),
        )
    }
}

/// The instances of the repeaters are in line with the models that the
/// instance had: nothing else of the instance has changed, and each
/// repeater has as many instances as its model asked for, those that were
/// there before as they were and the others new.
pub open spec fn up_to_date(before: ComponentBox, after: BoxView) -> bool {
    &&& after == (BoxView { children: after.children, ..before@ })
    &&& after.children.len() == before@.children.len()
    &&& forall|r: int|
        0 <= r < before.description().repeaters@.len() ==> reconciled(
            before.description().repeaters@[r],
            before.model(r),
            before@.children[r],
            #[trigger] after.children[r],
        )
}

impl ComponentDescription {
    /// The cell of property `property` of the item of element `item`, if the
    /// element has an item with such a property.
    pub open spec fn item_cell(&self, item: int, property: int) -> Option<usize> {
        if 0 <= item < self.items@.len() && 0 <= property {
            match self.items@[item].kind {
                Some(kind) => if property < builtin_table(kind).len() {
                    Some((self.items@[item].first_slot + property) as usize)
                } else {
                    None
                },
                None => None,
            }
        } else {
            None
        }
    }

    /// The cell of a property of an item.
    pub fn find_item_cell(&self, item: usize, property: usize) -> (slot: Option<usize>)
        requires
            self.wf(),
        ensures
            slot == self.item_cell(item as int, property as int),
            slot matches Some(s) ==> s < self.cells@.len(),
    {
        if item < self.items.len() {
            match self.items[item].kind {
                Some(kind) => {
                    let total = self.cells.len();
                    assert(self.items@[item as int].first_slot + builtin_table(kind).len()
                        <= total);
                    if property < builtin_count(kind) {
                        Some(self.items[item].first_slot + property)
                    } else {
                        None
                    }
                },
                None => None,
            }
        } else {
            None
        }
    }

    /// Reads a property of an item. Fails when the instance is not one of
    /// this description, when there is no such property, and when the
    /// property is in a binding loop. The instance is the same afterwards.
    pub fn item_property(&self, component: &mut ComponentBox, item: usize, property: usize) -> (result:
        Result<Value, AccessError>)
        requires
            self.wf(),
            old(component).wf(),
        ensures
            !(result matches Err(AccessError::WrongComponent)) ==> *self
                == old(component).description(),
            final(component).wf(),
            final(component).description() == old(component).description(),
            final(component)@ == old(component)@,
            if !self.accepts(old(component)@) {
                result == Err::<Value, AccessError>(AccessError::WrongComponent)
            } else {
                (result == Err::<Value, AccessError>(AccessError::WrongComponent))
                    || (match self.item_cell(item as int, property as int) {
                    None => result == Err::<Value, AccessError>(AccessError::PropertyNotFound),
                    Some(slot) => match denotation(old(component)@.content, slot as int) {
                        Some(v) => result is Ok && result.unwrap()@ == v,
                        None => result == Err::<Value, AccessError>(AccessError::BindingLoop),
                    },
                })
            },
    {
        let same = component.made_from(self);
        self.item_property_checked(component, item, property, same)
    }

    /// What [`ComponentDescription::item_property`] does once it is known whether
    /// the instance is one of this description: `same` says so.
    pub fn item_property_checked(
        &self,
        component: &mut ComponentBox,
        item: usize,
        property: usize,
        same: bool,
    ) -> (result:
        Result<Value, AccessError>)
        requires
            same ==> self.accepts(old(component)@),
            self.wf(),
            old(component).wf(),
        ensures
            final(component).wf(),
            final(component).description() == old(component).description(),
            final(component)@ == old(component)@,
            if !same {
                result == Err::<Value, AccessError>(AccessError::WrongComponent)
            } else {
                match self.item_cell(item as int, property as int) {
                    None => result == Err::<Value, AccessError>(AccessError::PropertyNotFound),
                    Some(slot) => match denotation(old(component)@.content, slot as int) {
                        Some(v) => result is Ok && result.unwrap()@ == v,
                        None => result == Err::<Value, AccessError>(AccessError::BindingLoop),
                    },
                }
            },
    {
        if !same {
            return Err(AccessError::WrongComponent);
        }
        let slot = match self.find_item_cell(item, property) {
            Some(slot) => slot,
            None => {
                return Err(AccessError::PropertyNotFound);
            },
        };
        proof {
            component.store.lemma_content_len();
        }
        let read = component.store.get(slot);
        proof {
            assert(component@.children =~= old(component)@.children);
        }
        match read {
            Ok(v) => Ok(v),
            Err(_) => Err(AccessError::BindingLoop),
        }
    }

    /// Writes a value into a property of an item, in the way of
    /// [`Self::set_property`].
    pub fn set_item_property(
        &self,
        component: &mut ComponentBox,
        item: usize,
        property: usize,
        value: Value,
    ) -> (result: Result<(), AccessError>)
        requires
            self.wf(),
            old(component).wf(),
        ensures
            !(result matches Err(AccessError::WrongComponent)) ==> *self
                == old(component).description(),
            final(component).wf(),
            final(component).description() == old(component).description(),
            if !self.accepts(old(component)@) {
                result == Err::<(), AccessError>(AccessError::WrongComponent) && final(component)@
                    == old(component)@
            } else {
                (result == Err::<(), AccessError>(AccessError::WrongComponent) && final(component)@
                    == old(component)@) || (match self.item_cell(item as int, property as int) {
                    None => result == Err::<(), AccessError>(AccessError::PropertyNotFound)
                        && final(component)@ == old(component)@,
                    Some(slot) => if !fits(value@, self.cells@[slot as int].property_type) {
                        result == Err::<(), AccessError>(AccessError::TypeMismatch)
                            && final(component)@ == old(component)@
                    } else {
                        result == Ok::<(), AccessError>(()) && final(component)@ == written(
                            old(component)@,
                            slot,
                            value@,
                            self.cells@[slot as int].animation,
                        )
                    },
                })
            },
    {
        let same = component.made_from(self);
        self.set_item_property_checked(component, item, property, value, same)
    }

    /// What [`ComponentDescription::set_item_property`] does once it is
    /// known whether the instance is one of this description: `same` says
    /// so.
    pub fn set_item_property_checked(
        &self,
        component: &mut ComponentBox,
        item: usize,
        property: usize,
        value: Value,
        same: bool,
    ) -> (result: Result<(), AccessError>)
        requires
            same ==> self.accepts(old(component)@),
            self.wf(),
            old(component).wf(),
        ensures
            final(component).wf(),
            final(component).description() == old(component).description(),
            if !same {
                result == Err::<(), AccessError>(AccessError::WrongComponent) && final(component)@
                    == old(component)@
            } else {
                match self.item_cell(item as int, property as int) {
                    None => result == Err::<(), AccessError>(AccessError::PropertyNotFound)
                        && final(component)@ == old(component)@,
                    Some(slot) => if !fits(value@, self.cells@[slot as int].property_type) {
                        result == Err::<(), AccessError>(AccessError::TypeMismatch)
                            && final(component)@ == old(component)@
                    } else {
                        result == Ok::<(), AccessError>(()) && final(component)@ == written(
                            old(component)@,
                            slot,
                            value@,
                            self.cells@[slot as int].animation,
                        )
                    },
                }
            },
    {
        if !same {
            return Err(AccessError::WrongComponent);
        }
        let slot = match self.find_item_cell(item, property) {
            Some(slot) => slot,
            None => {
                return Err(AccessError::PropertyNotFound);
            },
        };
        if !value_fits(&value, self.cells[slot].property_type) {
            return Err(AccessError::TypeMismatch);
        }
        component.write(slot, value, self.cells[slot].animation);
        Ok(())
    }

    /// The handler that the signal of cell `slot` invokes.
    fn resolve_handler(&self, component: &ComponentBox, slot: usize) -> (handler: Option<u64>)
        requires
            self.wf(),
            component.wf(),
            self.accepts(component@),
        ensures
            handler == handler_for(
                self.cells@,
                component@.handlers,
                slot as int,
                self.cells@.len(),
            ),
    {
        proof {
            component.store.lemma_content_len();
        }
        let mut at = slot;
        let mut fuel = self.cells.len();
        loop
            invariant
                self.wf(),
                component.wf(),
                self.accepts(component@),
                component@.handlers.len() == self.cells@.len(),
                fuel <= self.cells@.len(),
                handler_for(self.cells@, component@.handlers, slot as int, self.cells@.len())
                    == handler_for(self.cells@, component@.handlers, at as int, fuel as nat),
            decreases fuel,
        {
            if at >= self.cells.len() {
                return None;
            }
            match component.handlers[at] {
                Some(h) => {
                    return Some(h);
                },
                None => {},
            }
            match &self.cells[at].binding {
                Some(Expression::SignalSlot(next)) => {
                    if fuel == 0 {
                        return None;
                    }
                    at = *next;
                    fuel -= 1;
                },
                _ => {
                    return None;
                },
            }
        }
    }

    /// Emits the signal of a property of an item: says which handler is to
    /// be invoked now, if any. Fails when the instance is not one of this
    /// description and when there is no such property.
    pub fn emit_item_signal(&self, component: &ComponentBox, item: usize, property: usize) -> (result:
        Result<Option<u64>, AccessError>)
        requires
            self.wf(),
            component.wf(),
        ensures
            !(result matches Err(AccessError::WrongComponent)) ==> *self
                == component.description(),
            if !self.accepts(component@) {
                result == Err::<Option<u64>, AccessError>(AccessError::WrongComponent)
            } else {
                (result == Err::<Option<u64>, AccessError>(AccessError::WrongComponent))
                    || (match self.item_cell(item as int, property as int) {
                    None => result == Err::<Option<u64>, AccessError>(AccessError::SignalNotFound),
                    Some(slot) => result == Ok::<Option<u64>, AccessError>(
                        handler_for(
                            self.cells@,
                            component@.handlers,
                            slot as int,
                            self.cells@.len(),
                        ),
                    ),
                })
            },
    {
        let same = component.made_from(self);
        self.emit_item_signal_checked(component, item, property, same)
    }

    /// What [`ComponentDescription::emit_item_signal`] does once it is
    /// known whether the instance is one of this description: `same` says
    /// so.
    pub fn emit_item_signal_checked(
        &self,
        component: &ComponentBox,
        item: usize,
        property: usize,
        same: bool,
    ) -> (result:
        Result<Option<u64>, AccessError>)
        requires
            same ==> self.accepts(component@),
            self.wf(),
            component.wf(),
        ensures
            if !same {
                result == Err::<Option<u64>, AccessError>(AccessError::WrongComponent)
            } else {
                match self.item_cell(item as int, property as int) {
                    None => result == Err::<Option<u64>, AccessError>(AccessError::SignalNotFound),
                    Some(slot) => result == Ok::<Option<u64>, AccessError>(
                        handler_for(
                            self.cells@,
                            component@.handlers,
                            slot as int,
                            self.cells@.len(),
                        ),
                    ),
                }
            },
    {
        if !same {
            return Err(AccessError::WrongComponent);
        }
        match self.find_item_cell(item, property) {
            Some(slot) => Ok(self.resolve_handler(component, slot)),
            None => Err(AccessError::SignalNotFound),
        }
    }

    /// Brings the instances of every repeater in line with its model: a
    /// repeater whose model asks for fewer instances than it has drops the
    /// last ones, one whose model asks for more makes new ones. Fails, and
    /// changes nothing, when the instance is not one of this description.
    pub fn update_repeaters(&self, component: &mut ComponentBox) -> (result: Result<(), AccessError>)
        requires
            self.wf(),
            old(component).wf(),
        ensures
            !(result matches Err(AccessError::WrongComponent)) ==> *self
                == old(component).description(),
            final(component).wf(),
            final(component).description() == old(component).description(),
            if !self.accepts(old(component)@) {
                result == Err::<(), AccessError>(AccessError::WrongComponent) && final(component)@
                    == old(component)@
            } else {
                (result == Err::<(), AccessError>(AccessError::WrongComponent) && final(component)@
                    == old(component)@) || ({
                    &&& result == Ok::<(), AccessError>(())
                &&& final(component)@ == (BoxView {
                    children: final(component)@.children,
                    ..old(component)@
                })
                &&& final(component)@.children.len() == old(component)@.children.len()
                &&& forall|r: int|
                    0 <= r < self.repeaters@.len() ==> reconciled(
                        self.repeaters@[r],
                        denotation(old(component)@.content, self.repeaters@[r].model_slot as int),
                        old(component)@.children[r],
                        #[trigger] final(component)@.children[r],
                    )})
            },
    {
        let same = component.made_from(self);
        self.update_repeaters_checked(component, same)
    }

    /// What [`ComponentDescription::update_repeaters`] does once it is
    /// known whether the instance is one of this description: `same` says
    /// so.
    pub fn update_repeaters_checked(
        &self,
        component: &mut ComponentBox,
        same: bool,
    ) -> (result: Result<(), AccessError>)
        requires
            same ==> self.accepts(old(component)@),
            self.wf(),
            old(component).wf(),
        ensures
            final(component).wf(),
            final(component).description() == old(component).description(),
            if !same {
                result == Err::<(), AccessError>(AccessError::WrongComponent) && final(component)@
                    == old(component)@
            } else {
                &&& result == Ok::<(), AccessError>(())
                &&& final(component)@ == (BoxView {
                    children: final(component)@.children,
                    ..old(component)@
                })
                &&& final(component)@.children.len() == old(component)@.children.len()
                &&& forall|r: int|
                    0 <= r < self.repeaters@.len() ==> reconciled(
                        self.repeaters@[r],
                        denotation(old(component)@.content, self.repeaters@[r].model_slot as int),
                        old(component)@.children[r],
                        #[trigger] final(component)@.children[r],
                    )
            },
    {
        if !same {
            return Err(AccessError::WrongComponent);
        }
        let ghost start = component@;
        let mut r: usize = 0;
        while r < self.repeaters.len()
            invariant
                self.wf(),
                self.accepts(start),
                start == old(component)@,
                component.wf(),
                component.description() == old(component).description(),
                component@ == (BoxView { children: component@.children, ..start }),
                component@.children.len() == self.repeaters@.len(),
                r <= self.repeaters.len(),
                forall|k: int|
                    r <= k < self.repeaters@.len() ==> #[trigger] component@.children[k]
                        == start.children[k],
                forall|k: int|
                    0 <= k < r ==> reconciled(
                        self.repeaters@[k],
                        denotation(start.content, self.repeaters@[k].model_slot as int),
                        start.children[k],
                        #[trigger] component@.children[k],
                    ),
            decreases self.repeaters.len() - r,
        {
            let ghost before = component@;
            component.reconcile(r, &self.repeaters[r]);
            proof {
                assert forall|k: int| 0 <= k < r + 1 implies reconciled(
                    self.repeaters@[k],
                    denotation(start.content, self.repeaters@[k].model_slot as int),
                    start.children[k],
                    #[trigger] component@.children[k],
                ) by {
                    if k < r {
                        assert(component@.children[k] == before.children[k]);
                    }
                }
                assert forall|k: int|
                    r + 1 <= k < self.repeaters@.len() implies #[trigger] component@.children[k]
                    == start.children[k] by {
                    assert(component@.children[k] == before.children[k]);
                }
            }
            r += 1;
        }
        Ok(())
    }
}

impl ComponentBox {
    /// Brings the instances of repeater `r` in line with its model.
    fn reconcile(&mut self, r: usize, repeater: &RepeaterDescription)
        requires
            old(self).wf(),
            r < old(self)@.children.len(),
            repeater.template.wf(),
            repeater.model_slot < old(self)@.content.len(),
        ensures
            final(self).wf(),
            final(self).description() == old(self).description(),
            final(self)@ == (BoxView { children: final(self)@.children, ..old(self)@ }),
            final(self)@.children.len() == old(self)@.children.len(),
            forall|k: int|
                0 <= k < old(self)@.children.len() && k != r ==> #[trigger] final(self)@.children[k]
                    == old(self)@.children[k],
            reconciled(
                *repeater,
                denotation(old(self)@.content, repeater.model_slot as int),
                old(self)@.children[r as int],
                final(self)@.children[r as int],
            ),
    {
        proof {
            self.store.lemma_content_len();
        }
        let ghost start = self@;
        let ghost meaning = denotation(start.content, repeater.model_slot as int);
        let model = self.store.get(repeater.model_slot);
        let (count, numbered) = count_of(&model);
        let ghost lists = self.children@;
        if self.children[r].len() > count {
            self.children[r].truncate(count);
        }
        let ghost trimmed = self.children@[r as int]@;
        proof {
            assert forall|k: int, j: int|
                0 <= k < self.children.len() && 0 <= j < self.children[k].len() implies (
            #[trigger] self.children[k][j]).wf() by {
                assert(old(self).children[k][j].wf());
            }
        }
        while self.children[r].len() < count
            invariant
                repeater.template.wf(),
                r < self.children@.len(),
                count <= i64::MAX,
                numbered == (meaning matches Some(ValueModel::Number(_))),
                self.identity == old(self).identity,
                self.description == old(self).description,
                self.handlers == old(self).handlers,
                self.animations == old(self).animations,
                self.now == old(self).now,
                self.store.wf(),
                self.store.content() == start.content,
                self.store.spec_len() == old(self).store.spec_len(),
                self.children@.len() == lists.len(),
                lists.len() == old(self).children@.len(),
                trimmed.len() <= self.children@[r as int]@.len() <= count,
                forall|k: int|
                    0 <= k < self.children@.len() && k != r ==> #[trigger] self.children@[k]
                        == lists[k],
                forall|j: int|
                    0 <= j < trimmed.len() ==> #[trigger] self.children@[r as int]@[j]
                        == trimmed[j],
                forall|j: int|
                    trimmed.len() <= j < self.children@[r as int]@.len() ==> freshly_made(
                        *repeater.template,
                        #[trigger] self.children@[r as int]@[j],
                        ValueModel::Number(j),
                        item_datum(meaning, j),
                    ),
                forall|k: int, j: int|
                    0 <= k < self.children.len() && 0 <= j < self.children[k].len() ==> (
                    #[trigger] self.children[k][j]).wf(),
            decreases count - self.children@[r as int]@.len(),
        {
            let j = self.children[r].len();
            let item_index = Value::Number(j as i64);
            let item_value = if numbered {
                Value::Number(j as i64)
            } else {
                Value::Void
            };
            let child = instantiate(&repeater.template, item_index, item_value);
            let ghost grown = self.children@;
            self.children[r].push(child);
            proof {
                assert forall|k: int|
                    0 <= k < self.children@.len() && k != r implies #[trigger] self.children@[k]
                    == lists[k] by {
                    assert(self.children@[k] == grown[k]);
                }
                assert forall|i: int| 0 <= i < trimmed.len() implies #[trigger] self.children@[r as int]@[i]
                    == trimmed[i] by {
                    assert(self.children@[r as int]@[i] == grown[r as int]@[i]);
                }
                assert forall|i: int|
                    trimmed.len() <= i < self.children@[r as int]@.len() implies freshly_made(
                    *repeater.template,
                    #[trigger] self.children@[r as int]@[i],
                    ValueModel::Number(i),
                    item_datum(meaning, i),
                ) by {
                    if i < j {
                        assert(self.children@[r as int]@[i] == grown[r as int]@[i]);
                    }
                }
                assert forall|k: int, i: int|
                    0 <= k < self.children.len() && 0 <= i < self.children[k].len() implies (
                #[trigger] self.children[k][i]).wf() by {
                    if k != r || i < j {
                        assert(self.children[k][i] == grown[k]@[i]);
                    }
                }
            }
        }
        proof {
            old(self).lemma_wf_shape();
            assert(self.animations@ == old(self).animations@);
            let after = self@.children[r as int];
            assert(after == self.children@[r as int]@);
            assert forall|j: int| 0 <= j < after.len() implies if j < start.children[r as int].len() {
                #[trigger] after[j] == start.children[r as int][j]
            } else {
                freshly_made(
                    *repeater.template,
                    after[j],
                    ValueModel::Number(j),
                    item_datum(meaning, j),
                )
            } by {
                if j < trimmed.len() {
                    assert(after[j] == trimmed[j]);
                }
            }
            assert forall|k: int|
                0 <= k < start.children.len() && k != r implies #[trigger] self@.children[k]
                == start.children[k] by {
                assert(self.children@[k] == lists[k]);
            }
        }
    }
}

/// The values of `count` cells from `first` on, if each of them has a
/// value.
pub open spec fn cell_models(content: Seq<Content>, first: int, count: int) -> Option<
    Seq<ValueModel>,
> {
    if forall|p: int| 0 <= p < count ==> (#[trigger] denotation(content, first + p)).is_some() {
        Some(Seq::new(count as nat, |p: int| denotation(content, first + p).unwrap()))
    } else {
        None
    }
}

/// The position of `pressed` in the record of a touch area.
pub const TOUCH_PRESSED: usize = 4;

/// The position of `pressed_x` in the record of a touch area.
pub const TOUCH_PRESSED_X: usize = 5;

/// The position of `pressed_y` in the record of a touch area.
pub const TOUCH_PRESSED_Y: usize = 6;

/// The position of `mouse_x` in the record of a touch area.
pub const TOUCH_MOUSE_X: usize = 7;

/// The position of `mouse_y` in the record of a touch area.
pub const TOUCH_MOUSE_Y: usize = 8;

/// The position of `clicked` in the record of a touch area.
pub const TOUCH_CLICKED: usize = 9;

impl ComponentDescription {
    /// The kind of the item of element `item`, if the element has an item.
    pub open spec fn kind_of(&self, item: int) -> Option<ItemKind> {
        if 0 <= item < self.items@.len() {
            self.items@[item].kind
        } else {
            None
        }
    }

    /// The kind of the item of an element.
    pub fn item_kind(&self, item: usize) -> (kind: Option<ItemKind>)
        ensures
            kind == self.kind_of(item as int),
    {
        if item < self.items.len() {
            self.items[item].kind
        } else {
            None
        }
    }

    /// Reads the properties of an item, in the order of the properties of
    /// its kind. Fails when the instance is not one of this description,
    /// when the element has no item, and when one of the properties is in
    /// a binding loop. The instance is the same afterwards.
    pub fn item_values(&self, component: &mut ComponentBox, item: usize) -> (result: Result<
        Vec<Value>,
        AccessError,
    >)
        requires
            self.wf(),
            old(component).wf(),
        ensures
            !(result matches Err(AccessError::WrongComponent)) ==> *self
                == old(component).description(),
            final(component).wf(),
            final(component).description() == old(component).description(),
            final(component)@ == old(component)@,
            if !self.accepts(old(component)@) {
                result == Err::<Vec<Value>, AccessError>(AccessError::WrongComponent)
            } else {
                (result == Err::<Vec<Value>, AccessError>(AccessError::WrongComponent))
                    || (match self.kind_of(item as int) {
                    None => result == Err::<Vec<Value>, AccessError>(AccessError::PropertyNotFound),
                    Some(kind) => match cell_models(
                        old(component)@.content,
                        self.items@[item as int].first_slot as int,
                        builtin_table(kind).len() as int,
                    ) {
                        Some(values) => result is Ok && models(result->Ok_0@) == values,
                        None => result == Err::<Vec<Value>, AccessError>(AccessError::BindingLoop),
                    },
                })
            },
    {
        let same = component.made_from(self);
        self.item_values_checked(component, item, same)
    }

    /// What [`ComponentDescription::item_values`] does once it is known whether
    /// the instance is one of this description: `same` says so.
    pub fn item_values_checked(
        &self,
        component: &mut ComponentBox,
        item: usize,
        same: bool,
    ) -> (result: Result<
        Vec<Value>,
        AccessError,
    >)
        requires
            same ==> self.accepts(old(component)@),
            self.wf(),
            old(component).wf(),
        ensures
            final(component).wf(),
            final(component).description() == old(component).description(),
            final(component)@ == old(component)@,
            if !same {
                result == Err::<Vec<Value>, AccessError>(AccessError::WrongComponent)
            } else {
                match self.kind_of(item as int) {
                    None => result == Err::<Vec<Value>, AccessError>(AccessError::PropertyNotFound),
                    Some(kind) => match cell_models(
                        old(component)@.content,
                        self.items@[item as int].first_slot as int,
                        builtin_table(kind).len() as int,
                    ) {
                        Some(values) => result is Ok && models(result->Ok_0@) == values,
                        None => result == Err::<Vec<Value>, AccessError>(AccessError::BindingLoop),
                    },
                }
            },
    {
        if !same {
            return Err(AccessError::WrongComponent);
        }
        let kind = match self.item_kind(item) {
            Some(kind) => kind,
            None => {
                return Err(AccessError::PropertyNotFound);
            },
        };
        let first = self.items[item].first_slot;
        let count = builtin_count(kind);
        let total = self.cells.len();
        let ghost content = component@.content;
        proof {
            component.store.lemma_content_len();
            assert(self.items@[item as int].first_slot + builtin_table(kind).len()
                <= self.cells@.len());
        }
        let mut values: Vec<Value> = Vec::new();
        let mut p: usize = 0;
        while p < count
            invariant
                component.wf(),
                component@ == old(component)@,
                content == component@.content,
                component.store.spec_len() == content.len(),
                first + count <= content.len(),
                content.len() == total,
                same,
                component.description() == old(component).description(),
                self.accepts(old(component)@),
                self.kind_of(item as int) == Some(kind),
                first == self.items@[item as int].first_slot,
                count == builtin_table(kind).len(),
                p <= count,
                values@.len() == p,
                forall|q: int|
                    0 <= q < p ==> denotation(content, first + q) == Some(
                        (#[trigger] values@[q])@,
                    ),
            decreases count - p,
        {
            let ghost before = component@;
            let read = component.store.get(first + p);
            proof {
                assert(component@.children =~= before.children);
                component.store.lemma_content_len();
            }
            match read {
                Ok(v) => {
                    values.push(v);
                },
                Err(_) => {
                    proof {
                        assert(denotation(content, first as int + p as int).is_none());
                        assert(cell_models(content, first as int, count as int).is_none());
                    }
                    return Err(AccessError::BindingLoop);
                },
            }
            p += 1;
        }
        proof {
            assert forall|q: int| 0 <= q < count implies (#[trigger] denotation(
                content,
                first + q,
            )).is_some() by {
                assert(denotation(content, first + q) == Some(values@[q]@));
            }
            assert(models(values@) =~= cell_models(content, first as int, count as int).unwrap());
        }
        Ok(values)
    }

    /// The state of an instance after a touch area whose record starts at
    /// cell `first` has become `area`: the position of the mouse is written
    /// first, then whether the area is pressed, then where it was pressed.
    pub open spec fn after_touch(&self, view: BoxView, first: usize, area: TouchArea) -> BoxView {
        let mouse_x = (first + TOUCH_MOUSE_X) as usize;
        let mouse_y = (first + TOUCH_MOUSE_Y) as usize;
        let pressed = (first + TOUCH_PRESSED) as usize;
        let pressed_x = (first + TOUCH_PRESSED_X) as usize;
        let pressed_y = (first + TOUCH_PRESSED_Y) as usize;
        let v1 = written(
            view,
            mouse_x,
            ValueModel::Number(area.mouse_x as int),
            self.cells@[mouse_x as int].animation,
        );
        let v2 = written(
            v1,
            mouse_y,
            ValueModel::Number(area.mouse_y as int),
            self.cells@[mouse_y as int].animation,
        );
        let v3 = written(
            v2,
            pressed,
            ValueModel::Bool(area.pressed),
            self.cells@[pressed as int].animation,
        );
        let v4 = written(
            v3,
            pressed_x,
            ValueModel::Number(area.pressed_x as int),
            self.cells@[pressed_x as int].animation,
        );
        written(
            v4,
            pressed_y,
            ValueModel::Number(area.pressed_y as int),
            self.cells@[pressed_y as int].animation,
        )
    }

    /// Hands a mouse event to an item. A touch area takes note of the
    /// event in its properties; when it is clicked, the handler that its
    /// signal invokes is given back, to be invoked now. A flickable accepts
    /// every event, and every other item ignores it. Fails, and changes
    /// nothing, when the instance is not one of this description, when the
    /// element has no item, and when a property of a touch area is in a
    /// binding loop.
    pub fn input_event(&self, component: &mut ComponentBox, item: usize, event: MouseEvent) -> (result:
        Result<(InputEventResult, Option<u64>), AccessError>)
        requires
            self.wf(),
            old(component).wf(),
        ensures
            !(result matches Err(AccessError::WrongComponent)) ==> *self
                == old(component).description(),
            final(component).wf(),
            final(component).description() == old(component).description(),
            if !self.accepts(old(component)@) {
                result == Err::<(InputEventResult, Option<u64>), AccessError>(
                    AccessError::WrongComponent,
                ) && final(component)@ == old(component)@
            } else {
                (result == Err::<(InputEventResult, Option<u64>), AccessError>(
                    AccessError::WrongComponent,
                ) && final(component)@ == old(component)@) || (match self.kind_of(item as int) {
                    None => result == Err::<(InputEventResult, Option<u64>), AccessError>(
                        AccessError::PropertyNotFound,
                    ) && final(component)@ == old(component)@,
                    Some(ItemKind::TouchArea) => match cell_models(
                        old(component)@.content,
                        self.items@[item as int].first_slot as int,
                        builtin_table(ItemKind::TouchArea).len() as int,
                    ) {
                        None => result == Err::<(InputEventResult, Option<u64>), AccessError>(
                            AccessError::BindingLoop,
                        ) && final(component)@ == old(component)@,
                        Some(values) => {
                            let outcome = TouchArea::of(values).reaction(event);
                            &&& final(component)@ == self.after_touch(
                                old(component)@,
                                self.items@[item as int].first_slot,
                                outcome.0,
                            )
                            &&& result == Ok::<(InputEventResult, Option<u64>), AccessError>(
                                (
                                    outcome.1,
                                    if outcome.2 {
                                        handler_for(
                                            self.cells@,
                                            old(component)@.handlers,
                                            self.items@[item as int].first_slot + TOUCH_CLICKED,
                                            self.cells@.len(),
                                        )
                                    } else {
                                        None
                                    },
                                ),
                            )
                        },
                    },
                    Some(ItemKind::Flickable) => result == Ok::<
                        (InputEventResult, Option<u64>),
                        AccessError,
                    >((InputEventResult::EventAccepted, None)) && final(component)@ == old(component)@,
                    Some(_) => result == Ok::<(InputEventResult, Option<u64>), AccessError>(
                        (InputEventResult::EventIgnored, None),
                    ) && final(component)@ == old(component)@,
                })
            },
    {
        let same = component.made_from(self);
        self.input_event_checked(component, item, event, same)
    }

    /// What [`ComponentDescription::input_event`] does once it is known whether
    /// the instance is one of this description: `same` says so.
    pub fn input_event_checked(
        &self,
        component: &mut ComponentBox,
        item: usize,
        event: MouseEvent,
        same: bool,
    ) -> (result:
        Result<(InputEventResult, Option<u64>), AccessError>)
        requires
            same ==> self.accepts(old(component)@),
            self.wf(),
            old(component).wf(),
        ensures
            final(component).wf(),
            final(component).description() == old(component).description(),
            if !same {
                result == Err::<(InputEventResult, Option<u64>), AccessError>(
                    AccessError::WrongComponent,
                ) && final(component)@ == old(component)@
            } else {
                match self.kind_of(item as int) {
                    None => result == Err::<(InputEventResult, Option<u64>), AccessError>(
                        AccessError::PropertyNotFound,
                    ) && final(component)@ == old(component)@,
                    Some(ItemKind::TouchArea) => match cell_models(
                        old(component)@.content,
                        self.items@[item as int].first_slot as int,
                        builtin_table(ItemKind::TouchArea).len() as int,
                    ) {
                        None => result == Err::<(InputEventResult, Option<u64>), AccessError>(
                            AccessError::BindingLoop,
                        ) && final(component)@ == old(component)@,
                        Some(values) => {
                            let outcome = TouchArea::of(values).reaction(event);
                            &&& final(component)@ == self.after_touch(
                                old(component)@,
                                self.items@[item as int].first_slot,
                                outcome.0,
                            )
                            &&& result == Ok::<(InputEventResult, Option<u64>), AccessError>(
                                (
                                    outcome.1,
                                    if outcome.2 {
                                        handler_for(
                                            self.cells@,
                                            old(component)@.handlers,
                                            self.items@[item as int].first_slot + TOUCH_CLICKED,
                                            self.cells@.len(),
                                        )
                                    } else {
                                        None
                                    },
                                ),
                            )
                        },
                    },
                    Some(ItemKind::Flickable) => result == Ok::<
                        (InputEventResult, Option<u64>),
                        AccessError,
                    >((InputEventResult::EventAccepted, None)) && final(component)@ == old(component)@,
                    Some(_) => result == Ok::<(InputEventResult, Option<u64>), AccessError>(
                        (InputEventResult::EventIgnored, None),
                    ) && final(component)@ == old(component)@,
                }
            },
    {
        if !same {
            return Err(AccessError::WrongComponent);
        }
        let kind = match self.item_kind(item) {
            Some(kind) => kind,
            None => {
                return Err(AccessError::PropertyNotFound);
            },
        };
        match kind {
            ItemKind::TouchArea => {
                let values = match self.item_values_checked(component, item, true) {
                    Ok(values) => values,
                    Err(e) => {
                        return Err(e);
                    },
                };
                let mut area = TouchArea::from_values(&values);
                let (made, clicked) = area.input_event(event);
                let first = self.items[item].first_slot;
                let total = self.cells.len();
                proof {
                    component.lemma_wf_shape();
                    assert(self.items@[item as int].first_slot + builtin_table(kind).len()
                        <= self.cells@.len());
                    assert(first + 10 <= total);
                }
                let handler = if clicked {
                    self.resolve_handler(component, first + TOUCH_CLICKED)
                } else {
                    None
                };
                component.write(
                    first + TOUCH_MOUSE_X,
                    Value::Number(area.mouse_x),
                    self.cells[first + TOUCH_MOUSE_X].animation,
                );
                component.write(
                    first + TOUCH_MOUSE_Y,
                    Value::Number(area.mouse_y),
                    self.cells[first + TOUCH_MOUSE_Y].animation,
                );
                component.write(
                    first + TOUCH_PRESSED,
                    Value::Bool(area.pressed),
                    self.cells[first + TOUCH_PRESSED].animation,
                );
                component.write(
                    first + TOUCH_PRESSED_X,
                    Value::Number(area.pressed_x),
                    self.cells[first + TOUCH_PRESSED_X].animation,
                );
                component.write(
                    first + TOUCH_PRESSED_Y,
                    Value::Number(area.pressed_y),
                    self.cells[first + TOUCH_PRESSED_Y].animation,
                );
                Ok((made, handler))
            },
            ItemKind::Flickable => Ok((InputEventResult::EventAccepted, None)),
            _ => Ok((InputEventResult::EventIgnored, None)),
        }
    }
}

} // verus!

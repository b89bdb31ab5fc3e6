//! Embeds the resources that the expressions of a document name: every
//! location is recorded once in the document, and every reference to a
//! location becomes a reference to its record.

use vstd::prelude::*;
use crate::expression_tree::{clone_expression, Expression};
use crate::names::{find_name, position_of, views};
use crate::object_tree::{
    BindingView,
    ComponentView,
    Document,
    DocumentView,
    Element,
    ElementView,
    PropertyChangeView,
    RepeaterView,
    StateView,
};
use crate::passes::{
    visited_bindings, visited_changes, visited_component, visited_element, visited_states,
    ExpressionFieldsVisitor, ExpressionRewriter,
};

verus! {

/// The records after the locations that `e` names were added, each location
/// that was not recorded yet at the end, in the order in which `e` names
/// them.
pub open spec fn collected(table: Seq<Seq<char>>, e: Expression) -> Seq<Seq<char>>
    decreases e,
{
    match e {
        Expression::ResourceReference(location) => if table.contains(location@) {
            table
        } else {
            table.push(location@)
        },
        Expression::BinaryExpression { lhs, rhs, op } => collected(collected(table, *lhs), *rhs),
        Expression::UnaryExpression { sub, op } => collected(table, *sub),
        Expression::Condition { condition, true_expr, false_expr } => collected(
            collected(collected(table, *condition), *true_expr),
            *false_expr,
        ),
        _ => table,
    }
}

/// The records after the first `n` bindings.
pub open spec fn collected_bindings(table: Seq<Seq<char>>, bindings: Seq<BindingView>, n: int) -> Seq<
    Seq<char>,
>
    decreases n,
{
    if n <= 0 {
        table
    } else {
        collected(collected_bindings(table, bindings, n - 1), bindings[n - 1].expression)
    }
}

/// The records after the first `n` changes of a state.
pub open spec fn collected_changes(
    table: Seq<Seq<char>>,
    changes: Seq<PropertyChangeView>,
    n: int,
) -> Seq<Seq<char>>
    decreases n,
{
    if n <= 0 {
        table
    } else {
        collected(collected_changes(table, changes, n - 1), changes[n - 1].expression)
    }
}

/// The records after the first `n` states.
pub open spec fn collected_states(table: Seq<Seq<char>>, states: Seq<StateView>, n: int) -> Seq<
    Seq<char>,
>
    decreases n,
{
    if n <= 0 {
        table
    } else {
        collected_changes(
            collected(collected_states(table, states, n - 1), states[n - 1].condition),
            states[n - 1].changes,
            states[n - 1].changes.len() as int,
        )
    }
}

/// The records after an element: after its bindings, its model and its
/// states, in this order.
pub open spec fn collected_element(table: Seq<Seq<char>>, e: ElementView) -> Seq<Seq<char>> {
    let after_bindings = collected_bindings(table, e.bindings, e.bindings.len() as int);
    let after_model = match e.repeated {
        Some(model) => collected(after_bindings, model),
        None => after_bindings,
    };
    collected_states(after_model, e.states, e.states.len() as int)
}

/// The records after the first `n` elements.
pub open spec fn collected_elements(table: Seq<Seq<char>>, elements: Seq<ElementView>, n: int) -> Seq<
    Seq<char>,
>
    decreases n,
{
    if n <= 0 {
        table
    } else {
        collected_element(collected_elements(table, elements, n - 1), elements[n - 1])
    }
}

/// The records after the models of the first `n` repeaters.
pub open spec fn collected_repeaters(
    table: Seq<Seq<char>>,
    repeaters: Seq<RepeaterView>,
    n: int,
) -> Seq<Seq<char>>
    decreases n,
{
    if n <= 0 {
        table
    } else {
        collected(collected_repeaters(table, repeaters, n - 1), repeaters[n - 1].model)
    }
}

/// The records after a component: after its elements, then its repeaters.
pub open spec fn collected_component(table: Seq<Seq<char>>, c: ComponentView) -> Seq<Seq<char>> {
    collected_repeaters(
        collected_elements(table, c.elements, c.elements.len() as int),
        c.repeaters,
        c.repeaters.len() as int,
    )
}

/// The records after the first `n` components.
pub open spec fn collected_components(
    table: Seq<Seq<char>>,
    components: Seq<ComponentView>,
    n: int,
) -> Seq<Seq<char>>
    decreases n,
{
    if n <= 0 {
        table
    } else {
        collected_component(collected_components(table, components, n - 1), components[n - 1])
    }
}

/// The expression with every location that has a record replaced by the
/// number of the record.
pub open spec fn embedded(table: Seq<Seq<char>>, e: Expression) -> Expression
    decreases e,
{
    match e {
        Expression::ResourceReference(location) => match position_of(table, location@) {
            Some(i) => Expression::EmbeddedResource(i as usize),
            None => e,
        },
        Expression::BinaryExpression { lhs, rhs, op } => Expression::BinaryExpression {
            lhs: Box::new(embedded(table, *lhs)),
            rhs: Box::new(embedded(table, *rhs)),
            op,
        },
        Expression::UnaryExpression { sub, op } => Expression::UnaryExpression {
            sub: Box::new(embedded(table, *sub)),
            op,
        },
        Expression::Condition { condition, true_expr, false_expr } => Expression::Condition {
            condition: Box::new(embedded(table, *condition)),
            true_expr: Box::new(embedded(table, *true_expr)),
            false_expr: Box::new(embedded(table, *false_expr)),
        },
        _ => e,
    }
}

/// The element with its resources embedded.
pub open spec fn embedded_element(table: Seq<Seq<char>>, e: ElementView) -> ElementView {
    ElementView {
        bindings: Seq::new(
            e.bindings.len(),
            |k: int|
                BindingView { expression: embedded(table, e.bindings[k].expression), ..e.bindings[k] },
        ),
        repeated: match e.repeated {
            Some(model) => Some(embedded(table, model)),
            None => None,
        },
        states: Seq::new(
            e.states.len(),
            |k: int|
                StateView {
                    condition: embedded(table, e.states[k].condition),
                    changes: Seq::new(
                        e.states[k].changes.len(),
                        |c: int|
                            PropertyChangeView {
                                expression: embedded(table, e.states[k].changes[c].expression),
                                ..e.states[k].changes[c]
                            },
                    ),
                    ..e.states[k]
                },
        ),
        ..e
    }
}

/// The component with its resources embedded.
pub open spec fn embedded_component(table: Seq<Seq<char>>, c: ComponentView) -> ComponentView {
    ComponentView {
        elements: Seq::new(c.elements.len(), |i: int| embedded_element(table, c.elements[i])),
        repeaters: Seq::new(
            c.repeaters.len(),
            |r: int| RepeaterView { model: embedded(table, c.repeaters[r].model), ..c.repeaters[r] },
        ),
        ..c
    }
}

/// The document with its resources embedded: the locations that its
/// expressions name are recorded after those recorded before, and the
/// expressions refer to the records.
pub open spec fn embedded_document(doc: DocumentView) -> DocumentView {
    let table = collected_components(
        doc.embedded_resources,
        doc.components,
        doc.components.len() as int,
    );
    DocumentView {
        components: Seq::new(
            doc.components.len(),
            |k: int| embedded_component(table, doc.components[k]),
        ),
        embedded_resources: table,
        ..doc
    }
}

/// Records the locations that an expression names.
pub fn collect(e: &Expression, table: &mut Vec<String>)
    ensures
        views(final(table)@) == collected(views(old(table)@), *e),
    decreases *e,
{
    match e {
        Expression::ResourceReference(location) => {
            let ghost before = views(table@);
            proof {
                crate::names::lemma_position_of(before, location@);
            }
            match find_name(table, location.as_str()) {
                Some(i) => {
                    assert(before[i as int] == location@);
                },
                None => {
                    table.push(location.clone());
                    assert(views(table@) =~= before.push(location@));
                },
            }
        },
        Expression::BinaryExpression { lhs, rhs, op } => {
            collect(lhs, table);
            collect(rhs, table);
        },
        Expression::UnaryExpression { sub, op } => {
            collect(sub, table);
        },
        Expression::Condition { condition, true_expr, false_expr } => {
            collect(condition, table);
            collect(true_expr, table);
            collect(false_expr, table);
        },
        _ => {},
    }
}

/// Records the locations that an element names.
fn collect_element(element: &Element, table: &mut Vec<String>)
    ensures
        views(final(table)@) == collected_element(views(old(table)@), element@),
{
    let ghost start = views(table@);
    let ghost e = element@;
    let mut k: usize = 0;
    while k < element.bindings.len()
        invariant
            e == element@,
            k <= element.bindings.len(),
            views(table@) == collected_bindings(start, e.bindings, k as int),
        decreases element.bindings.len() - k,
    {
        assert(e.bindings[k as int] == element.bindings@[k as int]@);
        collect(&element.bindings[k].expression, table);
        k += 1;
    }
    match &element.repeated {
        Some(model) => {
            collect(model, table);
        },
        None => {},
    }
    let ghost after_model = views(table@);
    let mut s: usize = 0;
    while s < element.states.len()
        invariant
            e == element@,
            s <= element.states.len(),
            views(table@) == collected_states(after_model, e.states, s as int),
        decreases element.states.len() - s,
    {
        let state = &element.states[s];
        assert(e.states[s as int] == state@);
        collect(&state.condition, table);
        let ghost with_condition = views(table@);
        let mut c: usize = 0;
        while c < state.changes.len()
            invariant
                c <= state.changes.len(),
                views(table@) == collected_changes(with_condition, state@.changes, c as int),
            decreases state.changes.len() - c,
        {
            assert(state@.changes[c as int] == state.changes@[c as int]@);
            collect(&state.changes[c].expression, table);
            c += 1;
        }
        s += 1;
    }
}

/// The records that say what a location is replaced by.
pub struct Embedder<'a> {
    pub table: &'a Vec<String>,
}

impl<'a> ExpressionRewriter for Embedder<'a> {
    open spec fn rewritten(&self, e: Expression) -> Expression {
        embedded(views(self.table@), e)
    }

    fn rewrite(&self, e: &Expression) -> (r: Expression)
        decreases *e,
    {
        match e {
            Expression::ResourceReference(location) => match find_name(
                self.table,
                location.as_str(),
            ) {
                Some(i) => Expression::EmbeddedResource(i),
                None => clone_expression(e),
            },
            Expression::BinaryExpression { lhs, rhs, op } => Expression::BinaryExpression {
                lhs: Box::new(self.rewrite(lhs)),
                rhs: Box::new(self.rewrite(rhs)),
                op: *op,
            },
            Expression::UnaryExpression { sub, op } => Expression::UnaryExpression {
                sub: Box::new(self.rewrite(sub)),
                op: *op,
            },
            Expression::Condition { condition, true_expr, false_expr } => Expression::Condition {
                condition: Box::new(self.rewrite(condition)),
                true_expr: Box::new(self.rewrite(true_expr)),
                false_expr: Box::new(self.rewrite(false_expr)),
            },
            _ => clone_expression(e),
        }
    }
}

/// What an embedder does to a component is to embed its resources.
proof fn lemma_visited_is_embedded(embedder: Embedder, c: ComponentView)
    ensures
        visited_component(c, embedder) == embedded_component(views(embedder.table@), c),
{
    let table = views(embedder.table@);
    assert forall|i: int| 0 <= i < c.elements.len() implies visited_element(
        c.elements[i],
        embedder,
    ) == embedded_element(table, c.elements[i]) by {
        let e = c.elements[i];
        assert(visited_bindings(e.bindings, embedder) =~= embedded_element(table, e).bindings);
        assert forall|k: int| 0 <= k < e.states.len() implies visited_changes(
            e.states[k].changes,
            embedder,
        ) == embedded_element(table, e).states[k].changes by {
            assert(visited_changes(e.states[k].changes, embedder) =~= embedded_element(
                table,
                e,
            ).states[k].changes);
        }
        assert(visited_states(e.states, embedder) =~= embedded_element(table, e).states);
    }
    assert(visited_component(c, embedder).elements =~= embedded_component(table, c).elements);
    assert(visited_component(c, embedder).repeaters =~= embedded_component(table, c).repeaters);
}

/// Embeds the resources of a document.
pub fn collect_resources(doc: &mut Document)
    ensures
        final(doc)@ == embedded_document(old(doc)@),
{
    let ghost d = doc@;
    let mut table: Vec<String> = Vec::new();
    core::mem::swap(&mut table, &mut doc.embedded_resources);
    let mut k: usize = 0;
    while k < doc.components.len()
        invariant
            d == old(doc)@,
            doc.components == old(doc).components,
            doc.root_component == old(doc).root_component,
            doc.path == old(doc).path,
            k <= doc.components.len(),
            views(table@) == collected_components(d.embedded_resources, d.components, k as int),
        decreases doc.components.len() - k,
    {
        let component = &doc.components[k];
        assert(d.components[k as int] == component@);
        let ghost before = views(table@);
        let mut i: usize = 0;
        while i < component.elements.len()
            invariant
                i <= component.elements.len(),
                views(table@) == collected_elements(before, component@.elements, i as int),
            decreases component.elements.len() - i,
        {
            assert(component@.elements[i as int] == component.elements@[i as int]@);
            collect_element(&component.elements[i], &mut table);
            i += 1;
        }
        let ghost after_elements = views(table@);
        let mut r: usize = 0;
        while r < component.repeaters.len()
            invariant
                r <= component.repeaters.len(),
                views(table@) == collected_repeaters(after_elements, component@.repeaters, r as int),
            decreases component.repeaters.len() - r,
        {
            assert(component@.repeaters[r as int] == component.repeaters@[r as int]@);
            collect(&component.repeaters[r].model, &mut table);
            r += 1;
        }
        k += 1;
    }
    let ghost records = views(table@);
    let mut n: usize = 0;
    while n < doc.components.len()
        invariant
            d == old(doc)@,
            records == views(table@),
            doc.root_component == old(doc).root_component,
            doc.path == old(doc).path,
            doc.components@.len() == d.components.len(),
            n <= doc.components.len(),
            forall|q: int|
                0 <= q < n ==> (#[trigger] doc.components@[q])@ == embedded_component(
                    records,
                    d.components[q],
                ),
            forall|q: int|
                n <= q < d.components.len() ==> (#[trigger] doc.components@[q])@ == d.components[q],
        decreases doc.components.len() - n,
    {
        let ghost before = doc.components@;
        let embedder = Embedder { table: &table };
        doc.components[n].visit_expressions(&embedder);
        proof {
            lemma_visited_is_embedded(embedder, d.components[n as int]);
            assert forall|q: int| 0 <= q < n + 1 implies (#[trigger] doc.components@[q])@
                == embedded_component(records, d.components[q]) by {
                if q < n {
                    assert(doc.components@[q] == before[q]);
                } else {
                    assert(before[q]@ == d.components[q]);
                }
            }
            assert forall|q: int| n + 1 <= q < d.components.len() implies (
            #[trigger] doc.components@[q])@ == d.components[q] by {
                assert(doc.components@[q] == before[q]);
            }
        }
        n += 1;
    }
    doc.embedded_resources = table;
    proof {
        assert(doc@.components =~= embedded_document(d).components);
    }
}

} // verus!

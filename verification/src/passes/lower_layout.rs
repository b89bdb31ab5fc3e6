//! Turns layouts into bindings: each child of a row or of a column gets
//! bindings for its `x` and `y` that place it after the child before it.
//!
//! The first child of a row stands at the left edge. Every other child
//! stands where the child before it ends, one spacing further. In a column
//! the same holds from the top. Positions are relative to the layout.

use vstd::prelude::*;
use crate::diagnostics::Span;
use crate::eval::BinaryOperator;
use crate::expression_tree::Expression;
use crate::names::views;
use crate::object_tree::{Binding, BindingView, Component, ComponentView, Element, ElementView};
use crate::typeregister::{
    ItemKind, Type, GEOMETRY_HEIGHT, GEOMETRY_WIDTH, GEOMETRY_X, GEOMETRY_Y,
};

verus! {

/// The position of `spacing` in the record of a layout.
pub const LAYOUT_SPACING: usize = 4;

/// The nearest element before `j` that is an item and has the parent of
/// element `i`.
pub open spec fn previous_sibling(elements: Seq<ElementView>, i: int, j: int) -> Option<int>
    decreases j,
{
    if j <= 0 {
        None
    } else if elements[j - 1].parent == elements[i].parent && elements[j - 1].base_type is Builtin {
        Some(j - 1)
    } else {
        previous_sibling(elements, i, j - 1)
    }
}

/// A reference to a property of an element.
pub open spec fn reference(element: int, property: usize) -> Expression {
    Expression::PropertyReference { element: element as usize, property }
}

/// Where a child starts along the layout: at the edge when it is the first,
/// else where the child before it ends, one spacing further.
pub open spec fn start_along(layout: int, previous: Option<int>, position: usize, extent: usize) -> Expression {
    match previous {
        None => Expression::NumberLiteral(0),
        Some(k) => Expression::BinaryExpression {
            lhs: Box::new(
                Expression::BinaryExpression {
                    lhs: Box::new(reference(k, position)),
                    rhs: Box::new(reference(k, extent)),
                    op: BinaryOperator::Add,
                },
            ),
            rhs: Box::new(reference(layout, LAYOUT_SPACING)),
            op: BinaryOperator::Add,
        },
    }
}

/// The layout that places element `i`, and whether it is a row: the parent
/// of the element, when the element is an item and the parent a row or a
/// column that stands before it.
pub open spec fn placing_layout(elements: Seq<ElementView>, i: int) -> Option<(int, bool)> {
    match elements[i].parent {
        Some(p) => if p < i && elements[i].base_type is Builtin {
            if elements[p as int].base_type == Type::Builtin(ItemKind::RowLayout) {
                Some((p as int, true))
            } else if elements[p as int].base_type == Type::Builtin(ItemKind::ColumnLayout) {
                Some((p as int, false))
            } else {
                None
            }
        } else {
            None
        },
        None => None,
    }
}

/// The binding that a layout makes for a property of an element.
pub open spec fn placed(property: usize, expression: Expression, span: Span) -> BindingView {
    BindingView { property, expression, animation: None, span }
}

/// Element `i` as its layout places it: the bindings for `x` and `y` that
/// the layout makes follow the bindings the element has, so that they
/// count. An element that no layout places is as it was.
pub open spec fn laid_out_element(elements: Seq<ElementView>, i: int) -> ElementView {
    match placing_layout(elements, i) {
        Some((p, row)) => {
            let previous = previous_sibling(elements, i, i);
            let x = if row {
                start_along(p, previous, GEOMETRY_X, GEOMETRY_WIDTH)
            } else {
                Expression::NumberLiteral(0)
            };
            let y = if row {
                Expression::NumberLiteral(0)
            } else {
                start_along(p, previous, GEOMETRY_Y, GEOMETRY_HEIGHT)
            };
            ElementView {
                bindings: elements[i].bindings.push(placed(GEOMETRY_X, x, elements[i].span)).push(
                    placed(GEOMETRY_Y, y, elements[i].span),
                ),
                ..elements[i]
            }
        },
        None => elements[i],
    }
}

/// The component with its layouts lowered.
pub open spec fn laid_out(c: ComponentView) -> ComponentView {
    ComponentView {
        elements: Seq::new(c.elements.len(), |i: int| laid_out_element(c.elements, i)),
        ..c
    }
}

/// The nearest element before `i` that is an item and has the parent of
/// element `i`.
fn find_previous(elements: &Vec<Element>, i: usize) -> (found: Option<usize>)
    requires
        i < elements.len(),
    ensures
        match found {
            Some(k) => previous_sibling(views(elements@), i as int, i as int) == Some(k as int) && k
                < i,
            None => previous_sibling(views(elements@), i as int, i as int).is_none(),
        },
{
    let mut j: usize = i;
    while j > 0
        invariant
            j <= i < elements.len(),
            previous_sibling(views(elements@), i as int, i as int) == previous_sibling(
                views(elements@),
                i as int,
                j as int,
            ),
        decreases j,
    {
        j -= 1;
        assert(views(elements@)[j as int] == elements@[j as int]@);
        assert(views(elements@)[i as int] == elements@[i as int]@);
        let same_parent = match (elements[j].parent, elements[i].parent) {
            (Some(a), Some(b)) => a == b,
            (None, None) => true,
            _ => false,
        };
        let item = match elements[j].base_type {
            Type::Builtin(_) => true,
            _ => false,
        };
        if same_parent && item {
            return Some(j);
        }
    }
    None
}

fn property_reference(element: usize, property: usize) -> (e: Expression)
    ensures
        e == reference(element as int, property),
{
    Expression::PropertyReference { element, property }
}

fn start(layout: usize, previous: Option<usize>, position: usize, extent: usize) -> (e: Expression)
    ensures
        e == start_along(
            layout as int,
            match previous {
                Some(k) => Some(k as int),
                None => None,
            },
            position,
            extent,
        ),
{
    match previous {
        None => Expression::NumberLiteral(0),
        Some(k) => Expression::BinaryExpression {
            lhs: Box::new(
                Expression::BinaryExpression {
                    lhs: Box::new(property_reference(k, position)),
                    rhs: Box::new(property_reference(k, extent)),
                    op: BinaryOperator::Add,
                },
            ),
            rhs: Box::new(property_reference(layout, LAYOUT_SPACING)),
            op: BinaryOperator::Add,
        },
    }
}

/// Lowers the layouts of a component.
pub fn lower_layouts(component: &mut Component)
    ensures
        final(component)@ == laid_out(old(component)@),
{
    let ghost c = component@;
    let mut i: usize = 0;
    while i < component.elements.len()
        invariant
            c == old(component)@,
            component.id == old(component).id,
            component.repeaters == old(component).repeaters,
            component.elements@.len() == c.elements.len(),
            i <= component.elements.len(),
            forall|q: int|
                0 <= q < component.elements@.len() ==> {
                    &&& (#[trigger] component.elements@[q])@.parent == c.elements[q].parent
                    &&& component.elements@[q]@.base_type == c.elements[q].base_type
                },
            forall|q: int|
                0 <= q < i ==> (#[trigger] component.elements@[q])@ == laid_out_element(
                    c.elements,
                    q,
                ),
            forall|q: int|
                i <= q < c.elements.len() ==> (#[trigger] component.elements@[q])@ == c.elements[q],
        decreases component.elements.len() - i,
    {
        let ghost before = component.elements@;
        assert(before[i as int]@ == c.elements[i as int]);
        let item = match component.elements[i].base_type {
            Type::Builtin(_) => true,
            _ => false,
        };
        let layout: Option<(usize, bool)> = match component.elements[i].parent {
            Some(p) => {
                if p < i && item {
                    assert(before[p as int]@.base_type == c.elements[p as int].base_type);
                    if component.elements[p].base_type == Type::Builtin(ItemKind::RowLayout) {
                        Some((p, true))
                    } else if component.elements[p].base_type == Type::Builtin(
                        ItemKind::ColumnLayout,
                    ) {
                        Some((p, false))
                    } else {
                        None
                    }
                } else {
                    None
                }
            },
            None => None,
        };
        match layout {
            Some((p, row)) => {
                let previous = find_previous(&component.elements, i);
                proof {
                    lemma_previous_same(views(before), c.elements, i as int, i as int);
                }
                let x = if row {
                    start(p, previous, GEOMETRY_X, GEOMETRY_WIDTH)
                } else {
                    Expression::NumberLiteral(0)
                };
                let y = if row {
                    Expression::NumberLiteral(0)
                } else {
                    start(p, previous, GEOMETRY_Y, GEOMETRY_HEIGHT)
                };
                let span = component.elements[i].span;
                let ghost bindings = views(component.elements@[i as int].bindings@);
                component.elements[i].bindings.push(
                    Binding { property: GEOMETRY_X, expression: x, animation: None, span },
                );
                component.elements[i].bindings.push(
                    Binding { property: GEOMETRY_Y, expression: y, animation: None, span },
                );
                proof {
                    assert(views(component.elements@[i as int].bindings@) =~= bindings.push(
                        placed(GEOMETRY_X, x, span),
                    ).push(placed(GEOMETRY_Y, y, span)));
                }
            },
            None => {},
        }
        proof {
            assert forall|q: int| 0 <= q < component.elements@.len() implies {
                &&& (#[trigger] component.elements@[q])@.parent == c.elements[q].parent
                &&& component.elements@[q]@.base_type == c.elements[q].base_type
            } by {
                if q != i {
                    assert(component.elements@[q] == before[q]);
                }
            }
            assert forall|q: int| 0 <= q < i + 1 implies (#[trigger] component.elements@[q])@
                == laid_out_element(c.elements, q) by {
                if q < i {
                    assert(component.elements@[q] == before[q]);
                }
            }
            assert forall|q: int| i + 1 <= q < c.elements.len() implies (
            #[trigger] component.elements@[q])@ == c.elements[q] by {
                assert(component.elements@[q] == before[q]);
            }
        }
        i += 1;
    }
    assert(component@.elements =~= laid_out(c).elements);
}

/// Which element comes before depends on the parents and the base types
/// alone.
proof fn lemma_previous_same(a: Seq<ElementView>, b: Seq<ElementView>, i: int, j: int)
    requires
        a.len() == b.len(),
        0 <= j <= i < a.len(),
        forall|q: int|
            0 <= q < a.len() ==> (#[trigger] a[q]).parent == b[q].parent && a[q].base_type
                == b[q].base_type,
    ensures
        previous_sibling(a, i, j) == previous_sibling(b, i, j),
    decreases j,
{
    if j > 0 {
        lemma_previous_same(a, b, i, j - 1);
    }
}

} // verus!

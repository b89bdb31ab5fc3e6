//! Gives every element its dense index.

use vstd::prelude::*;
use crate::object_tree::{Component, ComponentView, ElementView};

verus! {

/// The component with each element numbered by its position.
pub open spec fn numbered(component: ComponentView) -> ComponentView {
    ComponentView {
        elements: Seq::new(
            component.elements.len(),
            |i: int| ElementView { unique_id: i as usize, ..component.elements[i] },
        ),
        ..component
    }
}

/// Numbers the elements of a component: each gets its position in the
/// component, so that no two elements of a component have the same number
/// and the numbers of `n` elements are the numbers below `n`.
pub fn assign_unique_id(component: &mut Component)
    ensures
        final(component)@ == numbered(old(component)@),
{
    let ghost start = component@;
    let mut i: usize = 0;
    while i < component.elements.len()
        invariant
            i <= component.elements.len(),
            component.id == old(component).id,
            component.repeaters == old(component).repeaters,
            component.elements@.len() == start.elements.len(),
            start == old(component)@,
            forall|k: int|
                0 <= k < i ==> (#[trigger] component.elements@[k])@ == (ElementView {
                    unique_id: k as usize,
                    ..start.elements[k]
                }),
            forall|k: int|
                i <= k < component.elements@.len() ==> (#[trigger] component.elements@[k])@
                    == start.elements[k],
        decreases component.elements.len() - i,
    {
        let ghost before = component.elements@;
        component.elements[i].unique_id = i;
        proof {
            assert forall|k: int| 0 <= k < i + 1 implies (#[trigger] component.elements@[k])@ == (
            ElementView { unique_id: k as usize, ..start.elements[k] }) by {
                if k < i {
                    assert(component.elements@[k] == before[k]);
                } else {
                    assert(before[k]@ == start.elements[k]);
                }
            }
            assert forall|k: int| i + 1 <= k < component.elements@.len() implies (
            #[trigger] component.elements@[k])@ == start.elements[k] by {
                assert(component.elements@[k] == before[k]);
            }
        }
        i += 1;
    }
    assert(component@.elements =~= numbered(start).elements);
}

/// No two elements of a numbered component have the same number.
pub proof fn lemma_numbers_distinct(component: ComponentView, i: int, j: int)
    requires
        0 <= i < j < component.elements.len() <= usize::MAX,
    ensures
        numbered(component).elements[i].unique_id != numbered(component).elements[j].unique_id,
        numbered(component).elements[i].unique_id == i,
{
}

} // verus!

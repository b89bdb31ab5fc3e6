//! The document model: components, their elements, and the bindings of the
//! elements' properties.
//!
//! The elements of a component stand in one list. The first element is the
//! root; every other element names its parent by position, and a parent
//! stands before its children. Expressions refer to elements and properties
//! by position, so a name is only looked up once, when the document is made.

use vstd::prelude::*;
use crate::diagnostics::Span;
use crate::expression_tree::{clone_expression, Expression};
use crate::items::PropertyAnimation;
use crate::names::views;
use crate::typeregister::{builtin_table, DeclarationView, PropertyDeclaration, Type};

verus! {

/// An expression attached to a property of an element, with the animation
/// that runs when the value of the property changes.
#[derive(Debug)]
pub struct Binding {
    /// The property, by its position among the properties of the element.
    pub property: usize,
    pub expression: Expression,
    pub animation: Option<PropertyAnimation>,
    pub span: Span,
}

/// What a state does to one property while the state is active.
#[derive(Debug)]
pub struct PropertyChange {
    pub element: usize,
    pub property: usize,
    pub expression: Expression,
}

/// A named state of an element: while `condition` holds, the changes apply.
#[derive(Debug)]
pub struct State {
    pub id: String,
    pub condition: Expression,
    pub changes: Vec<PropertyChange>,
}

/// The animation of one property in a transition.
#[derive(Clone, Copy, Debug)]
pub struct TransitionAnimation {
    pub element: usize,
    pub property: usize,
    pub animation: PropertyAnimation,
}

/// How properties move when a state is entered or left.
#[derive(Debug)]
pub struct Transition {
    /// The state, by its position among the states of the element.
    pub state: usize,
    pub animations: Vec<TransitionAnimation>,
}

/// One element of a component.
#[derive(Debug)]
pub struct Element {
    pub id: String,
    pub base_type: Type,
    /// The parent, by position; `None` for the root.
    pub parent: Option<usize>,
    /// The properties and signals that the element declares itself. They
    /// follow the properties of the base type.
    pub declarations: Vec<PropertyDeclaration>,
    pub bindings: Vec<Binding>,
    /// The model, if the element stands for one item per model entry.
    pub repeated: Option<Expression>,
    pub states: Vec<State>,
    pub transitions: Vec<Transition>,
    /// The dense index that the element has in its component.
    pub unique_id: usize,
    pub span: Span,
}

/// A template inside a component and the model that says how often it is
/// instantiated.
#[derive(Debug)]
pub struct Repeater {
    pub model: Expression,
    /// The template, by its position in the document.
    pub component: usize,
    /// The element that the items are children of.
    pub parent_element: usize,
}

/// A component: a tree of elements.
#[derive(Debug)]
pub struct Component {
    pub id: String,
    pub elements: Vec<Element>,
    pub repeaters: Vec<Repeater>,
}

/// A compiled file: its components, of which one is the root.
#[derive(Debug)]
pub struct Document {
    pub components: Vec<Component>,
    pub root_component: usize,
    /// The locations of the resources that are embedded, each once.
    pub embedded_resources: Vec<String>,
    /// The file that the document was made from.
    pub path: String,
}

/// The content of a [`Binding`].
pub struct BindingView {
    pub property: usize,
    pub expression: Expression,
    pub animation: Option<PropertyAnimation>,
    pub span: Span,
}

impl View for Binding {
    type V = BindingView;

    open spec fn view(&self) -> BindingView {
        BindingView {
            property: self.property,
            expression: self.expression,
            animation: self.animation,
            span: self.span,
        }
    }
}

/// The content of a [`PropertyChange`].
pub struct PropertyChangeView {
    pub element: usize,
    pub property: usize,
    pub expression: Expression,
}

impl View for PropertyChange {
    type V = PropertyChangeView;

    open spec fn view(&self) -> PropertyChangeView {
        PropertyChangeView {
            element: self.element,
            property: self.property,
            expression: self.expression,
        }
    }
}

/// The content of a [`State`].
pub struct StateView {
    pub id: Seq<char>,
    pub condition: Expression,
    pub changes: Seq<PropertyChangeView>,
}

impl View for State {
    type V = StateView;

    open spec fn view(&self) -> StateView {
        StateView { id: self.id@, condition: self.condition, changes: views(self.changes@) }
    }
}

impl View for TransitionAnimation {
    type V = TransitionAnimation;

    open spec fn view(&self) -> TransitionAnimation {
        *self
    }
}

/// The content of a [`Transition`].
pub struct TransitionView {
    pub state: usize,
    pub animations: Seq<TransitionAnimation>,
}

impl View for Transition {
    type V = TransitionView;

    open spec fn view(&self) -> TransitionView {
        TransitionView { state: self.state, animations: self.animations@ }
    }
}

/// The content of an [`Element`].
pub struct ElementView {
    pub id: Seq<char>,
    pub base_type: Type,
    pub parent: Option<usize>,
    pub declarations: Seq<DeclarationView>,
    pub bindings: Seq<BindingView>,
    pub repeated: Option<Expression>,
    pub states: Seq<StateView>,
    pub transitions: Seq<TransitionView>,
    pub unique_id: usize,
    pub span: Span,
}

impl View for Element {
    type V = ElementView;

    open spec fn view(&self) -> ElementView {
        ElementView {
            id: self.id@,
            base_type: self.base_type,
            parent: self.parent,
            declarations: views(self.declarations@),
            bindings: views(self.bindings@),
            repeated: self.repeated,
            states: views(self.states@),
            transitions: views(self.transitions@),
            unique_id: self.unique_id,
            span: self.span,
        }
    }
}

/// The content of a [`Repeater`].
pub struct RepeaterView {
    pub model: Expression,
    pub component: usize,
    pub parent_element: usize,
}

impl View for Repeater {
    type V = RepeaterView;

    open spec fn view(&self) -> RepeaterView {
        RepeaterView {
            model: self.model,
            component: self.component,
            parent_element: self.parent_element,
        }
    }
}

/// The content of a [`Component`].
pub struct ComponentView {
    pub id: Seq<char>,
    pub elements: Seq<ElementView>,
    pub repeaters: Seq<RepeaterView>,
}

impl View for Component {
    type V = ComponentView;

    open spec fn view(&self) -> ComponentView {
        ComponentView {
            id: self.id@,
            elements: views(self.elements@),
            repeaters: views(self.repeaters@),
        }
    }
}

/// The content of a [`Document`].
pub struct DocumentView {
    pub components: Seq<ComponentView>,
    pub root_component: usize,
    pub embedded_resources: Seq<Seq<char>>,
    pub path: Seq<char>,
}

impl View for Document {
    type V = DocumentView;

    open spec fn view(&self) -> DocumentView {
        DocumentView {
            components: views(self.components@),
            root_component: self.root_component,
            embedded_resources: views(self.embedded_resources@),
            path: self.path@,
        }
    }
}

/// The properties and signals of an element whose base type is built in:
/// those of the base type, then those that the element declares. An element
/// of another base type has only what it declares.
pub open spec fn element_table(element: ElementView) -> Seq<DeclarationView> {
    match element.base_type {
        Type::Builtin(kind) => builtin_table(kind) + element.declarations,
        _ => element.declarations,
    }
}

/// A copy of a binding.
pub fn clone_binding(b: &Binding) -> (copy: Binding)
    ensures
        copy@ == b@,
{
    Binding {
        property: b.property,
        expression: clone_expression(&b.expression),
        animation: b.animation,
        span: b.span,
    }
}

/// A copy of a declaration.
pub fn clone_declaration(d: &PropertyDeclaration) -> (copy: PropertyDeclaration)
    ensures
        copy@ == d@,
{
    PropertyDeclaration { name: d.name.clone(), property_type: d.property_type }
}

} // verus!

//! The syntax tree: a document as it was written, before any name in it was
//! looked up.
//!
//! The elements of a component stand in one list, the root first; every
//! other element names its parent by position. Everything else is named as
//! in the source: types, properties, elements and states by their names, and
//! values as expressions in which a name is an `Identifier`.

use vstd::prelude::*;
use crate::diagnostics::Span;
use crate::expression_tree::Expression;
use crate::items::PropertyAnimation;
use crate::names::views;

verus! {

/// `name: expression;` inside an element, with the animation declared for
/// the property, if any.
#[derive(Debug)]
pub struct SyntaxBinding {
    pub name: String,
    pub expression: Expression,
    pub animation: Option<PropertyAnimation>,
    pub span: Span,
}

/// `property<type> name;` or `signal name;` inside an element.
#[derive(Debug)]
pub struct SyntaxDeclaration {
    pub name: String,
    pub declared_type: String,
    pub span: Span,
}

/// `element.property: expression;` inside a state. An empty element name
/// stands for the element that has the state.
#[derive(Debug)]
pub struct SyntaxPropertyChange {
    pub element: String,
    pub property: String,
    pub expression: Expression,
    pub span: Span,
}

/// A state of an element.
#[derive(Debug)]
pub struct SyntaxState {
    pub id: String,
    pub condition: Expression,
    pub changes: Vec<SyntaxPropertyChange>,
}

/// `animate element.property { .. }` inside a transition.
#[derive(Debug)]
pub struct SyntaxTransitionAnimation {
    pub element: String,
    pub property: String,
    pub animation: PropertyAnimation,
    pub span: Span,
}

/// The transition into a state.
#[derive(Debug)]
pub struct SyntaxTransition {
    pub state: String,
    pub animations: Vec<SyntaxTransitionAnimation>,
    pub span: Span,
}

/// One element as written.
#[derive(Debug)]
pub struct SyntaxElement {
    pub id: String,
    /// The name of the base type.
    pub base: String,
    /// The parent, by position; `None` for the root.
    pub parent: Option<usize>,
    pub declarations: Vec<SyntaxDeclaration>,
    pub bindings: Vec<SyntaxBinding>,
    /// The model of `for .. in model`, if the element is repeated.
    pub repeated: Option<Expression>,
    pub states: Vec<SyntaxState>,
    pub transitions: Vec<SyntaxTransition>,
    pub span: Span,
}

/// `Name := Base { .. }`.
#[derive(Debug)]
pub struct SyntaxComponent {
    pub id: String,
    pub elements: Vec<SyntaxElement>,
    pub span: Span,
}

/// A parsed file: its components in the order in which they are written.
/// The last one is the root component.
#[derive(Debug)]
pub struct SyntaxNode {
    pub components: Vec<SyntaxComponent>,
}

/// The content of a [`SyntaxBinding`].
pub struct SyntaxBindingView {
    pub name: Seq<char>,
    pub expression: Expression,
    pub animation: Option<PropertyAnimation>,
    pub span: Span,
}

impl View for SyntaxBinding {
    type V = SyntaxBindingView;

    open spec fn view(&self) -> SyntaxBindingView {
        SyntaxBindingView {
            name: self.name@,
            expression: self.expression,
            animation: self.animation,
            span: self.span,
        }
    }
}

/// The content of a [`SyntaxDeclaration`].
pub struct SyntaxDeclarationView {
    pub name: Seq<char>,
    pub declared_type: Seq<char>,
    pub span: Span,
}

impl View for SyntaxDeclaration {
    type V = SyntaxDeclarationView;

    open spec fn view(&self) -> SyntaxDeclarationView {
        SyntaxDeclarationView { name: self.name@, declared_type: self.declared_type@, span: self.span }
    }
}

/// The content of a [`SyntaxPropertyChange`].
pub struct SyntaxPropertyChangeView {
    pub element: Seq<char>,
    pub property: Seq<char>,
    pub expression: Expression,
    pub span: Span,
}

impl View for SyntaxPropertyChange {
    type V = SyntaxPropertyChangeView;

    open spec fn view(&self) -> SyntaxPropertyChangeView {
        SyntaxPropertyChangeView {
            element: self.element@,
            property: self.property@,
            expression: self.expression,
            span: self.span,
        }
    }
}

/// The content of a [`SyntaxState`].
pub struct SyntaxStateView {
    pub id: Seq<char>,
    pub condition: Expression,
    pub changes: Seq<SyntaxPropertyChangeView>,
}

impl View for SyntaxState {
    type V = SyntaxStateView;

    open spec fn view(&self) -> SyntaxStateView {
        SyntaxStateView { id: self.id@, condition: self.condition, changes: views(self.changes@) }
    }
}

/// The content of a [`SyntaxTransitionAnimation`].
pub struct SyntaxTransitionAnimationView {
    pub element: Seq<char>,
    pub property: Seq<char>,
    pub animation: PropertyAnimation,
    pub span: Span,
}

impl View for SyntaxTransitionAnimation {
    type V = SyntaxTransitionAnimationView;

    open spec fn view(&self) -> SyntaxTransitionAnimationView {
        SyntaxTransitionAnimationView {
            element: self.element@,
            property: self.property@,
            animation: self.animation,
            span: self.span,
        }
    }
}

/// The content of a [`SyntaxTransition`].
pub struct SyntaxTransitionView {
    pub state: Seq<char>,
    pub animations: Seq<SyntaxTransitionAnimationView>,
    pub span: Span,
}

impl View for SyntaxTransition {
    type V = SyntaxTransitionView;

    open spec fn view(&self) -> SyntaxTransitionView {
        SyntaxTransitionView {
            state: self.state@,
            animations: views(self.animations@),
            span: self.span,
        }
    }
}

/// The content of a [`SyntaxElement`].
pub struct SyntaxElementView {
    pub id: Seq<char>,
    pub base: Seq<char>,
    pub parent: Option<usize>,
    pub declarations: Seq<SyntaxDeclarationView>,
    pub bindings: Seq<SyntaxBindingView>,
    pub repeated: Option<Expression>,
    pub states: Seq<SyntaxStateView>,
    pub transitions: Seq<SyntaxTransitionView>,
    pub span: Span,
}

impl View for SyntaxElement {
    type V = SyntaxElementView;

    open spec fn view(&self) -> SyntaxElementView {
        SyntaxElementView {
            id: self.id@,
            base: self.base@,
            parent: self.parent,
            declarations: views(self.declarations@),
            bindings: views(self.bindings@),
            repeated: self.repeated,
            states: views(self.states@),
            transitions: views(self.transitions@),
            span: self.span,
        }
    }
}

/// The content of a [`SyntaxComponent`].
pub struct SyntaxComponentView {
    pub id: Seq<char>,
    pub elements: Seq<SyntaxElementView>,
    pub span: Span,
}

impl View for SyntaxComponent {
    type V = SyntaxComponentView;

    open spec fn view(&self) -> SyntaxComponentView {
        SyntaxComponentView { id: self.id@, elements: views(self.elements@), span: self.span }
    }
}

impl View for SyntaxNode {
    type V = Seq<SyntaxComponentView>;

    open spec fn view(&self) -> Seq<SyntaxComponentView> {
        views(self.components@)
    }
}

} // verus!

//! From the syntax tree to the document: every name of a type, of a
//! property, of an element and of a state is looked up once, and what it
//! names is recorded by position.
//!
//! A name that names nothing gives a diagnostic. The document is made all
//! the same: an element of an unknown type has the type `Invalid`, and a
//! binding, a change or an animation of an unknown property is left out.

use vstd::prelude::*;
use crate::diagnostics::{
    error_at, lemma_with_all_concat, lemma_with_all_empty, lemma_with_all_push, with_all,
    DiagnosticView, FileDiagnostics, Span,
};
use crate::expression_tree::clone_expression;
use crate::names::{find_name, position_of, views};
use crate::object_tree::{
    Binding, BindingView, Component, ComponentView, Document, Element, ElementView,
    PropertyChange, PropertyChangeView, State, StateView, Transition, TransitionAnimation,
    TransitionView,
};
use crate::parser::{
    SyntaxBindingView,
    SyntaxComponent,
    SyntaxComponentView,
    SyntaxDeclarationView,
    SyntaxElement,
    SyntaxElementView,
    SyntaxNode,
    SyntaxPropertyChange,
    SyntaxPropertyChangeView,
    SyntaxState,
    SyntaxStateView,
    SyntaxTransition,
    SyntaxTransitionAnimation,
    SyntaxTransitionAnimationView,
    SyntaxTransitionView,
};
use crate::typeregister::{
    builtin_properties, builtin_table, decl, declared_at, find_declaration, lookup_chain,
    DeclarationView, PropertyDeclaration, Type, TypeRegister,
};

verus! {

/// A message that names what it is about.
pub fn message(prefix: &str, name: &str) -> (text: String)
    ensures
        text@ == prefix@ + name@,
{
    String::from_str(prefix).concat(name)
}

/// Whether a property can have the type.
pub open spec fn is_property_type(ty: Type) -> bool {
    ty == Type::Float32 || ty == Type::Int32 || ty == Type::String || ty == Type::Color || ty
        == Type::Image || ty == Type::Bool || ty == Type::Signal
}

/// Whether an element can have the type as its base.
pub open spec fn is_element_type(ty: Type) -> bool {
    ty is Builtin || ty is Component
}

/// The type that a name stands for, `Invalid` when it stands for none.
pub open spec fn looked_up(scopes: Seq<Seq<(Seq<char>, Type)>>, name: Seq<char>) -> Type {
    match lookup_chain(scopes, name) {
        Some(ty) => ty,
        None => Type::Invalid,
    }
}

/// The declaration that a written declaration stands for.
pub open spec fn declared(scopes: Seq<Seq<(Seq<char>, Type)>>, d: SyntaxDeclarationView) -> DeclarationView {
    if is_property_type(looked_up(scopes, d.declared_type)) {
        decl(d.name, looked_up(scopes, d.declared_type))
    } else {
        decl(d.name, Type::Invalid)
    }
}

/// The declarations that the first `n` written declarations stand for.
pub open spec fn declarations_of(
    scopes: Seq<Seq<(Seq<char>, Type)>>,
    written: Seq<SyntaxDeclarationView>,
    n: int,
) -> Seq<DeclarationView>
    decreases n,
{
    if n <= 0 {
        Seq::empty()
    } else {
        declarations_of(scopes, written, n - 1).push(declared(scopes, written[n - 1]))
    }
}

/// What is wrong with the first `n` written declarations.
pub open spec fn declaration_errors(
    scopes: Seq<Seq<(Seq<char>, Type)>>,
    written: Seq<SyntaxDeclarationView>,
    n: int,
) -> Seq<DiagnosticView>
    decreases n,
{
    if n <= 0 {
        Seq::empty()
    } else if is_property_type(looked_up(scopes, written[n - 1].declared_type)) {
        declaration_errors(scopes, written, n - 1)
    } else {
        declaration_errors(scopes, written, n - 1).push(
            error_at("Unknown property type "@ + written[n - 1].declared_type, written[n - 1].span),
        )
    }
}

/// The base type that a written element has.
pub open spec fn base_of(scopes: Seq<Seq<(Seq<char>, Type)>>, e: SyntaxElementView) -> Type {
    if is_element_type(looked_up(scopes, e.base)) {
        looked_up(scopes, e.base)
    } else {
        Type::Invalid
    }
}

/// What is wrong with the base of a written element.
pub open spec fn base_errors(scopes: Seq<Seq<(Seq<char>, Type)>>, e: SyntaxElementView) -> Seq<
    DiagnosticView,
> {
    if is_element_type(looked_up(scopes, e.base)) {
        Seq::empty()
    } else {
        seq![error_at("Unknown type "@ + e.base, e.span)]
    }
}

/// The bindings that the first `n` written bindings stand for: those of
/// properties that the table knows, each with the position of its property.
pub open spec fn bindings_of(
    table: Seq<DeclarationView>,
    written: Seq<SyntaxBindingView>,
    n: int,
) -> Seq<BindingView>
    decreases n,
{
    if n <= 0 {
        Seq::empty()
    } else {
        match declared_at(table, written[n - 1].name) {
            Some(p) => bindings_of(table, written, n - 1).push(
                BindingView {
                    property: p as usize,
                    expression: written[n - 1].expression,
                    animation: written[n - 1].animation,
                    span: written[n - 1].span,
                },
            ),
            None => bindings_of(table, written, n - 1),
        }
    }
}

/// What is wrong with the first `n` written bindings.
pub open spec fn binding_errors(
    table: Seq<DeclarationView>,
    written: Seq<SyntaxBindingView>,
    n: int,
) -> Seq<DiagnosticView>
    decreases n,
{
    if n <= 0 {
        Seq::empty()
    } else {
        match declared_at(table, written[n - 1].name) {
            Some(p) => binding_errors(table, written, n - 1),
            None => binding_errors(table, written, n - 1).push(
                error_at("Unknown property "@ + written[n - 1].name, written[n - 1].span),
            ),
        }
    }
}

/// The properties of the root of each component, for the components that
/// are made already.
pub open spec fn root_table(roots: Seq<Seq<DeclarationView>>, base_type: Type) -> Seq<
    DeclarationView,
> {
    match base_type {
        Type::Builtin(kind) => builtin_table(kind),
        Type::Component(c) => if c < roots.len() {
            roots[c as int]
        } else {
            Seq::empty()
        },
        _ => Seq::empty(),
    }
}

/// The properties of an element: those of its base, then its own.
pub open spec fn table_of(
    roots: Seq<Seq<DeclarationView>>,
    base_type: Type,
    declarations: Seq<DeclarationView>,
) -> Seq<DeclarationView> {
    root_table(roots, base_type) + declarations
}

/// The element that a written element stands for, without its states and
/// transitions.
pub open spec fn plain_element(
    scopes: Seq<Seq<(Seq<char>, Type)>>,
    roots: Seq<Seq<DeclarationView>>,
    e: SyntaxElementView,
    i: int,
) -> ElementView {
    let declarations = declarations_of(scopes, e.declarations, e.declarations.len() as int);
    ElementView {
        id: e.id,
        base_type: base_of(scopes, e),
        parent: match e.parent {
            Some(p) => if p < i {
                Some(p)
            } else {
                None
            },
            None => None,
        },
        declarations,
        bindings: bindings_of(
            table_of(roots, base_of(scopes, e), declarations),
            e.bindings,
            e.bindings.len() as int,
        ),
        repeated: e.repeated,
        states: Seq::empty(),
        transitions: Seq::empty(),
        unique_id: 0,
        span: e.span,
    }
}

/// What is wrong with a written element, its states and transitions apart.
pub open spec fn plain_errors(
    scopes: Seq<Seq<(Seq<char>, Type)>>,
    roots: Seq<Seq<DeclarationView>>,
    e: SyntaxElementView,
) -> Seq<DiagnosticView> {
    let declarations = declarations_of(scopes, e.declarations, e.declarations.len() as int);
    base_errors(scopes, e) + declaration_errors(scopes, e.declarations, e.declarations.len() as int)
        + binding_errors(
        table_of(roots, base_of(scopes, e), declarations),
        e.bindings,
        e.bindings.len() as int,
    )
}

/// Whether a property can have the type.
pub fn property_type(ty: Type) -> (ok: bool)
    ensures
        ok == is_property_type(ty),
{
    match ty {
        Type::Float32 => true,
        Type::Int32 => true,
        Type::String => true,
        Type::Color => true,
        Type::Image => true,
        Type::Bool => true,
        Type::Signal => true,
        _ => false,
    }
}

/// A copy of a table.
pub fn clone_table(table: &Vec<PropertyDeclaration>) -> (copy: Vec<PropertyDeclaration>)
    ensures
        views(copy@) == views(table@),
{
    let mut copy: Vec<PropertyDeclaration> = Vec::new();
    let mut i: usize = 0;
    while i < table.len()
        invariant
            i <= table.len(),
            copy@.len() == i,
            forall|k: int| 0 <= k < i ==> (#[trigger] copy@[k])@ == table@[k]@,
        decreases table.len() - i,
    {
        copy.push(
            PropertyDeclaration { name: table[i].name.clone(), property_type: table[i].property_type },
        );
        i += 1;
    }
    assert(views(copy@) =~= views(table@));
    copy
}

/// The tables as values of the model.
pub open spec fn table_views(tables: Seq<Vec<PropertyDeclaration>>) -> Seq<Seq<DeclarationView>> {
    Seq::new(tables.len(), |t: int| views(tables[t]@))
}

/// The element that a written element stands for, without its states and
/// transitions, and the table of its properties.
fn lower_element(
    written: &SyntaxElement,
    i: usize,
    registry: &TypeRegister,
    roots: &Vec<Vec<PropertyDeclaration>>,
    diag: &mut FileDiagnostics,
) -> (out: (Element, Vec<PropertyDeclaration>))
    ensures
        out.0@ == plain_element(
            registry.scopes(),
            table_views(roots@),
            written@,
            i as int,
        ),
        views(out.1@) == table_of(
            table_views(roots@),
            out.0@.base_type,
            out.0@.declarations,
        ),
        final(diag)@.current_path == old(diag)@.current_path,
        final(diag)@.inner == with_all(
            old(diag)@.inner,
            plain_errors(
                registry.scopes(),
                table_views(roots@),
                written@,
            ),
        ),
{
    let ghost scopes = registry.scopes();
    let ghost root_views = table_views(roots@);
    let ghost e = written@;
    let ghost start = diag@.inner;
    let found = registry.lookup(written.base.as_str());
    let base_type = match found {
        Type::Builtin(_) => found,
        Type::Component(_) => found,
        _ => {
            diag.push_error(message("Unknown type ", written.base.as_str()), written.span);
            Type::Invalid
        },
    };
    proof {
        lemma_with_all_empty(start);
        if !is_element_type(looked_up(scopes, e.base)) {
            lemma_with_all_push(start, Seq::empty(), error_at("Unknown type "@ + e.base, e.span));
            assert(Seq::<DiagnosticView>::empty().push(
                error_at("Unknown type "@ + e.base, e.span),
            ) =~= base_errors(scopes, e));
        }
    }
    assert(base_type == base_of(scopes, e));
    assert(diag@.inner == with_all(start, base_errors(scopes, e)));
    let ghost after_base = diag@.inner;
    let mut table: Vec<PropertyDeclaration> = match base_type {
        Type::Builtin(kind) => builtin_properties(kind),
        Type::Component(c) => {
            if c < roots.len() {
                clone_table(&roots[c])
            } else {
                Vec::new()
            }
        },
        _ => Vec::new(),
    };
    assert(views(table@) =~= root_table(root_views, base_type));
    let mut declarations: Vec<PropertyDeclaration> = Vec::new();
    let mut d: usize = 0;
    proof {
        lemma_with_all_empty(after_base);
        assert(views(declarations@) =~= declarations_of(scopes, e.declarations, 0));
        assert(views(table@) =~= root_table(root_views, base_type) + declarations_of(
            scopes,
            e.declarations,
            0,
        ));
    }
    while d < written.declarations.len()
        invariant
            scopes == registry.scopes(),
            e == written@,
            d <= written.declarations.len(),
            views(declarations@) == declarations_of(scopes, e.declarations, d as int),
            views(table@) == root_table(root_views, base_type) + declarations_of(
                scopes,
                e.declarations,
                d as int,
            ),
            diag@.current_path == old(diag)@.current_path,
            diag@.inner == with_all(after_base, declaration_errors(scopes, e.declarations, d as int)),
        decreases written.declarations.len() - d,
    {
        let item = &written.declarations[d];
        assert(e.declarations[d as int] == item@);
        let found = registry.lookup(item.declared_type.as_str());
        let property_type = if property_type(found) {
            found
        } else {
            proof {
                lemma_with_all_push(
                    after_base,
                    declaration_errors(scopes, e.declarations, d as int),
                    error_at("Unknown property type "@ + item@.declared_type, item@.span),
                );
            }
            diag.push_error(
                message("Unknown property type ", item.declared_type.as_str()),
                item.span,
            );
            Type::Invalid
        };
        let ghost table_before = views(table@);
        declarations.push(PropertyDeclaration { name: item.name.clone(), property_type });
        table.push(PropertyDeclaration { name: item.name.clone(), property_type });
        proof {
            let added = declared(scopes, item@);
            let before = declarations_of(scopes, e.declarations, d as int);
            assert(views(declarations@) =~= declarations_of(scopes, e.declarations, d + 1));
            assert(views(table@) =~= table_before.push(added));
            assert((root_table(root_views, base_type) + before).push(added) =~= root_table(
                root_views,
                base_type,
            ) + before.push(added));
        }
        d += 1;
    }
    let ghost after_declarations = diag@.inner;
    let ghost full = views(table@);
    let mut bindings: Vec<Binding> = Vec::new();
    let mut b: usize = 0;
    proof {
        lemma_with_all_empty(after_declarations);
        assert(views(bindings@) =~= bindings_of(full, e.bindings, 0));
    }
    while b < written.bindings.len()
        invariant
            e == written@,
            full == views(table@),
            b <= written.bindings.len(),
            views(bindings@) == bindings_of(full, e.bindings, b as int),
            diag@.current_path == old(diag)@.current_path,
            diag@.inner == with_all(after_declarations, binding_errors(full, e.bindings, b as int)),
        decreases written.bindings.len() - b,
    {
        let item = &written.bindings[b];
        assert(e.bindings[b as int] == item@);
        match find_declaration(&table, item.name.as_str()) {
            Some(p) => {
                bindings.push(
                    Binding {
                        property: p,
                        expression: clone_expression(&item.expression),
                        animation: item.animation,
                        span: item.span,
                    },
                );
            },
            None => {
                proof {
                    lemma_with_all_push(
                        after_declarations,
                        binding_errors(full, e.bindings, b as int),
                        error_at("Unknown property "@ + item@.name, item@.span),
                    );
                }
                diag.push_error(message("Unknown property ", item.name.as_str()), item.span);
            },
        }
        assert(views(bindings@) =~= bindings_of(full, e.bindings, b + 1));
        b += 1;
    }
    proof {
        let de = declaration_errors(scopes, e.declarations, e.declarations.len() as int);
        let be = binding_errors(full, e.bindings, e.bindings.len() as int);
        lemma_with_all_concat(start, base_errors(scopes, e), de);
        lemma_with_all_concat(start, base_errors(scopes, e) + de, be);
    }
    let parent = match written.parent {
        Some(p) => if p < i {
            Some(p)
        } else {
            None
        },
        None => None,
    };
    let repeated = match &written.repeated {
        Some(model) => Some(clone_expression(model)),
        None => None,
    };
    let element = Element {
        id: written.id.clone(),
        base_type,
        parent,
        declarations,
        bindings,
        repeated,
        states: Vec::new(),
        transitions: Vec::new(),
        unique_id: 0,
        span: written.span,
    };
    proof {
        assert(views(element.states@) =~= Seq::<StateView>::empty());
        assert(views(element.transitions@) =~= Seq::<TransitionView>::empty());
    }
    (element, table)
}

/// The element that a written name stands for in element `i`: the element
/// itself for the empty name, the first element of that id otherwise.
pub open spec fn target_of(ids: Seq<Seq<char>>, i: int, name: Seq<char>) -> Option<int> {
    if name.len() == 0 {
        Some(i)
    } else {
        position_of(ids, name)
    }
}

/// The property that a written element and property name stand for.
pub open spec fn property_of(
    ids: Seq<Seq<char>>,
    tables: Seq<Seq<DeclarationView>>,
    i: int,
    element: Seq<char>,
    property: Seq<char>,
) -> Option<(int, int)> {
    match target_of(ids, i, element) {
        Some(t) => if 0 <= t < tables.len() {
            match declared_at(tables[t], property) {
                Some(p) => Some((t, p)),
                None => None,
            }
        } else {
            None
        },
        None => None,
    }
}

/// What is wrong with a written element and property name, if anything.
pub open spec fn property_error(
    ids: Seq<Seq<char>>,
    tables: Seq<Seq<DeclarationView>>,
    i: int,
    element: Seq<char>,
    property: Seq<char>,
    span: Span,
) -> Option<DiagnosticView> {
    match target_of(ids, i, element) {
        Some(t) => if 0 <= t < tables.len() {
            match declared_at(tables[t], property) {
                Some(p) => None,
                None => Some(error_at("Unknown property "@ + property, span)),
            }
        } else {
            Some(error_at("Unknown element "@ + element, span))
        },
        None => Some(error_at("Unknown element "@ + element, span)),
    }
}

/// Looks up a written element and property name.
fn find_property(
    ids: &Vec<String>,
    tables: &Vec<Vec<PropertyDeclaration>>,
    i: usize,
    element: &str,
    property: &str,
    span: Span,
    diag: &mut FileDiagnostics,
    Ghost(start): Ghost<Seq<DiagnosticView>>,
    Ghost(errors): Ghost<Seq<DiagnosticView>>,
) -> (found: Option<(usize, usize)>)
    requires
        old(diag)@.inner == with_all(start, errors),
    ensures
        match found {
            Some((t, p)) => property_of(views(ids@), table_views(tables@), i as int, element@, property@)
                == Some((t as int, p as int)),
            None => property_of(views(ids@), table_views(tables@), i as int, element@, property@)
                .is_none(),
        },
        final(diag)@.current_path == old(diag)@.current_path,
        final(diag)@.inner == with_all(
            start,
            match property_error(
                views(ids@),
                table_views(tables@),
                i as int,
                element@,
                property@,
                span,
            ) {
                Some(e) => errors.push(e),
                None => errors,
            },
        ),
        (found is None) == (property_error(
            views(ids@),
            table_views(tables@),
            i as int,
            element@,
            property@,
            span,
        ) is Some),
{
    let target = if element.is_empty() {
        Some(i)
    } else {
        find_name(ids, element)
    };
    match target {
        Some(t) => {
            if t < tables.len() {
                match find_declaration(&tables[t], property) {
                    Some(p) => Some((t, p)),
                    None => {
                        proof {
                            lemma_with_all_push(
                                start,
                                errors,
                                error_at("Unknown property "@ + property@, span),
                            );
                        }
                        diag.push_error(message("Unknown property ", property), span);
                        None
                    },
                }
            } else {
                proof {
                    lemma_with_all_push(start, errors, error_at("Unknown element "@ + element@, span));
                }
                diag.push_error(message("Unknown element ", element), span);
                None
            }
        },
        None => {
            proof {
                lemma_with_all_push(start, errors, error_at("Unknown element "@ + element@, span));
            }
            diag.push_error(message("Unknown element ", element), span);
            None
        },
    }
}

/// The changes that the first `n` written changes stand for.
pub open spec fn changes_of(
    ids: Seq<Seq<char>>,
    tables: Seq<Seq<DeclarationView>>,
    i: int,
    written: Seq<SyntaxPropertyChangeView>,
    n: int,
) -> Seq<PropertyChangeView>
    decreases n,
{
    if n <= 0 {
        Seq::empty()
    } else {
        match property_of(ids, tables, i, written[n - 1].element, written[n - 1].property) {
            Some((t, p)) => changes_of(ids, tables, i, written, n - 1).push(
                PropertyChangeView {
                    element: t as usize,
                    property: p as usize,
                    expression: written[n - 1].expression,
                },
            ),
            None => changes_of(ids, tables, i, written, n - 1),
        }
    }
}

/// What is wrong with the first `n` written changes.
pub open spec fn change_errors(
    ids: Seq<Seq<char>>,
    tables: Seq<Seq<DeclarationView>>,
    i: int,
    written: Seq<SyntaxPropertyChangeView>,
    n: int,
) -> Seq<DiagnosticView>
    decreases n,
{
    if n <= 0 {
        Seq::empty()
    } else {
        match property_error(
            ids,
            tables,
            i,
            written[n - 1].element,
            written[n - 1].property,
            written[n - 1].span,
        ) {
            Some(e) => change_errors(ids, tables, i, written, n - 1).push(e),
            None => change_errors(ids, tables, i, written, n - 1),
        }
    }
}

/// The states that the first `n` written states stand for.
pub open spec fn states_of(
    ids: Seq<Seq<char>>,
    tables: Seq<Seq<DeclarationView>>,
    i: int,
    written: Seq<SyntaxStateView>,
    n: int,
) -> Seq<StateView>
    decreases n,
{
    if n <= 0 {
        Seq::empty()
    } else {
        states_of(ids, tables, i, written, n - 1).push(
            StateView {
                id: written[n - 1].id,
                condition: written[n - 1].condition,
                changes: changes_of(
                    ids,
                    tables,
                    i,
                    written[n - 1].changes,
                    written[n - 1].changes.len() as int,
                ),
            },
        )
    }
}

/// What is wrong with the first `n` written states.
pub open spec fn state_errors(
    ids: Seq<Seq<char>>,
    tables: Seq<Seq<DeclarationView>>,
    i: int,
    written: Seq<SyntaxStateView>,
    n: int,
) -> Seq<DiagnosticView>
    decreases n,
{
    if n <= 0 {
        Seq::empty()
    } else {
        state_errors(ids, tables, i, written, n - 1) + change_errors(
            ids,
            tables,
            i,
            written[n - 1].changes,
            written[n - 1].changes.len() as int,
        )
    }
}

/// The animations that the first `n` written animations of a transition
/// stand for.
pub open spec fn animations_of(
    ids: Seq<Seq<char>>,
    tables: Seq<Seq<DeclarationView>>,
    i: int,
    written: Seq<SyntaxTransitionAnimationView>,
    n: int,
) -> Seq<TransitionAnimation>
    decreases n,
{
    if n <= 0 {
        Seq::empty()
    } else {
        match property_of(ids, tables, i, written[n - 1].element, written[n - 1].property) {
            Some((t, p)) => animations_of(ids, tables, i, written, n - 1).push(
                TransitionAnimation {
                    element: t as usize,
                    property: p as usize,
                    animation: written[n - 1].animation,
                },
            ),
            None => animations_of(ids, tables, i, written, n - 1),
        }
    }
}

/// What is wrong with the first `n` written animations of a transition.
pub open spec fn animation_errors(
    ids: Seq<Seq<char>>,
    tables: Seq<Seq<DeclarationView>>,
    i: int,
    written: Seq<SyntaxTransitionAnimationView>,
    n: int,
) -> Seq<DiagnosticView>
    decreases n,
{
    if n <= 0 {
        Seq::empty()
    } else {
        match property_error(
            ids,
            tables,
            i,
            written[n - 1].element,
            written[n - 1].property,
            written[n - 1].span,
        ) {
            Some(e) => animation_errors(ids, tables, i, written, n - 1).push(e),
            None => animation_errors(ids, tables, i, written, n - 1),
        }
    }
}

/// The ids of the first `n` written states.
pub open spec fn state_ids(written: Seq<SyntaxStateView>) -> Seq<Seq<char>> {
    Seq::new(written.len(), |k: int| written[k].id)
}

/// The transitions that the first `n` written transitions stand for: those
/// into a state that the element has.
pub open spec fn transitions_of(
    ids: Seq<Seq<char>>,
    tables: Seq<Seq<DeclarationView>>,
    i: int,
    states: Seq<Seq<char>>,
    written: Seq<SyntaxTransitionView>,
    n: int,
) -> Seq<TransitionView>
    decreases n,
{
    if n <= 0 {
        Seq::empty()
    } else {
        match position_of(states, written[n - 1].state) {
            Some(s) => transitions_of(ids, tables, i, states, written, n - 1).push(
                TransitionView {
                    state: s as usize,
                    animations: animations_of(
                        ids,
                        tables,
                        i,
                        written[n - 1].animations,
                        written[n - 1].animations.len() as int,
                    ),
                },
            ),
            None => transitions_of(ids, tables, i, states, written, n - 1),
        }
    }
}

/// What is wrong with the first `n` written transitions.
pub open spec fn transition_errors(
    ids: Seq<Seq<char>>,
    tables: Seq<Seq<DeclarationView>>,
    i: int,
    states: Seq<Seq<char>>,
    written: Seq<SyntaxTransitionView>,
    n: int,
) -> Seq<DiagnosticView>
    decreases n,
{
    if n <= 0 {
        Seq::empty()
    } else {
        match position_of(states, written[n - 1].state) {
            Some(s) => transition_errors(ids, tables, i, states, written, n - 1)
                + animation_errors(
                ids,
                tables,
                i,
                written[n - 1].animations,
                written[n - 1].animations.len() as int,
            ),
            None => transition_errors(ids, tables, i, states, written, n - 1).push(
                error_at("Unknown state "@ + written[n - 1].state, written[n - 1].span),
            ),
        }
    }
}

/// The changes that the written changes of a state stand for.
fn lower_changes(
    written: &Vec<SyntaxPropertyChange>,
    ids: &Vec<String>,
    tables: &Vec<Vec<PropertyDeclaration>>,
    i: usize,
    diag: &mut FileDiagnostics,
) -> (changes: Vec<PropertyChange>)
    ensures
        views(changes@) == changes_of(
            views(ids@),
            table_views(tables@),
            i as int,
            views(written@),
            written@.len() as int,
        ),
        final(diag)@.current_path == old(diag)@.current_path,
        final(diag)@.inner == with_all(
            old(diag)@.inner,
            change_errors(
                views(ids@),
                table_views(tables@),
                i as int,
                views(written@),
                written@.len() as int,
            ),
        ),
{
    let ghost start = diag@.inner;
    let ghost names = views(ids@);
    let ghost all = table_views(tables@);
    let ghost source = views(written@);
    let mut changes: Vec<PropertyChange> = Vec::new();
    let mut k: usize = 0;
    proof {
        lemma_with_all_empty(start);
        assert(views(changes@) =~= changes_of(names, all, i as int, source, 0));
    }
    while k < written.len()
        invariant
            names == views(ids@),
            all == table_views(tables@),
            source == views(written@),
            k <= written.len(),
            views(changes@) == changes_of(names, all, i as int, source, k as int),
            diag@.current_path == old(diag)@.current_path,
            diag@.inner == with_all(start, change_errors(names, all, i as int, source, k as int)),
        decreases written.len() - k,
    {
        let item = &written[k];
        assert(source[k as int] == item@);
        let found = find_property(
            ids,
            tables,
            i,
            item.element.as_str(),
            item.property.as_str(),
            item.span,
            diag,
            Ghost(start),
            Ghost(change_errors(names, all, i as int, source, k as int)),
        );
        match found {
            Some((t, p)) => {
                changes.push(
                    PropertyChange {
                        element: t,
                        property: p,
                        expression: clone_expression(&item.expression),
                    },
                );
            },
            None => {},
        }
        assert(views(changes@) =~= changes_of(names, all, i as int, source, k + 1));
        k += 1;
    }
    changes
}

/// The states that the written states of an element stand for.
fn lower_states(
    written: &Vec<SyntaxState>,
    ids: &Vec<String>,
    tables: &Vec<Vec<PropertyDeclaration>>,
    i: usize,
    diag: &mut FileDiagnostics,
) -> (states: Vec<State>)
    ensures
        views(states@) == states_of(
            views(ids@),
            table_views(tables@),
            i as int,
            views(written@),
            written@.len() as int,
        ),
        final(diag)@.current_path == old(diag)@.current_path,
        final(diag)@.inner == with_all(
            old(diag)@.inner,
            state_errors(
                views(ids@),
                table_views(tables@),
                i as int,
                views(written@),
                written@.len() as int,
            ),
        ),
{
    let ghost start = diag@.inner;
    let ghost names = views(ids@);
    let ghost all = table_views(tables@);
    let ghost source = views(written@);
    let mut states: Vec<State> = Vec::new();
    let mut k: usize = 0;
    proof {
        lemma_with_all_empty(start);
        assert(views(states@) =~= states_of(names, all, i as int, source, 0));
    }
    while k < written.len()
        invariant
            names == views(ids@),
            all == table_views(tables@),
            source == views(written@),
            k <= written.len(),
            views(states@) == states_of(names, all, i as int, source, k as int),
            diag@.current_path == old(diag)@.current_path,
            diag@.inner == with_all(start, state_errors(names, all, i as int, source, k as int)),
        decreases written.len() - k,
    {
        let item = &written[k];
        assert(source[k as int] == item@);
        let changes = lower_changes(&item.changes, ids, tables, i, diag);
        proof {
            lemma_with_all_concat(
                start,
                state_errors(names, all, i as int, source, k as int),
                change_errors(
                    names,
                    all,
                    i as int,
                    item@.changes,
                    item@.changes.len() as int,
                ),
            );
        }
        states.push(
            State { id: item.id.clone(), condition: clone_expression(&item.condition), changes },
        );
        assert(views(states@) =~= states_of(names, all, i as int, source, k + 1));
        k += 1;
    }
    states
}

/// The animations that the written animations of a transition stand for.
fn lower_animations(
    written: &Vec<SyntaxTransitionAnimation>,
    ids: &Vec<String>,
    tables: &Vec<Vec<PropertyDeclaration>>,
    i: usize,
    diag: &mut FileDiagnostics,
) -> (animations: Vec<TransitionAnimation>)
    ensures
        animations@ == animations_of(
            views(ids@),
            table_views(tables@),
            i as int,
            views(written@),
            written@.len() as int,
        ),
        final(diag)@.current_path == old(diag)@.current_path,
        final(diag)@.inner == with_all(
            old(diag)@.inner,
            animation_errors(
                views(ids@),
                table_views(tables@),
                i as int,
                views(written@),
                written@.len() as int,
            ),
        ),
{
    let ghost start = diag@.inner;
    let ghost names = views(ids@);
    let ghost all = table_views(tables@);
    let ghost source = views(written@);
    let mut animations: Vec<TransitionAnimation> = Vec::new();
    let mut k: usize = 0;
    proof {
        lemma_with_all_empty(start);
        assert(animations@ =~= animations_of(names, all, i as int, source, 0));
    }
    while k < written.len()
        invariant
            names == views(ids@),
            all == table_views(tables@),
            source == views(written@),
            k <= written.len(),
            animations@ == animations_of(names, all, i as int, source, k as int),
            diag@.current_path == old(diag)@.current_path,
            diag@.inner == with_all(start, animation_errors(names, all, i as int, source, k as int)),
        decreases written.len() - k,
    {
        let item = &written[k];
        assert(source[k as int] == item@);
        let found = find_property(
            ids,
            tables,
            i,
            item.element.as_str(),
            item.property.as_str(),
            item.span,
            diag,
            Ghost(start),
            Ghost(animation_errors(names, all, i as int, source, k as int)),
        );
        match found {
            Some((t, p)) => {
                animations.push(
                    TransitionAnimation { element: t, property: p, animation: item.animation },
                );
            },
            None => {},
        }
        k += 1;
    }
    animations
}

/// The transitions that the written transitions of an element stand for.
fn lower_transitions(
    written: &Vec<SyntaxTransition>,
    state_names: &Vec<String>,
    ids: &Vec<String>,
    tables: &Vec<Vec<PropertyDeclaration>>,
    i: usize,
    diag: &mut FileDiagnostics,
) -> (transitions: Vec<Transition>)
    ensures
        views(transitions@) == transitions_of(
            views(ids@),
            table_views(tables@),
            i as int,
            views(state_names@),
            views(written@),
            written@.len() as int,
        ),
        final(diag)@.current_path == old(diag)@.current_path,
        final(diag)@.inner == with_all(
            old(diag)@.inner,
            transition_errors(
                views(ids@),
                table_views(tables@),
                i as int,
                views(state_names@),
                views(written@),
                written@.len() as int,
            ),
        ),
{
    let ghost start = diag@.inner;
    let ghost names = views(ids@);
    let ghost all = table_views(tables@);
    let ghost states = views(state_names@);
    let ghost source = views(written@);
    let mut transitions: Vec<Transition> = Vec::new();
    let mut k: usize = 0;
    proof {
        lemma_with_all_empty(start);
        assert(views(transitions@) =~= transitions_of(names, all, i as int, states, source, 0));
    }
    while k < written.len()
        invariant
            names == views(ids@),
            all == table_views(tables@),
            states == views(state_names@),
            source == views(written@),
            k <= written.len(),
            views(transitions@) == transitions_of(names, all, i as int, states, source, k as int),
            diag@.current_path == old(diag)@.current_path,
            diag@.inner == with_all(
                start,
                transition_errors(names, all, i as int, states, source, k as int),
            ),
        decreases written.len() - k,
    {
        let item = &written[k];
        assert(source[k as int] == item@);
        match find_name(state_names, item.state.as_str()) {
            Some(state) => {
                let animations = lower_animations(&item.animations, ids, tables, i, diag);
                proof {
                    lemma_with_all_concat(
                        start,
                        transition_errors(names, all, i as int, states, source, k as int),
                        animation_errors(
                            names,
                            all,
                            i as int,
                            item@.animations,
                            item@.animations.len() as int,
                        ),
                    );
                }
                transitions.push(Transition { state, animations });
            },
            None => {
                proof {
                    lemma_with_all_push(
                        start,
                        transition_errors(names, all, i as int, states, source, k as int),
                        error_at("Unknown state "@ + item@.state, item@.span),
                    );
                }
                diag.push_error(message("Unknown state ", item.state.as_str()), item.span);
            },
        }
        assert(views(transitions@) =~= transitions_of(
            names,
            all,
            i as int,
            states,
            source,
            k + 1,
        ));
        k += 1;
    }
    transitions
}

/// The elements that the first `n` written elements stand for, without
/// their states and transitions.
pub open spec fn plain_elements(
    scopes: Seq<Seq<(Seq<char>, Type)>>,
    roots: Seq<Seq<DeclarationView>>,
    c: SyntaxComponentView,
    n: int,
) -> Seq<ElementView>
    decreases n,
{
    if n <= 0 {
        Seq::empty()
    } else {
        plain_elements(scopes, roots, c, n - 1).push(
            plain_element(scopes, roots, c.elements[n - 1], n - 1),
        )
    }
}

/// What is wrong with the first `n` written elements, their states and
/// transitions apart.
pub open spec fn plain_errors_of(
    scopes: Seq<Seq<(Seq<char>, Type)>>,
    roots: Seq<Seq<DeclarationView>>,
    c: SyntaxComponentView,
    n: int,
) -> Seq<DiagnosticView>
    decreases n,
{
    if n <= 0 {
        Seq::empty()
    } else {
        plain_errors_of(scopes, roots, c, n - 1) + plain_errors(scopes, roots, c.elements[n - 1])
    }
}

/// The ids of the written elements.
pub open spec fn element_ids(c: SyntaxComponentView) -> Seq<Seq<char>> {
    Seq::new(c.elements.len(), |i: int| c.elements[i].id)
}

/// The tables of the elements.
pub open spec fn element_tables(roots: Seq<Seq<DeclarationView>>, plain: Seq<ElementView>) -> Seq<
    Seq<DeclarationView>,
> {
    Seq::new(
        plain.len(),
        |i: int| table_of(roots, plain[i].base_type, plain[i].declarations),
    )
}

/// An element with the states and transitions that are written for it.
pub open spec fn finished_element(
    ids: Seq<Seq<char>>,
    tables: Seq<Seq<DeclarationView>>,
    plain: ElementView,
    e: SyntaxElementView,
    i: int,
) -> ElementView {
    ElementView {
        states: states_of(ids, tables, i, e.states, e.states.len() as int),
        transitions: transitions_of(
            ids,
            tables,
            i,
            state_ids(e.states),
            e.transitions,
            e.transitions.len() as int,
        ),
        ..plain
    }
}

/// What is wrong with the states and transitions of the first `n` written
/// elements.
pub open spec fn finish_errors(
    ids: Seq<Seq<char>>,
    tables: Seq<Seq<DeclarationView>>,
    c: SyntaxComponentView,
    n: int,
) -> Seq<DiagnosticView>
    decreases n,
{
    if n <= 0 {
        Seq::empty()
    } else {
        finish_errors(ids, tables, c, n - 1) + state_errors(
            ids,
            tables,
            n - 1,
            c.elements[n - 1].states,
            c.elements[n - 1].states.len() as int,
        ) + transition_errors(
            ids,
            tables,
            n - 1,
            state_ids(c.elements[n - 1].states),
            c.elements[n - 1].transitions,
            c.elements[n - 1].transitions.len() as int,
        )
    }
}

/// The component that a written component stands for.
pub open spec fn lowered_component(
    scopes: Seq<Seq<(Seq<char>, Type)>>,
    roots: Seq<Seq<DeclarationView>>,
    c: SyntaxComponentView,
) -> ComponentView {
    let plain = plain_elements(scopes, roots, c, c.elements.len() as int);
    ComponentView {
        id: c.id,
        elements: Seq::new(
            c.elements.len(),
            |i: int|
                finished_element(
                    element_ids(c),
                    element_tables(roots, plain),
                    plain[i],
                    c.elements[i],
                    i,
                ),
        ),
        repeaters: Seq::empty(),
    }
}

/// What is wrong with a written component.
pub open spec fn component_errors(
    scopes: Seq<Seq<(Seq<char>, Type)>>,
    roots: Seq<Seq<DeclarationView>>,
    c: SyntaxComponentView,
) -> Seq<DiagnosticView> {
    let plain = plain_elements(scopes, roots, c, c.elements.len() as int);
    plain_errors_of(scopes, roots, c, c.elements.len() as int) + finish_errors(
        element_ids(c),
        element_tables(roots, plain),
        c,
        c.elements.len() as int,
    )
}

/// The table of the root of a component.
pub open spec fn root_of(roots: Seq<Seq<DeclarationView>>, component: ComponentView) -> Seq<
    DeclarationView,
> {
    if component.elements.len() > 0 {
        table_of(roots, component.elements[0].base_type, component.elements[0].declarations)
    } else {
        Seq::empty()
    }
}

/// The names of the first `k` written components, each for the component at
/// its position.
pub open spec fn component_scope(written: Seq<SyntaxComponentView>, k: int) -> Seq<(Seq<char>, Type)> {
    Seq::new(k as nat, |c: int| (written[c].id, Type::Component(c as usize)))
}

/// What lowering the first components of a file comes to.
pub ghost struct Lowered {
    pub components: Seq<ComponentView>,
    pub roots: Seq<Seq<DeclarationView>>,
    pub errors: Seq<DiagnosticView>,
}

/// What lowering the first `n` written components comes to. A component
/// sees the names of `base` and the components before it.
pub open spec fn lowered(
    base: Seq<Seq<(Seq<char>, Type)>>,
    written: Seq<SyntaxComponentView>,
    n: int,
) -> Lowered
    decreases n,
{
    if n <= 0 {
        Lowered { components: Seq::empty(), roots: Seq::empty(), errors: Seq::empty() }
    } else {
        let before = lowered(base, written, n - 1);
        let scopes = base.push(component_scope(written, n - 1));
        let component = lowered_component(scopes, before.roots, written[n - 1]);
        Lowered {
            components: before.components.push(component),
            roots: before.roots.push(root_of(before.roots, component)),
            errors: before.errors + component_errors(scopes, before.roots, written[n - 1]),
        }
    }
}

/// The component that a written component stands for, and the table of its
/// root.
fn lower_component(
    written: &SyntaxComponent,
    registry: &TypeRegister,
    roots: &Vec<Vec<PropertyDeclaration>>,
    diag: &mut FileDiagnostics,
) -> (out: (Component, Vec<PropertyDeclaration>))
    ensures
        out.0@ == lowered_component(registry.scopes(), table_views(roots@), written@),
        views(out.1@) == root_of(table_views(roots@), out.0@),
        final(diag)@.current_path == old(diag)@.current_path,
        final(diag)@.inner == with_all(
            old(diag)@.inner,
            component_errors(registry.scopes(), table_views(roots@), written@),
        ),
{
    let ghost scopes = registry.scopes();
    let ghost root_views = table_views(roots@);
    let ghost c = written@;
    let ghost start = diag@.inner;
    let mut elements: Vec<Element> = Vec::new();
    let mut tables: Vec<Vec<PropertyDeclaration>> = Vec::new();
    let mut ids: Vec<String> = Vec::new();
    let mut i: usize = 0;
    proof {
        lemma_with_all_empty(start);
        assert(views(elements@) =~= plain_elements(scopes, root_views, c, 0));
    }
    while i < written.elements.len()
        invariant
            scopes == registry.scopes(),
            root_views == table_views(roots@),
            c == written@,
            i <= written.elements.len(),
            elements@.len() == i,
            tables@.len() == i,
            ids@.len() == i,
            views(elements@) == plain_elements(scopes, root_views, c, i as int),
            forall|k: int|
                0 <= k < i ==> views(#[trigger] tables@[k]@) == table_of(
                    root_views,
                    elements@[k]@.base_type,
                    elements@[k]@.declarations,
                ),
            forall|k: int| 0 <= k < i ==> (#[trigger] ids@[k])@ == c.elements[k].id,
            diag@.current_path == old(diag)@.current_path,
            diag@.inner == with_all(start, plain_errors_of(scopes, root_views, c, i as int)),
        decreases written.elements.len() - i,
    {
        let item = &written.elements[i];
        assert(c.elements[i as int] == item@);
        let (element, table) = lower_element(item, i, registry, roots, diag);
        proof {
            lemma_with_all_concat(
                start,
                plain_errors_of(scopes, root_views, c, i as int),
                plain_errors(scopes, root_views, item@),
            );
        }
        elements.push(element);
        tables.push(table);
        ids.push(item.id.clone());
        assert(views(elements@) =~= plain_elements(scopes, root_views, c, i + 1));
        i += 1;
    }
    let ghost plain = plain_elements(scopes, root_views, c, c.elements.len() as int);
    let ghost names = element_ids(c);
    let ghost all = element_tables(root_views, plain);
    proof {
        assert(views(ids@) =~= names);
        assert(table_views(tables@) =~= all) by {
            assert forall|k: int| 0 <= k < tables@.len() implies table_views(tables@)[k]
                == all[k] by {
                assert(views(elements@)[k] == elements@[k]@);
            }
        }
    }
    let ghost after_plain = diag@.inner;
    let mut n: usize = 0;
    proof {
        lemma_with_all_empty(after_plain);
    }
    while n < elements.len()
        invariant
            c == written@,
            names == views(ids@),
            all == table_views(tables@),
            elements@.len() == written.elements.len(),
            plain.len() == elements@.len(),
            n <= elements.len(),
            forall|k: int|
                0 <= k < n ==> (#[trigger] elements@[k])@ == finished_element(
                    names,
                    all,
                    plain[k],
                    c.elements[k],
                    k,
                ),
            forall|k: int| n <= k < elements@.len() ==> (#[trigger] elements@[k])@ == plain[k],
            diag@.current_path == old(diag)@.current_path,
            diag@.inner == with_all(after_plain, finish_errors(names, all, c, n as int)),
        decreases elements.len() - n,
    {
        let item = &written.elements[n];
        assert(c.elements[n as int] == item@);
        let ghost before_states = diag@.inner;
        let states = lower_states(&item.states, &ids, &tables, n, diag);
        let mut state_names: Vec<String> = Vec::new();
        let mut k: usize = 0;
        while k < item.states.len()
            invariant
                k <= item.states.len(),
                state_names@.len() == k,
                forall|q: int| 0 <= q < k ==> (#[trigger] state_names@[q])@ == item.states@[q].id@,
            decreases item.states.len() - k,
        {
            state_names.push(item.states[k].id.clone());
            k += 1;
        }
        assert(views(state_names@) =~= state_ids(item@.states));
        let transitions = lower_transitions(&item.transitions, &state_names, &ids, &tables, n, diag);
        proof {
            let se = state_errors(names, all, n as int, item@.states, item@.states.len() as int);
            let te = transition_errors(
                names,
                all,
                n as int,
                state_ids(item@.states),
                item@.transitions,
                item@.transitions.len() as int,
            );
            lemma_with_all_concat(after_plain, finish_errors(names, all, c, n as int), se);
            lemma_with_all_concat(after_plain, finish_errors(names, all, c, n as int) + se, te);
        }
        let ghost before = elements@;
        elements[n].states = states;
        elements[n].transitions = transitions;
        proof {
            assert forall|k: int| 0 <= k < n + 1 implies (#[trigger] elements@[k])@
                == finished_element(names, all, plain[k], c.elements[k], k) by {
                if k < n {
                    assert(elements@[k] == before[k]);
                } else {
                    assert(before[k]@ == plain[k]);
                }
            }
            assert forall|k: int| n + 1 <= k < elements@.len() implies (#[trigger] elements@[k])@
                == plain[k] by {
                assert(elements@[k] == before[k]);
            }
        }
        n += 1;
    }
    proof {
        lemma_with_all_concat(
            start,
            plain_errors_of(scopes, root_views, c, c.elements.len() as int),
            finish_errors(names, all, c, c.elements.len() as int),
        );
    }
    let root: Vec<PropertyDeclaration> = if tables.len() > 0 {
        clone_table(&tables[0])
    } else {
        Vec::new()
    };
    let component = Component { id: written.id.clone(), elements, repeaters: Vec::new() };
    proof {
        assert(component@.elements =~= lowered_component(scopes, root_views, c).elements);
        assert(component@.repeaters =~= Seq::empty());
        if tables@.len() > 0 {
            assert(table_views(tables@)[0] == views(tables@[0]@));
            assert(plain[0].base_type == component@.elements[0].base_type);
        } else {
            assert(views(root@) =~= Seq::<DeclarationView>::empty());
        }
    }
    (component, root)
}

impl Document {
    /// Makes the document of a list of components: those that a file uses
    /// from elsewhere, followed by its own. The names of `registry` and,
    /// for each component, the components before it in the list can be
    /// used as types. The last component is the root. Whatever a name does
    /// not resolve to is reported in `diag`.
    pub fn from_components(
        node: &Vec<&SyntaxComponent>,
        diag: &mut FileDiagnostics,
        registry: &TypeRegister,
    ) -> (doc: Document)
        ensures
            doc@.components == lowered(registry.scopes(), views(node@), views(node@).len() as int).components,
            doc@.root_component == if views(node@).len() > 0 {
                (views(node@).len() - 1) as usize
            } else {
                0usize
            },
            doc@.embedded_resources == Seq::<Seq<char>>::empty(),
            doc@.path == old(diag)@.current_path,
            final(diag)@.current_path == old(diag)@.current_path,
            final(diag)@.inner == with_all(
                old(diag)@.inner,
                lowered(registry.scopes(), views(node@), views(node@).len() as int).errors,
            ),
    {
        let ghost base = registry.scopes();
        let ghost written = views(node@);
        let ghost start = diag@.inner;
        let mut local = TypeRegister::new(registry);
        let mut components: Vec<Component> = Vec::new();
        let mut roots: Vec<Vec<PropertyDeclaration>> = Vec::new();
        let mut k: usize = 0;
        proof {
            lemma_with_all_empty(start);
            assert(views(components@) =~= lowered(base, written, 0).components);
            assert(table_views(roots@) =~= lowered(base, written, 0).roots);
            assert(component_scope(written, 0) =~= Seq::<(Seq<char>, Type)>::empty());
        }
        while k < node.len()
            invariant
                base == registry.scopes(),
                written == views(node@),
                k <= node.len(),
                views(components@) == lowered(base, written, k as int).components,
                table_views(roots@) == lowered(base, written, k as int).roots,
                local.scopes() == base.push(component_scope(written, k as int)),
                diag@.current_path == old(diag)@.current_path,
                diag@.inner == with_all(start, lowered(base, written, k as int).errors),
            decreases node.len() - k,
        {
            let item = node[k];
            assert(written[k as int] == item@);
            let ghost before = lowered(base, written, k as int);
            let (component, root) = lower_component(item, &local, &roots, diag);
            proof {
                lemma_with_all_concat(
                    start,
                    before.errors,
                    component_errors(local.scopes(), before.roots, item@),
                );
            }
            let ghost component_view = component@;
            components.push(component);
            roots.push(root);
            local.add(item.id.clone(), Type::Component(k));
            proof {
                assert(views(components@) =~= before.components.push(component_view));
                assert(table_views(roots@) =~= before.roots.push(
                    root_of(before.roots, component_view),
                ));
                assert(local.scopes() =~= base.push(component_scope(written, k + 1))) by {
                    assert(component_scope(written, k as int).push(
                        (item@.id, Type::Component(k)),
                    ) =~= component_scope(written, k + 1));
                }
            }
            k += 1;
        }
        let root_component = if node.len() > 0 {
            node.len() - 1
        } else {
            0
        };
        let doc = Document {
            components,
            root_component,
            embedded_resources: Vec::new(),
            path: diag.current_path.clone(),
        };
        assert(doc@.embedded_resources =~= Seq::<Seq<char>>::empty());
        doc
    }

    /// Makes the document of a parsed file. The names of `registry` and,
    /// for each component, the components written before it can be used as
    /// types. Whatever a name does not resolve to is reported in `diag`.
    pub fn from_node(node: &SyntaxNode, diag: &mut FileDiagnostics, registry: &TypeRegister) -> (doc:
        Document)
        ensures
            doc@.components == lowered(registry.scopes(), node@, node@.len() as int).components,
            doc@.root_component == if node@.len() > 0 {
                (node@.len() - 1) as usize
            } else {
                0usize
            },
            doc@.embedded_resources == Seq::<Seq<char>>::empty(),
            doc@.path == old(diag)@.current_path,
            final(diag)@.current_path == old(diag)@.current_path,
            final(diag)@.inner == with_all(
                old(diag)@.inner,
                lowered(registry.scopes(), node@, node@.len() as int).errors,
            ),
    {
        let mut written: Vec<&SyntaxComponent> = Vec::new();
        let mut k: usize = 0;
        while k < node.components.len()
            invariant
                k <= node.components.len(),
                written@.len() == k,
                forall|i: int| 0 <= i < k ==> (#[trigger] written@[i])@ == node.components@[i]@,
            decreases node.components.len() - k,
        {
            written.push(&node.components[k]);
            k += 1;
        }
        assert(views(written@) =~= node@);
        Document::from_components(&written, diag, registry)
    }
}

} // verus!

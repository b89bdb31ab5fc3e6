//! Takes the repeated elements out of their components.
//!
//! A repeated element and the elements below it, as far as they are not
//! repeated themselves, become a component of their own: the template of
//! the repeater. The templates are added at the end of the document, in
//! the order of the repeated elements. The component that held the
//! elements gets one repeater for each repeated element that is directly
//! its own, with the model and the template; the places of the elements
//! that went are kept by elements without a type, so that no other element
//! changes its position.
//!
//! Inside a template an expression can refer to the elements of the
//! template only. What refers to an element outside becomes `Invalid`.
//! States are expected to be lowered before: a template has none.

use vstd::prelude::*;
use crate::expression_tree::{clone_expression, Expression};
use crate::names::views;
use crate::object_tree::{
    clone_declaration, Binding, BindingView, Component, ComponentView, Document, DocumentView,
    Element, ElementView, Repeater, RepeaterView, StateView, TransitionView,
};
use crate::typeregister::{DeclarationView, PropertyDeclaration, Type};

verus! {

/// Whether element `j` is a repeated element that is taken out: it is not
/// the root, it has a model and it has an item.
pub open spec fn is_repeated(elements: Seq<ElementView>, j: int) -> bool {
    0 < j < elements.len() && elements[j].repeated is Some && elements[j].base_type is Builtin
}

/// The repeated element whose template element `j` goes into: the element
/// itself when it is repeated, else what holds for its parent. `-1` for the
/// elements that stay in the component.
pub open spec fn owner(elements: Seq<ElementView>, j: int) -> int
    decreases j,
{
    if j <= 0 || j >= elements.len() {
        -1
    } else if is_repeated(elements, j) {
        j
    } else {
        match elements[j].parent {
            Some(p) => if p < j {
                owner(elements, p as int)
            } else {
                -1
            },
            None => -1,
        }
    }
}

/// What holds the repeater of the repeated element `j`: the owner of its
/// parent.
pub open spec fn container(elements: Seq<ElementView>, j: int) -> int {
    match elements[j].parent {
        Some(p) => if p < j {
            owner(elements, p as int)
        } else {
            -1
        },
        None => -1,
    }
}

/// The number of elements before `j` that go into the template of `i`.
pub open spec fn rank(elements: Seq<ElementView>, i: int, j: int) -> nat
    decreases j,
{
    if j <= 0 {
        0
    } else {
        rank(elements, i, j - 1) + if owner(elements, j - 1) == i {
            1nat
        } else {
            0nat
        }
    }
}

/// The number of repeated elements before `j`.
pub open spec fn repeated_before(elements: Seq<ElementView>, j: int) -> nat
    decreases j,
{
    if j <= 0 {
        0
    } else {
        repeated_before(elements, j - 1) + if is_repeated(elements, j - 1) {
            1nat
        } else {
            0nat
        }
    }
}

/// The position that element `t` has in the template of `i`, if it is in
/// that template.
pub open spec fn local(elements: Seq<ElementView>, i: int, t: int) -> Option<usize> {
    if 0 <= t < elements.len() && owner(elements, t) == i {
        Some(rank(elements, i, t) as usize)
    } else {
        None
    }
}

/// The expression as it stands in the template of `i`.
pub open spec fn extracted(elements: Seq<ElementView>, i: int, e: Expression) -> Expression
    decreases e,
{
    match e {
        Expression::PropertyReference { element, property } => match local(
            elements,
            i,
            element as int,
        ) {
            Some(n) => Expression::PropertyReference { element: n, property },
            None => Expression::Invalid,
        },
        Expression::SignalReference { element, property } => match local(
            elements,
            i,
            element as int,
        ) {
            Some(n) => Expression::SignalReference { element: n, property },
            None => Expression::Invalid,
        },
        Expression::BinaryExpression { lhs, rhs, op } => Expression::BinaryExpression {
            lhs: Box::new(extracted(elements, i, *lhs)),
            rhs: Box::new(extracted(elements, i, *rhs)),
            op,
        },
        Expression::UnaryExpression { sub, op } => Expression::UnaryExpression {
            sub: Box::new(extracted(elements, i, *sub)),
            op,
        },
        Expression::Condition { condition, true_expr, false_expr } => Expression::Condition {
            condition: Box::new(extracted(elements, i, *condition)),
            true_expr: Box::new(extracted(elements, i, *true_expr)),
            false_expr: Box::new(extracted(elements, i, *false_expr)),
        },
        _ => e,
    }
}

/// What keeps the place of an element that went into a template.
pub open spec fn placeholder(e: ElementView) -> ElementView {
    ElementView {
        base_type: Type::Invalid,
        declarations: Seq::empty(),
        bindings: Seq::empty(),
        repeated: None,
        states: Seq::empty(),
        transitions: Seq::empty(),
        ..e
    }
}

/// Element `j` as it stands in the template of `i`.
pub open spec fn template_element(elements: Seq<ElementView>, i: int, j: int) -> ElementView {
    ElementView {
        parent: if j == i {
            None
        } else {
            match elements[j].parent {
                Some(p) => local(elements, i, p as int),
                None => None,
            }
        },
        bindings: Seq::new(
            elements[j].bindings.len(),
            |k: int|
                BindingView {
                    expression: extracted(elements, i, elements[j].bindings[k].expression),
                    ..elements[j].bindings[k]
                },
        ),
        repeated: None,
        states: Seq::empty(),
        transitions: Seq::empty(),
        unique_id: rank(elements, i, j) as usize,
        ..elements[j]
    }
}

/// The elements among the first `n` that go into the template of `i`, as
/// they stand in it.
pub open spec fn members(elements: Seq<ElementView>, i: int, n: int) -> Seq<ElementView>
    decreases n,
{
    if n <= 0 {
        Seq::empty()
    } else if owner(elements, n - 1) == i {
        members(elements, i, n - 1).push(template_element(elements, i, n - 1))
    } else {
        members(elements, i, n - 1)
    }
}

/// The repeaters that `holder` gets for the repeated elements among the
/// first `n`: one for each that it holds directly. `base` is the position
/// of the first template in the document.
pub open spec fn repeaters_of(elements: Seq<ElementView>, holder: int, base: int, n: int) -> Seq<
    RepeaterView,
>
    decreases n,
{
    if n <= 0 {
        Seq::empty()
    } else if is_repeated(elements, n - 1) && container(elements, n - 1) == holder {
        repeaters_of(elements, holder, base, n - 1).push(
            RepeaterView {
                model: if holder < 0 {
                    elements[n - 1].repeated->0
                } else {
                    extracted(elements, holder, elements[n - 1].repeated->0)
                },
                component: (base + repeated_before(elements, n - 1)) as usize,
                parent_element: match elements[n - 1].parent {
                    Some(p) => if holder < 0 {
                        p
                    } else {
                        match local(elements, holder, p as int) {
                            Some(l) => l,
                            None => 0,
                        }
                    },
                    None => 0,
                },
            },
        )
    } else {
        repeaters_of(elements, holder, base, n - 1)
    }
}

/// The template of the repeated element `i`.
pub open spec fn template(elements: Seq<ElementView>, i: int, base: int) -> ComponentView {
    ComponentView {
        id: elements[i].id,
        elements: members(elements, i, elements.len() as int),
        repeaters: repeaters_of(elements, i, base, elements.len() as int),
    }
}

/// The templates of the repeated elements among the first `n`.
pub open spec fn templates(elements: Seq<ElementView>, base: int, n: int) -> Seq<ComponentView>
    decreases n,
{
    if n <= 0 {
        Seq::empty()
    } else if is_repeated(elements, n - 1) {
        templates(elements, base, n - 1).push(template(elements, n - 1, base))
    } else {
        templates(elements, base, n - 1)
    }
}

/// The component without its repeated elements.
pub open spec fn without_repeated(c: ComponentView, base: int) -> ComponentView {
    ComponentView {
        elements: Seq::new(
            c.elements.len(),
            |j: int|
                if owner(c.elements, j) < 0 {
                    c.elements[j]
                } else {
                    placeholder(c.elements[j])
                },
        ),
        repeaters: c.repeaters + repeaters_of(c.elements, -1, base, c.elements.len() as int),
        ..c
    }
}

/// The components after the repeated elements of component `k` were taken
/// out. Where the templates would get positions that cannot be written
/// down, nothing is taken out.
pub open spec fn extracted_step(components: Seq<ComponentView>, k: int) -> Seq<ComponentView> {
    let elements = components[k].elements;
    if components.len() + repeated_before(elements, elements.len() as int) <= usize::MAX {
        components.update(k, without_repeated(components[k], components.len() as int))
            + templates(elements, components.len() as int, elements.len() as int)
    } else {
        components
    }
}

/// The components after the repeated elements of the first `n` components
/// were taken out.
pub open spec fn extracted_components(components: Seq<ComponentView>, n: int) -> Seq<ComponentView>
    decreases n,
{
    if n <= 0 {
        components
    } else {
        extracted_step(extracted_components(components, n - 1), n - 1)
    }
}

/// The document after the repeated elements were taken out of the
/// components it had.
pub open spec fn extracted_document(doc: DocumentView) -> DocumentView {
    DocumentView {
        components: extracted_components(doc.components, doc.components.len() as int),
        ..doc
    }
}

/// No element has more elements of a template before it than there are
/// elements before it.
pub proof fn lemma_rank_bound(elements: Seq<ElementView>, i: int, j: int)
    requires
        0 <= j,
    ensures
        rank(elements, i, j) <= j,
    decreases j,
{
    if j > 0 {
        lemma_rank_bound(elements, i, j - 1);
    }
}

/// There are no more repeated elements before an element than elements.
pub proof fn lemma_repeated_bound(elements: Seq<ElementView>, low: int, high: int)
    requires
        0 <= low <= high,
    ensures
        repeated_before(elements, low) <= repeated_before(elements, high),
        repeated_before(elements, high) <= high,
    decreases high,
{
    if high > 0 {
        if low < high {
            lemma_repeated_bound(elements, low, high - 1);
        } else {
            lemma_repeated_bound(elements, 0, high - 1);
        }
    }
}

/// The owner of an element is the element or stands before it.
pub proof fn lemma_owner_bound(elements: Seq<ElementView>, j: int)
    ensures
        -1 <= owner(elements, j) <= j || owner(elements, j) == -1,
        owner(elements, j) >= 0 ==> is_repeated(elements, owner(elements, j)),
    decreases j,
{
    if 0 < j < elements.len() && !is_repeated(elements, j) {
        match elements[j].parent {
            Some(p) => {
                if p < j {
                    lemma_owner_bound(elements, p as int);
                }
            },
            None => {},
        }
    }
}

/// The template of a repeated element stands after the template of the
/// repeated element that holds it: a template only refers to templates
/// that come later in the document.
pub proof fn lemma_template_order(elements: Seq<ElementView>, i: int, j: int)
    requires
        is_repeated(elements, j),
        container(elements, j) == i,
        i >= 0,
    ensures
        repeated_before(elements, i) < repeated_before(elements, j),
{
    match elements[j].parent {
        Some(p) => {
            lemma_owner_bound(elements, p as int);
        },
        None => {},
    }
    assert(i < j);
    assert(is_repeated(elements, i));
    lemma_repeated_bound(elements, i + 1, j);
}

/// What the elements of a component come to: for each element the
/// repeated element whose template it goes into, its position in that
/// template, and the number of repeated elements before it.
pub struct Analysis {
    pub owners: Vec<Option<usize>>,
    pub ranks: Vec<usize>,
    pub before: Vec<usize>,
    pub total: usize,
}

impl Analysis {
    /// The analysis is that of the elements.
    pub open spec fn matches(&self, elements: Seq<ElementView>) -> bool {
        &&& self.owners@.len() == elements.len()
        &&& self.ranks@.len() == elements.len()
        &&& self.before@.len() == elements.len()
        &&& self.total == repeated_before(elements, elements.len() as int)
        &&& forall|j: int|
            0 <= j < elements.len() ==> (#[trigger] self.owners@[j]) == (if owner(elements, j) < 0 {
                None::<usize>
            } else {
                Some(owner(elements, j) as usize)
            })
        &&& forall|j: int|
            0 <= j < elements.len() ==> (#[trigger] self.ranks@[j]) == rank(
                elements,
                owner(elements, j),
                j,
            )
        &&& forall|j: int|
            0 <= j < elements.len() ==> (#[trigger] self.before@[j]) == repeated_before(elements, j)
    }

    /// The position of element `t` in the template of `i`.
    fn position(&self, i: usize, t: usize, Ghost(elements): Ghost<Seq<ElementView>>) -> (out: Option<
        usize,
    >)
        requires
            self.matches(elements),
        ensures
            out == local(elements, i as int, t as int),
    {
        proof {
            lemma_owner_bound(elements, t as int);
            lemma_rank_bound(elements, i as int, t as int);
        }
        if t < self.owners.len() {
            match self.owners[t] {
                Some(o) => {
                    if o == i {
                        Some(self.ranks[t])
                    } else {
                        None
                    }
                },
                None => None,
            }
        } else {
            None
        }
    }

    /// The expression as it stands in the template of `i`.
    fn extract(&self, i: usize, e: &Expression, Ghost(elements): Ghost<Seq<ElementView>>) -> (r:
        Expression)
        requires
            self.matches(elements),
        ensures
            r == extracted(elements, i as int, *e),
        decreases *e,
    {
        match e {
            Expression::PropertyReference { element, property } => match self.position(
                i,
                *element,
                Ghost(elements),
            ) {
                Some(n) => Expression::PropertyReference { element: n, property: *property },
                None => Expression::Invalid,
            },
            Expression::SignalReference { element, property } => match self.position(
                i,
                *element,
                Ghost(elements),
            ) {
                Some(n) => Expression::SignalReference { element: n, property: *property },
                None => Expression::Invalid,
            },
            Expression::BinaryExpression { lhs, rhs, op } => Expression::BinaryExpression {
                lhs: Box::new(self.extract(i, lhs, Ghost(elements))),
                rhs: Box::new(self.extract(i, rhs, Ghost(elements))),
                op: *op,
            },
            Expression::UnaryExpression { sub, op } => Expression::UnaryExpression {
                sub: Box::new(self.extract(i, sub, Ghost(elements))),
                op: *op,
            },
            Expression::Condition { condition, true_expr, false_expr } => Expression::Condition {
                condition: Box::new(self.extract(i, condition, Ghost(elements))),
                true_expr: Box::new(self.extract(i, true_expr, Ghost(elements))),
                false_expr: Box::new(self.extract(i, false_expr, Ghost(elements))),
            },
            _ => clone_expression(e),
        }
    }
}

/// Whether element `j` is a repeated element that is taken out.
fn repeated(elements: &Vec<Element>, j: usize) -> (ok: bool)
    requires
        j < elements.len(),
    ensures
        ok == is_repeated(views(elements@), j as int),
{
    assert(views(elements@)[j as int] == elements@[j as int]@);
    let has_model = match &elements[j].repeated {
        Some(_) => true,
        None => false,
    };
    let has_item = match elements[j].base_type {
        Type::Builtin(_) => true,
        _ => false,
    };
    j > 0 && has_model && has_item
}

/// Works out what the elements come to.
fn analyze(elements: &Vec<Element>) -> (analysis: Analysis)
    ensures
        analysis.matches(views(elements@)),
{
    let ghost e = views(elements@);
    let mut owners: Vec<Option<usize>> = Vec::new();
    let mut ranks: Vec<usize> = Vec::new();
    let mut before: Vec<usize> = Vec::new();
    let mut counts: Vec<usize> = Vec::new();
    let mut plain: usize = 0;
    let mut total: usize = 0;
    let mut c: usize = 0;
    while c < elements.len()
        invariant
            c <= elements.len(),
            counts@.len() == c,
            forall|q: int| 0 <= q < c ==> (#[trigger] counts@[q]) == 0,
        decreases elements.len() - c,
    {
        counts.push(0);
        c += 1;
    }
    let mut j: usize = 0;
    while j < elements.len()
        invariant
            e == views(elements@),
            j <= elements.len(),
            owners@.len() == j,
            ranks@.len() == j,
            before@.len() == j,
            counts@.len() == elements.len(),
            total == repeated_before(e, j as int),
            plain == rank(e, -1, j as int),
            forall|i: int| 0 <= i < e.len() ==> (#[trigger] counts@[i]) == rank(e, i, j as int),
            forall|q: int|
                0 <= q < j ==> (#[trigger] owners@[q]) == (if owner(e, q) < 0 {
                    None::<usize>
                } else {
                    Some(owner(e, q) as usize)
                }),
            forall|q: int| 0 <= q < j ==> (#[trigger] ranks@[q]) == rank(e, owner(e, q), q),
            forall|q: int| 0 <= q < j ==> (#[trigger] before@[q]) == repeated_before(e, q),
        decreases elements.len() - j,
    {
        assert(e[j as int] == elements@[j as int]@);
        let is_own = repeated(elements, j);
        let mine: Option<usize> = if j == 0 {
            None
        } else if is_own {
            Some(j)
        } else {
            match elements[j].parent {
                Some(p) => {
                    if p < j {
                        owners[p]
                    } else {
                        None
                    }
                },
                None => None,
            }
        };
        proof {
            lemma_owner_bound(e, j as int);
            lemma_rank_bound(e, owner(e, j as int), j as int);
            lemma_repeated_bound(e, 0, j as int);
        }
        before.push(total);
        if is_own {
            total += 1;
        }
        let ghost counts_before = counts@;
        match mine {
            Some(i) => {
                ranks.push(counts[i]);
                counts[i] = counts[i] + 1;
            },
            None => {
                ranks.push(plain);
                plain += 1;
            },
        }
        owners.push(mine);
        proof {
            assert forall|i: int| 0 <= i < e.len() implies (#[trigger] counts@[i]) == rank(
                e,
                i,
                j + 1,
            ) by {
                assert(counts_before[i] == rank(e, i, j as int));
            }
        }
        j += 1;
    }
    Analysis { owners, ranks, before, total }
}

/// A copy of the declarations.
fn clone_declarations(declarations: &Vec<PropertyDeclaration>) -> (out: Vec<PropertyDeclaration>)
    ensures
        views(out@) == views(declarations@),
{
    let mut out: Vec<PropertyDeclaration> = Vec::new();
    let mut k: usize = 0;
    while k < declarations.len()
        invariant
            k <= declarations.len(),
            out@.len() == k,
            forall|q: int| 0 <= q < k ==> (#[trigger] out@[q])@ == declarations@[q]@,
        decreases declarations.len() - k,
    {
        out.push(clone_declaration(&declarations[k]));
        k += 1;
    }
    assert(views(out@) =~= views(declarations@));
    out
}

/// Element `j` as it stands in the template of `i`.
fn make_template_element(elements: &Vec<Element>, analysis: &Analysis, i: usize, j: usize) -> (out:
    Element)
    requires
        analysis.matches(views(elements@)),
        j < elements.len(),
        owner(views(elements@), j as int) == i,
    ensures
        out@ == template_element(views(elements@), i as int, j as int),
{
    let ghost e = views(elements@);
    let source = &elements[j];
    assert(e[j as int] == source@);
    let parent = if j == i {
        None
    } else {
        match source.parent {
            Some(p) => analysis.position(i, p, Ghost(e)),
            None => None,
        }
    };
    let mut bindings: Vec<Binding> = Vec::new();
    let mut k: usize = 0;
    while k < source.bindings.len()
        invariant
            analysis.matches(e),
            e == views(elements@),
            k <= source.bindings.len(),
            bindings@.len() == k,
            forall|q: int|
                0 <= q < k ==> (#[trigger] bindings@[q])@ == (BindingView {
                    expression: extracted(e, i as int, source@.bindings[q].expression),
                    ..source@.bindings[q]
                }),
        decreases source.bindings.len() - k,
    {
        let b = &source.bindings[k];
        assert(source@.bindings[k as int] == b@);
        bindings.push(
            Binding {
                property: b.property,
                expression: analysis.extract(i, &b.expression, Ghost(e)),
                animation: b.animation,
                span: b.span,
            },
        );
        k += 1;
    }
    proof {
        lemma_rank_bound(e, i as int, j as int);
        lemma_owner_bound(e, j as int);
    }
    let unique_id = match analysis.position(i, j, Ghost(e)) {
        Some(n) => n,
        None => 0,
    };
    let out = Element {
        id: source.id.clone(),
        base_type: source.base_type,
        parent,
        declarations: clone_declarations(&source.declarations),
        bindings,
        repeated: None,
        states: Vec::new(),
        transitions: Vec::new(),
        unique_id,
        span: source.span,
    };
    proof {
        assert(out@.bindings =~= template_element(e, i as int, j as int).bindings);
        assert(out@.states =~= Seq::<StateView>::empty());
        assert(out@.transitions =~= Seq::<TransitionView>::empty());
    }
    out
}

/// The elements of the template of `i`.
fn make_members(elements: &Vec<Element>, analysis: &Analysis, i: usize) -> (out: Vec<Element>)
    requires
        analysis.matches(views(elements@)),
    ensures
        views(out@) == members(views(elements@), i as int, elements@.len() as int),
{
    let ghost e = views(elements@);
    let mut out: Vec<Element> = Vec::new();
    let mut j: usize = 0;
    assert(views(out@) =~= members(e, i as int, 0));
    while j < elements.len()
        invariant
            analysis.matches(e),
            e == views(elements@),
            j <= elements.len(),
            views(out@) == members(e, i as int, j as int),
        decreases elements.len() - j,
    {
        let is_member = match analysis.owners[j] {
            Some(o) => o == i,
            None => false,
        };
        proof {
            lemma_owner_bound(e, j as int);
        }
        assert(is_member == (owner(e, j as int) == i));
        if is_member {
            let ghost sofar = views(out@);
            let made = make_template_element(elements, analysis, i, j);
            out.push(made);
            assert(views(out@) =~= sofar.push(template_element(e, i as int, j as int)));
        }
        j += 1;
    }
    out
}

/// The owner as it is written in the model.
pub open spec fn holder_of(holder: Option<usize>) -> int {
    match holder {
        Some(i) => i as int,
        None => -1,
    }
}

/// The repeaters that `holder` gets.
fn make_repeaters(
    elements: &Vec<Element>,
    analysis: &Analysis,
    holder: Option<usize>,
    base: usize,
) -> (out: Vec<Repeater>)
    requires
        analysis.matches(views(elements@)),
        base + analysis.total <= usize::MAX,
    ensures
        views(out@) == repeaters_of(
            views(elements@),
            holder_of(holder),
            base as int,
            elements@.len() as int,
        ),
{
    let ghost e = views(elements@);
    let ghost h = holder_of(holder);
    let mut out: Vec<Repeater> = Vec::new();
    let mut j: usize = 0;
    assert(views(out@) =~= repeaters_of(e, h, base as int, 0));
    while j < elements.len()
        invariant
            analysis.matches(e),
            e == views(elements@),
            h == holder_of(holder),
            base + analysis.total <= usize::MAX,
            j <= elements.len(),
            views(out@) == repeaters_of(e, h, base as int, j as int),
        decreases elements.len() - j,
    {
        assert(e[j as int] == elements@[j as int]@);
        let source = &elements[j];
        let held_by: Option<usize> = match source.parent {
            Some(p) => {
                if p < j {
                    analysis.owners[p]
                } else {
                    None
                }
            },
            None => None,
        };
        let same = match (held_by, holder) {
            (Some(a), Some(b)) => a == b,
            (None, None) => true,
            _ => false,
        };
        proof {
            lemma_repeated_bound(e, j as int, e.len() as int);
            if source.parent is Some && source.parent->0 < j {
                lemma_owner_bound(e, source.parent->0 as int);
            }
        }
        assert(same == (container(e, j as int) == h));
        if repeated(elements, j) && same {
            let model = match &source.repeated {
                Some(model) => match holder {
                    Some(i) => analysis.extract(i, model, Ghost(e)),
                    None => clone_expression(model),
                },
                None => Expression::Invalid,
            };
            let parent_element = match source.parent {
                Some(p) => match holder {
                    Some(i) => match analysis.position(i, p, Ghost(e)) {
                        Some(l) => l,
                        None => 0,
                    },
                    None => p,
                },
                None => 0,
            };
            let ghost sofar = views(out@);
            let repeater = Repeater { model, component: base + analysis.before[j], parent_element };
            let ghost pushed = repeater@;
            out.push(repeater);
            assert(views(out@) =~= sofar.push(pushed));
        }
        j += 1;
    }
    out
}

/// The templates of the repeated elements.
fn make_templates(elements: &Vec<Element>, analysis: &Analysis, base: usize) -> (out: Vec<Component>)
    requires
        analysis.matches(views(elements@)),
        base + analysis.total <= usize::MAX,
    ensures
        views(out@) == templates(views(elements@), base as int, elements@.len() as int),
{
    let ghost e = views(elements@);
    let mut out: Vec<Component> = Vec::new();
    let mut i: usize = 0;
    assert(views(out@) =~= templates(e, base as int, 0));
    while i < elements.len()
        invariant
            analysis.matches(e),
            e == views(elements@),
            base + analysis.total <= usize::MAX,
            i <= elements.len(),
            views(out@) == templates(e, base as int, i as int),
        decreases elements.len() - i,
    {
        if repeated(elements, i) {
            assert(e[i as int] == elements@[i as int]@);
            let made = Component {
                id: elements[i].id.clone(),
                elements: make_members(elements, analysis, i),
                repeaters: make_repeaters(elements, analysis, Some(i), base),
            };
            let ghost sofar = views(out@);
            let ghost pushed = made@;
            out.push(made);
            assert(views(out@) =~= sofar.push(pushed));
        }
        i += 1;
    }
    out
}

/// Takes the repeated elements out of the components of a document.
pub fn create_repeater_components(doc: &mut Document)
    ensures
        final(doc)@ == extracted_document(old(doc)@),
{
    let ghost d = doc@;
    let count = doc.components.len();
    let mut k: usize = 0;
    while k < count
        invariant
            d == old(doc)@,
            doc.root_component == old(doc).root_component,
            doc.path == old(doc).path,
            doc.embedded_resources == old(doc).embedded_resources,
            count == d.components.len(),
            count <= doc.components.len(),
            k <= count,
            views(doc.components@) == extracted_components(d.components, k as int),
        decreases count - k,
    {
        let ghost now = views(doc.components@);
        assert(now[k as int] == doc.components@[k as int]@);
        let ghost c = now[k as int];
        let base = doc.components.len();
        let analysis = analyze(&doc.components[k].elements);
        match base.checked_add(analysis.total) {
            Some(_) => {
                let mut made = make_templates(&doc.components[k].elements, &analysis, base);
                let mut repeaters = make_repeaters(
                    &doc.components[k].elements,
                    &analysis,
                    None,
                    base,
                );
                let ghost made_views = views(made@);
                let ghost repeater_views = views(repeaters@);
                let ghost before = doc.components@;
                let ghost own_repeaters = views(doc.components@[k as int].repeaters@);
                doc.components[k].repeaters.append(&mut repeaters);
                assert(views(doc.components@[k as int].repeaters@) =~= own_repeaters
                    + repeater_views);
                let total = doc.components[k].elements.len();
                let mut j: usize = 0;
                while j < total
                    invariant
                        k < doc.components.len(),
                        doc.root_component == old(doc).root_component,
                        doc.path == old(doc).path,
            doc.path == old(doc).path,
                        doc.embedded_resources == old(doc).embedded_resources,
                        doc.components@.len() == before.len(),
                        forall|q: int|
                            0 <= q < before.len() && q != k ==> doc.components@[q] == before[q],
                        doc.components@[k as int].id == before[k as int].id,
                        views(doc.components@[k as int].repeaters@) == own_repeaters
                            + repeater_views,
                        analysis.matches(c.elements),
                        total == c.elements.len(),
                        doc.components@[k as int].elements@.len() == total,
                        j <= total,
                        forall|q: int|
                            0 <= q < j ==> (#[trigger] doc.components@[k as int].elements@[q])@
                                == without_repeated(c, base as int).elements[q],
                        forall|q: int|
                            j <= q < total ==> (#[trigger] doc.components@[k as int].elements@[q])@
                                == c.elements[q],
                    decreases total - j,
                {
                    let ghost inner = doc.components@;
                    if analysis.owners[j].is_some() {
                        doc.components[k].elements[j].base_type = Type::Invalid;
                        doc.components[k].elements[j].declarations = Vec::new();
                        doc.components[k].elements[j].bindings = Vec::new();
                        doc.components[k].elements[j].repeated = None;
                        doc.components[k].elements[j].states = Vec::new();
                        doc.components[k].elements[j].transitions = Vec::new();
                        proof {
                            let made_element = doc.components@[k as int].elements@[j as int]@;
                            assert(made_element.declarations =~= Seq::<DeclarationView>::empty());
                            assert(made_element.bindings =~= Seq::<BindingView>::empty());
                            assert(made_element.states =~= Seq::<StateView>::empty());
                            assert(made_element.transitions =~= Seq::<TransitionView>::empty());
                            assert(inner[k as int].elements@[j as int]@ == c.elements[j as int]);
                            assert(made_element == placeholder(c.elements[j as int]));
                        }
                    }
                    proof {
                        assert forall|q: int| 0 <= q < j + 1 implies (
                        #[trigger] doc.components@[k as int].elements@[q])@ == without_repeated(
                            c,
                            base as int,
                        ).elements[q] by {
                            if q < j {
                                assert(doc.components@[k as int].elements@[q]
                                    == inner[k as int].elements@[q]);
                            } else {
                                assert(inner[k as int].elements@[q]@ == c.elements[q]);
                            }
                        }
                        assert forall|q: int| j + 1 <= q < total implies (
                        #[trigger] doc.components@[k as int].elements@[q])@ == c.elements[q] by {
                            assert(doc.components@[k as int].elements@[q]
                                == inner[k as int].elements@[q]);
                        }
                    }
                    j += 1;
                }
                let ghost replaced = views(doc.components@);
                proof {
                    assert(doc.components@[k as int]@.elements =~= without_repeated(
                        c,
                        base as int,
                    ).elements);
                    assert(doc.components@[k as int]@ == without_repeated(c, base as int));
                    assert(replaced =~= now.update(k as int, without_repeated(c, base as int))) by {
                        assert forall|q: int| 0 <= q < now.len() implies replaced[q] == now.update(
                            k as int,
                            without_repeated(c, base as int),
                        )[q] by {
                            if q != k {
                                assert(doc.components@[q] == before[q]);
                                assert(now[q] == before[q]@);
                            }
                        }
                    }
                }
                doc.components.append(&mut made);
                assert(views(doc.components@) =~= replaced + made_views);
            },
            None => {},
        }
        k += 1;
    }
}

} // verus!

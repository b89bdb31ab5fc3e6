use std::rc::Rc;
use sixtyfps_interpreter::animations::{is_finished, value_at};
use sixtyfps_interpreter::diagnostics::Span;
use sixtyfps_interpreter::dynamic_component::{AccessError, ComponentDescription, IdentitySource};
use sixtyfps_interpreter::eval::{BinaryOperator, UnaryOperator, Value};
use sixtyfps_interpreter::expression_tree::Expression;
use sixtyfps_interpreter::items::{EasingCurve, PropertyAnimation};
use sixtyfps_interpreter::object_tree::{Binding, Component, Document, Element};
use sixtyfps_interpreter::typeregister::{ItemKind, PropertyDeclaration, Type};

fn span() -> Span {
    Span { offset: 0, length: 0 }
}

fn declaration(name: &str, property_type: Type) -> PropertyDeclaration {
    PropertyDeclaration { name: name.to_string(), property_type }
}

fn element(base: ItemKind, parent: Option<usize>) -> Element {
    Element {
        id: String::new(),
        base_type: Type::Builtin(base),
        parent,
        declarations: Vec::new(),
        bindings: Vec::new(),
        repeated: None,
        states: Vec::new(),
        transitions: Vec::new(),
        unique_id: 0,
        span: span(),
    }
}

fn number(value: &Value) -> i64 {
    match value {
        Value::Number(n) => *n,
        other => panic!("not a number: {:?}", other),
    }
}

/// A rectangle that declares `base` and `double`, where `double` is bound
/// to `base + base`.
fn doubling_document() -> Document {
    let mut root = element(ItemKind::Rectangle, None);
    root.declarations.push(declaration("base", Type::Int32));
    root.declarations.push(declaration("double", Type::Int32));
    root.declarations.push(declaration("changed", Type::Signal));
    // The rectangle has five properties of its own; the declared ones follow.
    root.bindings.push(Binding {
        property: 6,
        expression: Expression::BinaryExpression {
            lhs: Box::new(Expression::PropertyReference { element: 0, property: 5 }),
            rhs: Box::new(Expression::PropertyReference { element: 0, property: 5 }),
            op: BinaryOperator::Add,
        },
        animation: None,
        span: span(),
    });
    Document {
        components: vec![Component {
            id: "Doubling".to_string(),
            elements: vec![root],
            repeaters: Vec::new(),
        }],
        root_component: 0,
        embedded_resources: Vec::new(),
        path: String::new(),
    }
}

#[test]
fn binding_follows_the_property_it_reads() {
    let doc = doubling_document();
    let mut identities = IdentitySource::new();
    let description = ComponentDescription::build(&doc, 0, &mut identities).unwrap();
    assert_eq!(description.id(), "Doubling");
    let mut instance = description.create();
    assert_eq!(number(&description.get_property(&mut instance, "double").unwrap()), 0);
    description.set_property(&mut instance, "base", Value::Number(21)).unwrap();
    assert_eq!(number(&description.get_property(&mut instance, "double").unwrap()), 42);
    description.set_property(&mut instance, "base", Value::Number(-4)).unwrap();
    assert_eq!(number(&description.get_property(&mut instance, "double").unwrap()), -8);
}

#[test]
fn two_instances_do_not_share_state() {
    let doc = doubling_document();
    let mut identities = IdentitySource::new();
    let description = ComponentDescription::build(&doc, 0, &mut identities).unwrap();
    let mut first = description.create();
    let mut second = description.create();
    description.set_property(&mut first, "base", Value::Number(5)).unwrap();
    assert_eq!(number(&description.get_property(&mut first, "double").unwrap()), 10);
    assert_eq!(number(&description.get_property(&mut second, "base").unwrap()), 0);
    assert_eq!(number(&description.get_property(&mut second, "double").unwrap()), 0);
}

#[test]
fn instance_of_another_description_is_refused() {
    let doc = doubling_document();
    let mut identities = IdentitySource::new();
    let description = ComponentDescription::build(&doc, 0, &mut identities).unwrap();
    let other = ComponentDescription::build(&doc, 0, &mut identities).unwrap();
    let mut instance = other.create();
    assert_eq!(
        description.get_property(&mut instance, "base").unwrap_err(),
        AccessError::WrongComponent
    );
    assert_eq!(
        description.set_property(&mut instance, "base", Value::Number(1)).unwrap_err(),
        AccessError::WrongComponent
    );
    assert_eq!(
        description.set_signal_handler(&mut instance, "changed", 7).unwrap_err(),
        AccessError::WrongComponent
    );
    assert_eq!(
        description.emit_signal(&instance, "changed").unwrap_err(),
        AccessError::WrongComponent
    );
    assert_eq!(number(&other.get_property(&mut instance, "base").unwrap()), 0);
}

#[test]
fn description_that_looks_the_same_is_another_all_the_same() {
    // Two descriptions of one document, numbered by two sources that both start anew: they
    // have the same number, the same name and the same cells.
    let doc = doubling_document();
    let first = ComponentDescription::build(&doc, 0, &mut IdentitySource::new()).unwrap();
    let second = ComponentDescription::build(&doc, 0, &mut IdentitySource::new()).unwrap();
    assert_eq!((first.identity, first.cells.len()), (second.identity, second.cells.len()));
    assert_eq!(first.id(), second.id());
    let mut instance = first.create();
    assert_eq!(second.get_property(&mut instance, "base"), Err(AccessError::WrongComponent));
    assert_eq!(
        second.set_property(&mut instance, "base", Value::Number(1)),
        Err(AccessError::WrongComponent)
    );
    assert_eq!(
        second.set_binding(&mut instance, "base", Expression::NumberLiteral(1)),
        Err(AccessError::WrongComponent)
    );
    assert_eq!(
        second.set_signal_handler(&mut instance, "changed", 7),
        Err(AccessError::WrongComponent)
    );
    assert_eq!(second.emit_signal(&instance, "changed"), Err(AccessError::WrongComponent));
    assert_eq!(second.item_property(&mut instance, 0, 0), Err(AccessError::WrongComponent));
    assert_eq!(
        second.set_item_property(&mut instance, 0, 0, Value::Number(1)),
        Err(AccessError::WrongComponent)
    );
    assert_eq!(second.emit_item_signal(&instance, 0, 0), Err(AccessError::WrongComponent));
    assert_eq!(second.item_values(&mut instance, 0), Err(AccessError::WrongComponent));
    assert_eq!(second.update_repeaters(&mut instance), Err(AccessError::WrongComponent));
    assert!(!instance.made_from(&second));
    assert!(instance.made_from(&first));
    // Nothing was written, and the description that made the instance has it as before.
    assert_eq!(first.get_property(&mut instance, "base"), Ok(Value::Number(0)));
    assert_eq!(first.emit_signal(&instance, "changed"), Ok(None));
    // Another handle to the same description is the same description.
    let again = Rc::clone(&first);
    assert_eq!(again.set_property(&mut instance, "base", Value::Number(4)), Ok(()));
    assert_eq!(first.get_property(&mut instance, "double"), Ok(Value::Number(8)));
    // The instance keeps its description alive.
    drop(again);
    drop(first);
    let third = ComponentDescription::build(&doc, 0, &mut IdentitySource::new()).unwrap();
    assert_eq!(third.get_property(&mut instance, "base"), Err(AccessError::WrongComponent));
}

#[test]
fn what_follows_the_test_of_the_instance_is_told_by_its_answer() {
    let description = built(&doubling_document());
    let mut instance = description.create();
    assert_eq!(
        description.get_property_checked(&mut instance, "base", false),
        Err(AccessError::WrongComponent)
    );
    assert_eq!(
        description.set_property_checked(&mut instance, "base", Value::Number(3), false),
        Err(AccessError::WrongComponent)
    );
    assert_eq!(description.get_property_checked(&mut instance, "base", true), Ok(Value::Number(0)));
    assert_eq!(
        description.set_property_checked(&mut instance, "base", Value::Number(3), true),
        Ok(())
    );
    assert_eq!(description.get_property_checked(&mut instance, "double", true), Ok(Value::Number(6)));
    assert_eq!(
        description.emit_signal_checked(&instance, "changed", false),
        Err(AccessError::WrongComponent)
    );
    assert_eq!(description.emit_signal_checked(&instance, "changed", true), Ok(None));
}


fn reference(element: usize, property: usize) -> Expression {
    Expression::PropertyReference { element, property }
}

fn binding(property: usize, expression: Expression) -> Binding {
    Binding { property, expression, animation: None, span: span() }
}

fn document(root: Element) -> Document {
    Document {
        components: vec![Component {
            id: "Main".to_string(),
            elements: vec![root],
            repeaters: Vec::new(),
        }],
        root_component: 0,
        embedded_resources: Vec::new(),
        path: String::new(),
    }
}

fn built(doc: &Document) -> Rc<ComponentDescription> {
    let mut identities = IdentitySource::new();
    ComponentDescription::build(doc, 0, &mut identities).unwrap()
}

#[test]
fn binding_loop_is_reported_and_can_be_broken() {
    let mut root = element(ItemKind::Rectangle, None);
    root.declarations.push(declaration("a", Type::Int32));
    root.declarations.push(declaration("b", Type::Int32));
    root.declarations.push(declaration("own", Type::Int32));
    root.declarations.push(declaration("free", Type::Int32));
    root.bindings.push(binding(5, reference(0, 6)));
    root.bindings.push(binding(6, reference(0, 5)));
    root.bindings.push(binding(
        7,
        Expression::BinaryExpression {
            lhs: Box::new(reference(0, 7)),
            rhs: Box::new(Expression::NumberLiteral(1)),
            op: BinaryOperator::Add,
        },
    ));
    root.bindings.push(binding(8, Expression::NumberLiteral(9)));
    let description = built(&document(root));
    let mut instance = description.create();
    for name in ["a", "b", "own"] {
        assert_eq!(
            description.get_property(&mut instance, name).unwrap_err(),
            AccessError::BindingLoop
        );
    }
    // A loop does not harm the properties outside, nor a second read.
    assert_eq!(number(&description.get_property(&mut instance, "free").unwrap()), 9);
    assert_eq!(
        description.get_property(&mut instance, "a").unwrap_err(),
        AccessError::BindingLoop
    );
    description.set_property(&mut instance, "b", Value::Number(4)).unwrap();
    assert_eq!(number(&description.get_property(&mut instance, "a").unwrap()), 4);
    assert_eq!(number(&description.get_property(&mut instance, "b").unwrap()), 4);
}

#[test]
fn only_the_branch_taken_is_read() {
    let mut root = element(ItemKind::Rectangle, None);
    root.declarations.push(declaration("choice", Type::Bool));
    root.declarations.push(declaration("left", Type::Int32));
    root.declarations.push(declaration("right", Type::Int32));
    root.declarations.push(declaration("picked", Type::Int32));
    // `right` is in a loop with itself; `picked` reads it only when `choice` is false.
    root.bindings.push(binding(7, reference(0, 7)));
    root.bindings.push(binding(
        8,
        Expression::Condition {
            condition: Box::new(reference(0, 5)),
            true_expr: Box::new(reference(0, 6)),
            false_expr: Box::new(reference(0, 7)),
        },
    ));
    let description = built(&document(root));
    let mut instance = description.create();
    assert_eq!(
        description.get_property(&mut instance, "picked").unwrap_err(),
        AccessError::BindingLoop
    );
    description.set_property(&mut instance, "choice", Value::Bool(true)).unwrap();
    description.set_property(&mut instance, "left", Value::Number(11)).unwrap();
    assert_eq!(number(&description.get_property(&mut instance, "picked").unwrap()), 11);
    description.set_property(&mut instance, "left", Value::Number(12)).unwrap();
    assert_eq!(number(&description.get_property(&mut instance, "picked").unwrap()), 12);
    description.set_property(&mut instance, "choice", Value::Bool(false)).unwrap();
    assert_eq!(
        description.get_property(&mut instance, "picked").unwrap_err(),
        AccessError::BindingLoop
    );
}

#[test]
fn chains_of_bindings_follow_every_write() {
    let mut root = element(ItemKind::Rectangle, None);
    for name in ["ones", "tens", "hundreds", "thousands"] {
        root.declarations.push(declaration(name, Type::Int32));
    }
    for k in 1..4usize {
        root.bindings.push(binding(
            5 + k,
            Expression::BinaryExpression {
                lhs: Box::new(reference(0, 4 + k)),
                rhs: Box::new(Expression::NumberLiteral(10)),
                op: BinaryOperator::Mul,
            },
        ));
    }
    let description = built(&document(root));
    let mut instance = description.create();
    for start in [1i64, -3, 0, 7] {
        description.set_property(&mut instance, "ones", Value::Number(start)).unwrap();
        assert_eq!(number(&description.get_property(&mut instance, "thousands").unwrap()), start * 1000);
        assert_eq!(number(&description.get_property(&mut instance, "tens").unwrap()), start * 10);
    }
    // A write to the middle of the chain cuts it there.
    description.set_property(&mut instance, "hundreds", Value::Number(5)).unwrap();
    description.set_property(&mut instance, "ones", Value::Number(2)).unwrap();
    assert_eq!(number(&description.get_property(&mut instance, "thousands").unwrap()), 50);
    assert_eq!(number(&description.get_property(&mut instance, "tens").unwrap()), 20);
}

#[test]
fn host_bindings_name_public_properties() {
    let doc = doubling_document();
    let description = built(&doc);
    let mut instance = description.create();
    let expression = Expression::BinaryExpression {
        lhs: Box::new(Expression::Identifier { scope: String::new(), name: "double".to_string() }),
        rhs: Box::new(Expression::UnaryExpression {
            sub: Box::new(Expression::NumberLiteral(1)),
            op: UnaryOperator::Negate,
        }),
        op: BinaryOperator::Add,
    };
    assert_eq!(
        description.set_binding(&mut instance, "nothing", Expression::NumberLiteral(1)),
        Err(AccessError::PropertyNotFound)
    );
    description.set_property(&mut instance, "base", Value::Number(8)).unwrap();
    // `base` becomes `double - 1`, and `double` is `base + base`: a loop.
    description.set_binding(&mut instance, "base", expression).unwrap();
    assert_eq!(
        description.get_property(&mut instance, "base").unwrap_err(),
        AccessError::BindingLoop
    );
    description.set_binding(&mut instance, "double", Expression::NumberLiteral(5)).unwrap();
    assert_eq!(number(&description.get_property(&mut instance, "base").unwrap()), 4);
    // A name that names nothing has no value.
    description
        .set_binding(
            &mut instance,
            "double",
            Expression::Identifier { scope: String::new(), name: "nowhere".to_string() },
        )
        .unwrap();
    assert!(matches!(description.get_property(&mut instance, "double").unwrap(), Value::Void));
}

#[test]
fn values_must_have_the_type_of_the_property() {
    let doc = doubling_document();
    let description = built(&doc);
    let mut instance = description.create();
    assert_eq!(
        description.set_property(&mut instance, "base", Value::String("1".to_string())),
        Err(AccessError::TypeMismatch)
    );
    assert_eq!(
        description.set_property(&mut instance, "base", Value::Bool(true)),
        Err(AccessError::TypeMismatch)
    );
    assert_eq!(
        description.set_property(&mut instance, "changed", Value::Number(1)),
        Err(AccessError::PropertyNotFound)
    );
    assert_eq!(number(&description.get_property(&mut instance, "base").unwrap()), 0);
}

#[test]
fn last_handler_wins() {
    let doc = doubling_document();
    let description = built(&doc);
    let mut instance = description.create();
    assert_eq!(description.emit_signal(&instance, "changed"), Ok(None));
    description.set_signal_handler(&mut instance, "changed", 1).unwrap();
    description.set_signal_handler(&mut instance, "changed", 2).unwrap();
    assert_eq!(description.emit_signal(&instance, "changed"), Ok(Some(2)));
    assert_eq!(description.emit_signal(&instance, "base"), Err(AccessError::SignalNotFound));
    assert_eq!(
        description.set_signal_handler(&mut instance, "double", 3),
        Err(AccessError::SignalNotFound)
    );
    let mut other = description.create();
    assert_eq!(description.emit_signal(&other, "changed"), Ok(None));
    description.set_signal_handler(&mut other, "changed", 9).unwrap();
    assert_eq!(description.emit_signal(&instance, "changed"), Ok(Some(2)));
}

#[test]
fn animated_property_moves_to_what_was_written() {
    let mut root = element(ItemKind::Rectangle, None);
    root.declarations.push(declaration("level", Type::Int32));
    root.declarations.push(declaration("shown", Type::Int32));
    root.bindings.push(Binding {
        property: 5,
        expression: Expression::NumberLiteral(100),
        animation: Some(PropertyAnimation {
            duration: 200,
            loop_count: 1,
            easing: EasingCurve::Linear,
        }),
        span: span(),
    });
    root.bindings.push(binding(6, reference(0, 5)));
    let description = built(&document(root));
    let mut instance = description.create();
    instance.update_animations(1000);
    description.set_property(&mut instance, "level", Value::Number(500)).unwrap();
    // Nothing has moved yet.
    assert_eq!(number(&description.get_property(&mut instance, "level").unwrap()), 100);
    instance.update_animations(1050);
    assert_eq!(number(&description.get_property(&mut instance, "level").unwrap()), 200);
    assert_eq!(number(&description.get_property(&mut instance, "shown").unwrap()), 200);
    instance.update_animations(1199);
    let almost = number(&description.get_property(&mut instance, "level").unwrap());
    assert_eq!(almost, 498);
    assert!(100 < almost && almost < 500);
    instance.update_animations(1200);
    assert_eq!(number(&description.get_property(&mut instance, "level").unwrap()), 500);
    assert_eq!(number(&description.get_property(&mut instance, "shown").unwrap()), 500);
    instance.update_animations(5000);
    assert_eq!(number(&description.get_property(&mut instance, "level").unwrap()), 500);
}

#[test]
fn write_during_an_animation_starts_from_where_the_value_is() {
    let mut root = element(ItemKind::Rectangle, None);
    root.declarations.push(declaration("level", Type::Int32));
    root.bindings.push(Binding {
        property: 5,
        expression: Expression::NumberLiteral(0),
        animation: Some(PropertyAnimation {
            duration: 100,
            loop_count: 1,
            easing: EasingCurve::Linear,
        }),
        span: span(),
    });
    let description = built(&document(root));
    let mut instance = description.create();
    description.set_property(&mut instance, "level", Value::Number(1000)).unwrap();
    instance.update_animations(40);
    assert_eq!(number(&description.get_property(&mut instance, "level").unwrap()), 400);
    description.set_property(&mut instance, "level", Value::Number(0)).unwrap();
    instance.update_animations(90);
    assert_eq!(number(&description.get_property(&mut instance, "level").unwrap()), 200);
    instance.update_animations(140);
    assert_eq!(number(&description.get_property(&mut instance, "level").unwrap()), 0);
}

#[test]
fn easing_curves_start_or_end_slowly() {
    let animation = |easing| PropertyAnimation { duration: 10, loop_count: 1, easing };
    assert_eq!(value_at(0, 100, animation(EasingCurve::Linear), 3), 30);
    assert_eq!(value_at(0, 100, animation(EasingCurve::EaseIn), 3), 9);
    assert_eq!(value_at(0, 100, animation(EasingCurve::EaseOut), 3), 51);
    assert_eq!(value_at(100, 0, animation(EasingCurve::Linear), 3), 70);
    assert_eq!(value_at(-7, -7, animation(EasingCurve::EaseIn), 3), -7);
    assert_eq!(value_at(i64::MIN, i64::MAX, animation(EasingCurve::Linear), 5), -1);
    assert_eq!(value_at(0, 100, animation(EasingCurve::Linear), 10), 100);
    let looping = PropertyAnimation { duration: 10, loop_count: 3, easing: EasingCurve::Linear };
    assert_eq!(value_at(0, 100, looping, 13), 30);
    assert_eq!(value_at(0, 100, looping, 29), 90);
    assert_eq!(value_at(0, 100, looping, 30), 100);
    assert!(!is_finished(looping, 29));
    assert!(is_finished(looping, 30));
    let still = PropertyAnimation { duration: 0, loop_count: 1, easing: EasingCurve::Linear };
    assert!(is_finished(still, 0));
    assert_eq!(value_at(1, 2, still, 0), 2);
}

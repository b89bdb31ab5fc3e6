use std::rc::Rc;
use sixtyfps_interpreter::compiler::{compile_syntax_node, CompilerConfiguration};
use sixtyfps_interpreter::diagnostics::{Diagnostic, FileDiagnostics, Span};
use sixtyfps_interpreter::dynamic_component::{AccessError, ComponentDescription, IdentitySource};
use sixtyfps_interpreter::eval::{BinaryOperator, Value};
use sixtyfps_interpreter::expression_tree::Expression;
use sixtyfps_interpreter::interpreter::load;
use sixtyfps_interpreter::items::{
    EasingCurve, InputEventResult, MouseEvent, MouseEventType, PropertyAnimation,
};
use sixtyfps_interpreter::object_tree::Document;
use sixtyfps_interpreter::parser::{
    SyntaxBinding, SyntaxComponent, SyntaxDeclaration, SyntaxElement, SyntaxNode,
    SyntaxPropertyChange, SyntaxState, SyntaxTransition, SyntaxTransitionAnimation,
};
use sixtyfps_interpreter::typeregister::Type;

fn at(offset: usize) -> Span {
    Span { offset, length: 1 }
}

fn name(text: &str) -> Expression {
    Expression::Identifier { scope: String::new(), name: text.to_string() }
}

fn qualified(scope: &str, text: &str) -> Expression {
    Expression::Identifier { scope: scope.to_string(), name: text.to_string() }
}

fn binary(lhs: Expression, op: BinaryOperator, rhs: Expression) -> Expression {
    Expression::BinaryExpression { lhs: Box::new(lhs), rhs: Box::new(rhs), op }
}

fn element(id: &str, base: &str, parent: Option<usize>) -> SyntaxElement {
    SyntaxElement {
        id: id.to_string(),
        base: base.to_string(),
        parent,
        declarations: Vec::new(),
        bindings: Vec::new(),
        repeated: None,
        states: Vec::new(),
        transitions: Vec::new(),
        span: at(0),
    }
}

fn declare(element: &mut SyntaxElement, name: &str, declared_type: &str) {
    element.declarations.push(SyntaxDeclaration {
        name: name.to_string(),
        declared_type: declared_type.to_string(),
        span: at(0),
    });
}

fn bind(element: &mut SyntaxElement, name: &str, expression: Expression) {
    element.bindings.push(SyntaxBinding {
        name: name.to_string(),
        expression,
        animation: None,
        span: at(0),
    });
}

fn component(id: &str, elements: Vec<SyntaxElement>) -> SyntaxComponent {
    SyntaxComponent { id: id.to_string(), elements, span: at(0) }
}

fn file(elements: Vec<SyntaxElement>) -> SyntaxNode {
    SyntaxNode { components: vec![component("Main", elements)] }
}

fn compiled(node: &SyntaxNode, embed_resources: bool) -> (Document, Vec<String>) {
    let config = CompilerConfiguration { embed_resources, include_paths: Vec::new() };
    let diagnostics =
        FileDiagnostics { inner: Vec::new(), current_path: "main.60".to_string() };
    let (doc, build) = compile_syntax_node(node, diagnostics, &Vec::new(), &config);
    let mut messages = Vec::new();
    for file in build.into_files() {
        for d in file.inner {
            match d {
                Diagnostic::CompilerDiagnostic(c) => messages.push(c.message),
                Diagnostic::FileLoadError(text) => messages.push(text),
            }
        }
    }
    (doc, messages)
}

fn loaded(node: &SyntaxNode) -> Rc<ComponentDescription> {
    let mut identities = IdentitySource::new();
    load(node, FileDiagnostics::new("main.60".to_string()), &Vec::new(), &CompilerConfiguration::default(), &mut identities).unwrap()
}

fn number(value: &Value) -> i64 {
    match value {
        Value::Number(n) => *n,
        other => panic!("not a number: {:?}", other),
    }
}

#[test]
fn state_overrides_a_property_while_it_holds() {
    let mut root = element("root", "Rectangle", None);
    declare(&mut root, "active", "bool");
    declare(&mut root, "urgent", "bool");
    bind(&mut root, "width", Expression::NumberLiteral(50));
    root.states.push(SyntaxState {
        id: "on".to_string(),
        condition: name("active"),
        changes: vec![
            SyntaxPropertyChange {
                element: String::new(),
                property: "width".to_string(),
                expression: Expression::NumberLiteral(200),
                span: at(0),
            },
            SyntaxPropertyChange {
                element: String::new(),
                property: "height".to_string(),
                expression: Expression::NumberLiteral(20),
                span: at(0),
            },
        ],
    });
    root.states.push(SyntaxState {
        id: "alarm".to_string(),
        condition: name("urgent"),
        changes: vec![SyntaxPropertyChange {
            element: String::new(),
            property: "width".to_string(),
            expression: Expression::NumberLiteral(300),
            span: at(0),
        }],
    });
    root.transitions.push(SyntaxTransition {
        state: "on".to_string(),
        animations: vec![SyntaxTransitionAnimation {
            element: String::new(),
            property: "height".to_string(),
            animation: PropertyAnimation {
                duration: 80,
                loop_count: 1,
                easing: EasingCurve::Linear,
            },
            span: at(0),
        }],
        span: at(0),
    });
    let node = file(vec![root]);
    let (doc, messages) = compiled(&node, false);
    assert_eq!(messages, Vec::<String>::new());
    assert!(doc.components[0].elements[0].states.is_empty());
    assert!(doc.components[0].elements[0].transitions.is_empty());

    let description = loaded(&node);
    let mut instance = description.create();
    let width = |instance: &mut _| number(&description.item_property(instance, 0, 2).unwrap());
    let height = |instance: &mut _| number(&description.item_property(instance, 0, 3).unwrap());
    assert_eq!((width(&mut instance), height(&mut instance)), (50, 0));
    description.set_property(&mut instance, "active", Value::Bool(true)).unwrap();
    assert_eq!((width(&mut instance), height(&mut instance)), (200, 20));
    // The later state wins where both hold.
    description.set_property(&mut instance, "urgent", Value::Bool(true)).unwrap();
    assert_eq!((width(&mut instance), height(&mut instance)), (300, 20));
    description.set_property(&mut instance, "active", Value::Bool(false)).unwrap();
    assert_eq!((width(&mut instance), height(&mut instance)), (300, 0));
    // The transition has become the animation of the property.
    let slot = description.items[0].first_slot + 3;
    assert_eq!(description.cells[slot].animation.map(|a| a.duration), Some(80));
    assert_eq!(description.cells[slot - 1].animation.map(|a| a.duration), None);
}

#[test]
fn rows_and_columns_place_their_children() {
    let mut row = element("row", "RowLayout", None);
    bind(&mut row, "spacing", Expression::NumberLiteral(5));
    let mut elements = vec![row];
    for (k, width) in [10i64, 20, 30].iter().enumerate() {
        let mut child = element(&format!("c{}", k), "Rectangle", Some(0));
        bind(&mut child, "width", Expression::NumberLiteral(*width));
        bind(&mut child, "x", Expression::NumberLiteral(999));
        elements.push(child);
    }
    let mut column = element("column", "ColumnLayout", Some(0));
    bind(&mut column, "width", Expression::NumberLiteral(7));
    elements.push(column);
    for height in [3i64, 4] {
        let mut child = element("", "Rectangle", Some(4));
        bind(&mut child, "height", Expression::NumberLiteral(height));
        elements.push(child);
    }
    let description = loaded(&file(elements));
    let mut instance = description.create();
    let place = |instance: &mut _, item: usize| {
        (
            number(&description.item_property(instance, item, 0).unwrap()),
            number(&description.item_property(instance, item, 1).unwrap()),
        )
    };
    assert_eq!(place(&mut instance, 1), (0, 0));
    assert_eq!(place(&mut instance, 2), (15, 0));
    assert_eq!(place(&mut instance, 3), (40, 0));
    // The column is a child of the row, after the third rectangle.
    assert_eq!(place(&mut instance, 4), (75, 0));
    assert_eq!(place(&mut instance, 5), (0, 0));
    assert_eq!(place(&mut instance, 6), (0, 3));
    // The row itself is placed by nothing.
    assert_eq!(place(&mut instance, 0), (0, 0));
    description.set_item_property(&mut instance, 1, 2, Value::Number(100)).unwrap();
    assert_eq!(place(&mut instance, 3), (130, 0));
}

#[test]
fn instances_of_components_are_inlined() {
    let mut label = element("label", "Rectangle", None);
    declare(&mut label, "size", "int32");
    bind(&mut label, "width", binary(name("size"), BinaryOperator::Mul, Expression::NumberLiteral(2)));
    bind(&mut label, "height", Expression::NumberLiteral(1));
    let mut inner = element("inner", "Rectangle", Some(0));
    bind(&mut inner, "x", qualified("label", "size"));
    let mut root = element("root", "Rectangle", None);
    declare(&mut root, "both", "int32");
    bind(
        &mut root,
        "both",
        binary(qualified("first", "width"), BinaryOperator::Add, qualified("second", "width")),
    );
    let mut first = element("first", "Label", Some(0));
    bind(&mut first, "size", Expression::NumberLiteral(21));
    let mut second = element("second", "Label", Some(0));
    bind(&mut second, "size", Expression::NumberLiteral(4));
    bind(&mut second, "height", Expression::NumberLiteral(9));
    let node = SyntaxNode {
        components: vec![
            component("Label", vec![label, inner]),
            component("Main", vec![root, first, second]),
        ],
    };
    let (doc, messages) = compiled(&node, false);
    assert_eq!(messages, Vec::<String>::new());
    let main = &doc.components[1];
    assert_eq!(main.elements.len(), 5);
    assert!(main.elements.iter().all(|e| matches!(e.base_type, Type::Builtin(_))));
    assert_eq!(main.elements[3].parent, Some(1));
    assert_eq!(main.elements[4].parent, Some(2));
    assert_eq!(main.elements.iter().map(|e| e.unique_id).collect::<Vec<_>>(), vec![0, 1, 2, 3, 4]);

    let description = loaded(&node);
    assert_eq!(description.id(), "Main");
    let mut instance = description.create();
    assert_eq!(number(&description.get_property(&mut instance, "both").unwrap()), 50);
    assert_eq!(number(&description.item_property(&mut instance, 1, 2).unwrap()), 42);
    assert_eq!(number(&description.item_property(&mut instance, 2, 2).unwrap()), 8);
    // Each copy of the inner rectangle reads the size of its own instance.
    assert_eq!(number(&description.item_property(&mut instance, 3, 0).unwrap()), 21);
    assert_eq!(number(&description.item_property(&mut instance, 4, 0).unwrap()), 4);
    // The binding of the instance counts, not that of the component.
    assert_eq!(number(&description.item_property(&mut instance, 1, 3).unwrap()), 1);
    assert_eq!(number(&description.item_property(&mut instance, 2, 3).unwrap()), 9);
}

#[test]
fn declarations_move_to_the_root() {
    let mut root = element("root", "Rectangle", None);
    declare(&mut root, "own", "int32");
    bind(&mut root, "own", binary(qualified("child", "note"), BinaryOperator::Add, qualified("last", "note")));
    let mut child = element("child", "Rectangle", Some(0));
    declare(&mut child, "note", "int32");
    declare(&mut child, "done", "signal");
    bind(&mut child, "note", Expression::NumberLiteral(7));
    bind(&mut child, "x", name("note"));
    let mut last = element("last", "Rectangle", Some(0));
    declare(&mut last, "note", "int32");
    bind(&mut last, "note", Expression::NumberLiteral(30));
    let node = file(vec![root, child, last]);
    let (doc, messages) = compiled(&node, false);
    assert_eq!(messages, Vec::<String>::new());
    let elements = &doc.components[0].elements;
    let declared: Vec<&str> = elements[0].declarations.iter().map(|d| d.name.as_str()).collect();
    assert_eq!(declared, vec!["own", "note", "done", "note"]);
    assert!(elements[1].declarations.is_empty());
    assert!(elements[2].declarations.is_empty());
    assert_eq!(elements[1].bindings.len(), 1);
    assert_eq!(elements[0].bindings.iter().map(|b| b.property).collect::<Vec<_>>(), vec![5, 6, 8]);

    let description = loaded(&node);
    let mut instance = description.create();
    assert_eq!(number(&description.get_property(&mut instance, "own").unwrap()), 37);
    assert_eq!(number(&description.item_property(&mut instance, 1, 0).unwrap()), 7);
    // The first property of a name is the one that the name finds.
    description.set_property(&mut instance, "note", Value::Number(1)).unwrap();
    assert_eq!(number(&description.get_property(&mut instance, "own").unwrap()), 31);
    assert_eq!(number(&description.item_property(&mut instance, 1, 0).unwrap()), 1);
}

#[test]
fn resources_are_embedded_on_request() {
    let mut root = element("root", "Rectangle", None);
    let mut first = element("first", "Image", Some(0));
    bind(&mut first, "source", Expression::ResourceReference("b.png".to_string()));
    let mut second = element("second", "Image", Some(0));
    bind(&mut second, "source", Expression::ResourceReference("a.png".to_string()));
    let mut third = element("third", "Image", Some(0));
    bind(&mut third, "source", Expression::ResourceReference("b.png".to_string()));
    bind(&mut root, "width", Expression::NumberLiteral(1));
    let node = file(vec![root, first, second, third]);

    let (plain, _) = compiled(&node, false);
    assert!(plain.embedded_resources.is_empty());
    let (embedded, _) = compiled(&node, true);
    assert_eq!(embedded.embedded_resources, vec!["b.png".to_string(), "a.png".to_string()]);
    let numbers: Vec<Option<usize>> = embedded.components[0].elements[1..]
        .iter()
        .map(|e| match &e.bindings[0].expression {
            Expression::EmbeddedResource(n) => Some(*n),
            _ => None,
        })
        .collect();
    assert_eq!(numbers, vec![Some(0), Some(1), Some(0)]);

    let mut identities = IdentitySource::new();
    let config = CompilerConfiguration { embed_resources: true, include_paths: Vec::new() };
    let description = load(&node, FileDiagnostics::new("main.60".to_string()), &Vec::new(), &config, &mut identities).unwrap();
    let mut instance = description.create();
    assert!(matches!(
        description.item_property(&mut instance, 2, 4).unwrap(),
        Value::EmbeddedResource(1)
    ));
    let description = loaded(&node);
    let mut instance = description.create();
    match description.item_property(&mut instance, 2, 4).unwrap() {
        Value::Resource(location) => assert_eq!(location, "a.png"),
        other => panic!("not a location: {:?}", other),
    }
}

#[test]
fn constant_expressions_of_paths_are_worked_out() {
    let mut root = element("root", "Rectangle", None);
    bind(
        &mut root,
        "width",
        binary(Expression::NumberLiteral(1), BinaryOperator::Add, Expression::NumberLiteral(2)),
    );
    let mut path = element("path", "Path", Some(0));
    bind(
        &mut path,
        "stroke_width",
        binary(Expression::NumberLiteral(1), BinaryOperator::Add, Expression::NumberLiteral(2)),
    );
    bind(
        &mut path,
        "width",
        binary(qualified("root", "width"), BinaryOperator::Mul, Expression::NumberLiteral(2)),
    );
    bind(
        &mut path,
        "height",
        Expression::Condition {
            condition: Box::new(binary(
                Expression::NumberLiteral(i64::MAX),
                BinaryOperator::Less,
                binary(Expression::NumberLiteral(i64::MAX), BinaryOperator::Add, Expression::NumberLiteral(1)),
            )),
            true_expr: Box::new(Expression::NumberLiteral(1)),
            false_expr: Box::new(binary(
                Expression::NumberLiteral(7),
                BinaryOperator::Div,
                Expression::NumberLiteral(-2),
            )),
        },
    );
    let (doc, messages) = compiled(&file(vec![root, path]), false);
    assert_eq!(messages, Vec::<String>::new());
    let elements = &doc.components[0].elements;
    assert!(matches!(elements[0].bindings[0].expression, Expression::BinaryExpression { .. }));
    assert!(matches!(elements[1].bindings[0].expression, Expression::NumberLiteral(3)));
    assert!(matches!(elements[1].bindings[1].expression, Expression::BinaryExpression { .. }));
    // Numbers saturate, and division rounds towards zero.
    assert!(matches!(elements[1].bindings[2].expression, Expression::NumberLiteral(-3)));
}

#[test]
fn repeater_follows_its_model() {
    let mut root = element("root", "Rectangle", None);
    declare(&mut root, "count", "int32");
    let mut item = element("item", "Rectangle", Some(0));
    item.repeated = Some(name("count"));
    declare(&mut item, "mark", "int32");
    bind(
        &mut item,
        "width",
        binary(Expression::RepeaterIndexReference, BinaryOperator::Mul, Expression::NumberLiteral(10)),
    );
    bind(&mut item, "height", Expression::RepeaterModelReference);
    let mut inside = element("inside", "Rectangle", Some(1));
    bind(&mut inside, "x", qualified("item", "width"));
    bind(&mut inside, "y", qualified("root", "count"));
    let mut bystander = element("bystander", "Rectangle", Some(0));
    bind(&mut bystander, "x", Expression::NumberLiteral(3));
    let node = file(vec![root, item, inside, bystander]);

    let (doc, messages) = compiled(&node, false);
    assert_eq!(messages, Vec::<String>::new());
    assert_eq!(doc.components.len(), 2);
    assert_eq!(doc.components[0].repeaters.len(), 1);
    assert_eq!(doc.components[0].repeaters[0].component, 1);
    assert_eq!(doc.components[0].repeaters[0].parent_element, 0);
    assert!(matches!(doc.components[0].elements[1].base_type, Type::Invalid));
    assert!(matches!(doc.components[0].elements[2].base_type, Type::Invalid));
    assert!(matches!(doc.components[0].elements[3].base_type, Type::Builtin(_)));
    assert_eq!(doc.components[1].id, "item");
    assert_eq!(doc.components[1].elements.len(), 2);
    assert_eq!(doc.components[1].elements[1].parent, Some(0));
    assert_eq!(doc.components[1].elements[1].unique_id, 1);

    let description = loaded(&node);
    let template = &description.repeaters[0].template;
    assert!(description.identity != template.identity);
    let mut instance = description.create();
    assert_eq!(instance.repeated_count(0), 0);
    assert_eq!(instance.repeated_count(1), 0);

    description.set_property(&mut instance, "count", Value::Number(3)).unwrap();
    // Whoever looks at the instances of a repeater finds what the model asks for now.
    assert_eq!(instance.repeated_count(0), 3);
    for j in 0..3usize {
        let child = instance.child_mut(0, j);
        assert_eq!(number(&template.item_property(child, 0, 2).unwrap()), 10 * j as i64);
        assert_eq!(number(&template.item_property(child, 0, 3).unwrap()), j as i64);
        assert_eq!(number(&template.item_property(child, 1, 0).unwrap()), 10 * j as i64);
        // What is outside the template cannot be read inside it: the property keeps the
        // default of its type.
        assert_eq!(template.item_property(child, 1, 1).unwrap(), Value::Number(0));
        // An instance of the template is none of the component.
        assert_eq!(description.get_property(child, "count"), Err(AccessError::WrongComponent));
    }
    template.set_property(instance.child_mut(0, 0), "mark", Value::Number(77)).unwrap();
    template.set_property(instance.child_mut(0, 2), "mark", Value::Number(99)).unwrap();

    description.set_property(&mut instance, "count", Value::Number(1)).unwrap();
    assert_eq!(number(&template.get_property(instance.child_mut(0, 0), "mark").unwrap()), 77);
    assert_eq!(instance.repeated_count(0), 1);

    description.set_property(&mut instance, "count", Value::Number(3)).unwrap();
    // The third instance is there as soon as it is asked for.
    assert_eq!(number(&template.get_property(instance.child_mut(0, 2), "mark").unwrap()), 0);
    assert_eq!(instance.repeated_count(0), 3);
    assert_eq!(number(&template.get_property(instance.child_mut(0, 0), "mark").unwrap()), 77);
    // The third instance is a new one.
    assert_eq!(number(&template.get_property(instance.child_mut(0, 2), "mark").unwrap()), 0);

    description.set_property(&mut instance, "count", Value::Number(-5)).unwrap();
    description.update_repeaters(&mut instance).unwrap();
    assert_eq!(instance.repeated_count(0), 0);
    assert_eq!(number(&description.item_property(&mut instance, 3, 0).unwrap()), 3);
    assert_eq!(
        description.item_property(&mut instance, 1, 0),
        Err(AccessError::PropertyNotFound)
    );
}

#[test]
fn repeaters_nest_and_conditions_repeat_once() {
    let root = element("root", "Rectangle", None);
    let mut outer = element("outer", "Rectangle", Some(0));
    outer.repeated = Some(Expression::NumberLiteral(2));
    let mut inner = element("inner", "Rectangle", Some(1));
    inner.repeated = Some(binary(
        Expression::RepeaterIndexReference,
        BinaryOperator::Add,
        Expression::NumberLiteral(1),
    ));
    let mut shown = element("shown", "Rectangle", Some(0));
    shown.repeated = Some(Expression::BoolLiteral(true));
    let mut hidden = element("hidden", "Rectangle", Some(0));
    hidden.repeated = Some(Expression::BoolLiteral(false));
    let node = file(vec![root, outer, inner, shown, hidden]);
    let (doc, _) = compiled(&node, false);
    assert_eq!(doc.components.len(), 5);
    assert_eq!(
        doc.components[0].repeaters.iter().map(|r| r.component).collect::<Vec<_>>(),
        vec![1, 3, 4]
    );
    assert_eq!(
        doc.components[1].repeaters.iter().map(|r| r.component).collect::<Vec<_>>(),
        vec![2]
    );
    let description = loaded(&node);
    let mut instance = description.create();
    assert_eq!(instance.repeated_count(0), 2);
    assert_eq!(instance.repeated_count(1), 1);
    assert_eq!(instance.repeated_count(2), 0);
    // The inner repeater of the first item makes one item, that of the second two.
    assert_eq!(instance.child_mut(0, 0).repeated_count(0), 1);
    assert_eq!(instance.child_mut(0, 1).repeated_count(0), 2);
}

#[test]
fn touch_area_hands_its_click_on() {
    let mut root = element("root", "Rectangle", None);
    declare(&mut root, "activated", "signal");
    declare(&mut root, "down", "bool");
    bind(&mut root, "down", qualified("area", "pressed"));
    let mut area = element("area", "TouchArea", Some(0));
    bind(&mut area, "clicked", qualified("root", "activated"));
    let flick = element("flick", "Flickable", Some(0));
    let description = loaded(&file(vec![root, area, flick]));
    let mut instance = description.create();
    description.set_signal_handler(&mut instance, "activated", 42).unwrap();
    let event = |what, x| MouseEvent { x, y: 2 * x, what };
    let down = |instance: &mut _| {
        matches!(description.get_property(instance, "down").unwrap(), Value::Bool(true))
    };
    assert_eq!(
        description.input_event(&mut instance, 1, event(MouseEventType::MouseMoved, 1)),
        Ok((InputEventResult::EventIgnored, None))
    );
    assert_eq!(
        description.input_event(&mut instance, 1, event(MouseEventType::MousePressed, 5)),
        Ok((InputEventResult::GrabMouse, None))
    );
    assert!(down(&mut instance));
    assert_eq!(
        description.input_event(&mut instance, 1, event(MouseEventType::MouseMoved, 6)),
        Ok((InputEventResult::GrabMouse, None))
    );
    let values = description.item_values(&mut instance, 1).unwrap();
    let numbers: Vec<i64> = values[5..9].iter().map(number).collect();
    assert_eq!(numbers, vec![5, 10, 6, 12]);
    assert_eq!(
        description.input_event(&mut instance, 1, event(MouseEventType::MouseReleased, 7)),
        Ok((InputEventResult::EventAccepted, Some(42)))
    );
    assert!(!down(&mut instance));
    assert_eq!(
        description.input_event(&mut instance, 0, event(MouseEventType::MousePressed, 7)),
        Ok((InputEventResult::EventIgnored, None))
    );
    assert_eq!(
        description.input_event(&mut instance, 2, event(MouseEventType::MousePressed, 7)),
        Ok((InputEventResult::EventAccepted, None))
    );
    assert_eq!(
        description.input_event(&mut instance, 3, event(MouseEventType::MousePressed, 7)),
        Err(AccessError::PropertyNotFound)
    );
    assert_eq!(description.emit_item_signal(&instance, 1, 9), Ok(Some(42)));
}

#[test]
fn what_names_nothing_is_reported() {
    let mut root = element("root", "Rectangle", None);
    declare(&mut root, "size", "length");
    declare(&mut root, "flag", "bool");
    bind(&mut root, "flag", Expression::NumberLiteral(1));
    root.states.push(SyntaxState {
        id: "on".to_string(),
        condition: Expression::NumberLiteral(1),
        changes: vec![
            SyntaxPropertyChange {
                element: "ghost".to_string(),
                property: "width".to_string(),
                expression: Expression::NumberLiteral(1),
                span: at(5),
            },
            SyntaxPropertyChange {
                element: String::new(),
                property: "depth".to_string(),
                expression: Expression::NumberLiteral(1),
                span: at(6),
            },
        ],
    });
    root.transitions.push(SyntaxTransition {
        state: "off".to_string(),
        animations: Vec::new(),
        span: at(7),
    });
    let (_, messages) = compiled(&file(vec![root]), false);
    assert_eq!(
        messages,
        vec![
            "Unknown property type length",
            "Unknown element ghost",
            "Unknown property depth",
            "Unknown state off",
            "Cannot assign to flag",
            "Cannot assign to the condition of a state",
        ]
    );
}

use sixtyfps_interpreter::compiler::{directory, resolve_include_path, CompilerConfiguration};
use sixtyfps_interpreter::diagnostics::{
    BuildDiagnostics, CompilerDiagnostic, Diagnostic, FileDiagnostics, Level, Span,
};
use sixtyfps_interpreter::dynamic_component::{
    AccessError, BuildError, ComponentDescription, IdentitySource,
};
use sixtyfps_interpreter::dynamic_type::{
    align_offset, size_of_field, DynamicLayout, FieldKind,
};
use sixtyfps_interpreter::eval::{
    add_numbers, apply_binary, apply_unary, div_numbers, mul_numbers, sub_numbers,
    BinaryOperator, UnaryOperator, Value,
};
use sixtyfps_interpreter::expression_tree::Expression;
use sixtyfps_interpreter::host::{
    create, to_eval_value, Argument, ConversionError, CreateError, HostValue,
};
use sixtyfps_interpreter::object_tree::{Binding, Component, Document, Element, Repeater};
use sixtyfps_interpreter::properties::{BindingLoop, PropertyStore};
use sixtyfps_interpreter::typeregister::{
    builtin_count, builtin_properties, find_declaration, ItemKind, PropertyDeclaration, Type,
    TypeRegister,
};

#[test]
fn numbers_saturate_and_division_rounds_towards_zero() {
    assert_eq!(add_numbers(i64::MAX, 1), i64::MAX);
    assert_eq!(add_numbers(i64::MIN, -1), i64::MIN);
    assert_eq!(add_numbers(-3, 5), 2);
    assert_eq!(sub_numbers(i64::MIN, 1), i64::MIN);
    assert_eq!(sub_numbers(0, i64::MIN), i64::MAX);
    assert_eq!(mul_numbers(i64::MAX, 2), i64::MAX);
    assert_eq!(mul_numbers(i64::MAX, -2), i64::MIN);
    assert_eq!(mul_numbers(i64::MIN, -1), i64::MAX);
    assert_eq!(mul_numbers(-7, 6), -42);
    assert_eq!(div_numbers(7, 2), 3);
    assert_eq!(div_numbers(-7, 2), -3);
    assert_eq!(div_numbers(7, -2), -3);
    assert_eq!(div_numbers(-7, -2), 3);
    assert_eq!(div_numbers(5, 0), 0);
    assert_eq!(div_numbers(i64::MIN, -1), i64::MAX);
}

#[test]
fn operators_give_void_on_operands_of_the_wrong_kind() {
    let number = Value::Number(2);
    let text = Value::String("ab".to_string());
    let truth = Value::Bool(true);
    assert_eq!(apply_binary(BinaryOperator::Add, &number, &number), Value::Number(4));
    assert_eq!(
        apply_binary(BinaryOperator::Add, &text, &Value::String("c".to_string())),
        Value::String("abc".to_string())
    );
    assert_eq!(apply_binary(BinaryOperator::Add, &number, &text), Value::Void);
    assert_eq!(apply_binary(BinaryOperator::Sub, &text, &text), Value::Void);
    assert_eq!(apply_binary(BinaryOperator::Equal, &number, &text), Value::Bool(false));
    assert_eq!(apply_binary(BinaryOperator::Equal, &text, &text), Value::Bool(true));
    assert_eq!(apply_binary(BinaryOperator::NotEqual, &number, &truth), Value::Bool(true));
    assert_eq!(apply_binary(BinaryOperator::Less, &number, &Value::Number(3)), Value::Bool(true));
    assert_eq!(
        apply_binary(BinaryOperator::GreaterOrEqual, &number, &Value::Number(3)),
        Value::Bool(false)
    );
    assert_eq!(apply_binary(BinaryOperator::LessOrEqual, &number, &number), Value::Bool(true));
    assert_eq!(apply_binary(BinaryOperator::Greater, &truth, &number), Value::Void);
    assert_eq!(apply_binary(BinaryOperator::And, &truth, &Value::Bool(false)), Value::Bool(false));
    assert_eq!(apply_binary(BinaryOperator::Or, &truth, &Value::Bool(false)), Value::Bool(true));
    assert_eq!(apply_binary(BinaryOperator::And, &truth, &number), Value::Void);
    assert_eq!(apply_unary(UnaryOperator::Not, &truth), Value::Bool(false));
    assert_eq!(apply_unary(UnaryOperator::Negate, &number), Value::Number(-2));
    assert_eq!(apply_unary(UnaryOperator::Negate, &Value::Number(i64::MIN)), Value::Number(i64::MAX));
    assert_eq!(apply_unary(UnaryOperator::Not, &number), Value::Void);
}

#[test]
fn store_caches_and_forgets_exactly_what_depends() {
    let mut store = PropertyStore::new();
    store.push_literal(Value::Number(1));
    store.push_literal(Value::Number(10));
    let sum = |a, b| Expression::BinaryExpression {
        lhs: Box::new(Expression::PropertySlot(a)),
        rhs: Box::new(Expression::PropertySlot(b)),
        op: BinaryOperator::Add,
    };
    store.push_binding(sum(0, 1));
    store.push_binding(sum(2, 2));
    store.push_binding(sum(4, 0));
    store.push_binding(Expression::PropertySlot(99));
    assert_eq!(store.len(), 6);
    assert_eq!(store.get(3), Ok(Value::Number(22)));
    assert_eq!(store.get(2), Ok(Value::Number(11)));
    assert_eq!(store.get(4), Err(BindingLoop));
    assert_eq!(store.get(5), Ok(Value::Void));
    store.set(1, Value::Number(20));
    assert_eq!(store.get(3), Ok(Value::Number(42)));
    store.set(0, Value::Number(2));
    store.set(0, Value::Number(3));
    assert_eq!(store.get(3), Ok(Value::Number(46)));
    store.set_binding(0, Expression::PropertySlot(1));
    assert_eq!(store.get(3), Ok(Value::Number(80)));
    store.set_binding(1, Expression::PropertySlot(3));
    assert_eq!(store.get(0), Err(BindingLoop));
    assert_eq!(store.get(3), Err(BindingLoop));
    store.set(4, Value::String("free".to_string()));
    assert_eq!(store.get(4), Ok(Value::String("free".to_string())));
}

#[test]
fn fields_are_laid_out_in_order_and_aligned() {
    let kinds = vec![
        FieldKind::Item(ItemKind::Rectangle),
        FieldKind::Property(Type::Bool),
        FieldKind::Property(Type::Int32),
        FieldKind::Signal,
        FieldKind::Repeater,
        FieldKind::Item(ItemKind::Image),
    ];
    let layout = DynamicLayout::build(kinds.clone()).unwrap();
    assert_eq!(layout.field_count(), 6);
    let offsets: Vec<usize> = (0..6).map(|i| layout.offset(i)).collect();
    assert_eq!(offsets, vec![0, 88, 104, 120, 136, 160]);
    assert_eq!((layout.size(), layout.align()), (256, 8));
    for (i, kind) in kinds.iter().enumerate() {
        assert_eq!(layout.kind(i), *kind);
        assert_eq!(layout.field_at(offsets[i], *kind), Some(i));
        assert!(offsets[i] % 8 == 0);
        if i > 0 {
            assert!(offsets[i - 1] + size_of_field(kinds[i - 1]) <= offsets[i]);
        }
    }
    // Access is refused for what is not the kind of the field or not its offset.
    assert_eq!(layout.field_at(88, FieldKind::Property(Type::Int32)), None);
    assert_eq!(layout.field_at(89, FieldKind::Property(Type::Bool)), None);
    let empty = DynamicLayout::build(Vec::new()).unwrap();
    assert_eq!((empty.size(), empty.align(), empty.field_count()), (0, 1, 0));
    assert_eq!(align_offset(13, 8), Some(16));
    assert_eq!(align_offset(16, 8), Some(16));
    assert_eq!(align_offset(usize::MAX, 8), None);
    assert_eq!(size_of_field(FieldKind::Property(Type::Image)), 24);
}

#[test]
fn inner_scope_hides_outer_names() {
    let builtin = TypeRegister::builtin();
    assert_eq!(builtin.lookup("Rectangle"), Type::Builtin(ItemKind::Rectangle));
    assert_eq!(builtin.lookup("int32"), Type::Int32);
    assert_eq!(builtin.lookup("Button"), Type::Invalid);
    let mut local = TypeRegister::new(&builtin);
    local.add("Button".to_string(), Type::Component(0));
    local.add("Rectangle".to_string(), Type::Component(1));
    local.add("Button".to_string(), Type::Component(2));
    assert_eq!(local.lookup("Button"), Type::Component(2));
    assert_eq!(local.lookup("Rectangle"), Type::Component(1));
    assert_eq!(local.lookup("Text"), Type::Builtin(ItemKind::Text));
    assert_eq!(builtin.lookup("Rectangle"), Type::Builtin(ItemKind::Rectangle));
    let inner = TypeRegister::new(&local);
    assert_eq!(inner.lookup("Button"), Type::Component(2));
}

#[test]
fn every_kind_of_item_starts_with_its_place() {
    let kinds = [
        ItemKind::Rectangle,
        ItemKind::BorderRectangle,
        ItemKind::Image,
        ItemKind::Text,
        ItemKind::TouchArea,
        ItemKind::Path,
        ItemKind::Flickable,
        ItemKind::Window,
        ItemKind::RowLayout,
        ItemKind::ColumnLayout,
    ];
    for kind in kinds {
        let table = builtin_properties(kind);
        assert_eq!(table.len(), builtin_count(kind));
        let names: Vec<&str> = table.iter().take(4).map(|d| d.name.as_str()).collect();
        assert_eq!(names, vec!["x", "y", "width", "height"]);
        assert_eq!(find_declaration(&table, "height"), Some(3));
        assert_eq!(find_declaration(&table, "depth"), None);
    }
    let touch = builtin_properties(ItemKind::TouchArea);
    assert_eq!(find_declaration(&touch, "clicked"), Some(9));
    assert_eq!(touch[9].property_type, Type::Signal);
    assert_eq!(touch[4].property_type, Type::Bool);
}

fn error(message: &str, offset: usize) -> Diagnostic {
    Diagnostic::CompilerDiagnostic(CompilerDiagnostic {
        message: message.to_string(),
        span: Span { offset, length: 1 },
        level: Level::Error,
    })
}

#[test]
fn nothing_is_said_twice() {
    let mut file = FileDiagnostics::new("a.60".to_string());
    assert!(file.is_empty() && !file.has_error());
    file.push_error("first".to_string(), Span { offset: 1, length: 1 });
    file.push_error("first".to_string(), Span { offset: 1, length: 1 });
    file.push_error("first".to_string(), Span { offset: 2, length: 1 });
    file.push(Diagnostic::CompilerDiagnostic(CompilerDiagnostic {
        message: "first".to_string(),
        span: Span { offset: 1, length: 1 },
        level: Level::Warning,
    }));
    assert_eq!(file.len(), 3);
    assert!(file.has_error());
    let warnings = FileDiagnostics {
        inner: vec![Diagnostic::CompilerDiagnostic(CompilerDiagnostic {
            message: "only a warning".to_string(),
            span: Span { offset: 0, length: 0 },
            level: Level::Warning,
        })],
        current_path: "w.60".to_string(),
    };
    assert!(!warnings.has_error());

    let mut build = BuildDiagnostics::new();
    assert!(!build.has_error());
    build.add(warnings);
    assert!(!build.has_error());
    build.add(file);
    build.add(FileDiagnostics {
        inner: vec![error("first", 2), error("second", 9), error("second", 9)],
        current_path: "a.60".to_string(),
    });
    build.add(FileDiagnostics {
        inner: vec![Diagnostic::FileLoadError("gone".to_string())],
        current_path: "b.60".to_string(),
    });
    assert!(build.has_error());
    assert_eq!(build.len(), 3);
    let files = build.into_files();
    let paths: Vec<&str> = files.iter().map(|f| f.current_path.as_str()).collect();
    assert_eq!(paths, vec!["w.60", "a.60", "b.60"]);
    assert_eq!(files[1].len(), 4);
    assert!(matches!(&files[1].inner[3], Diagnostic::CompilerDiagnostic(d) if d.message == "second"));
}

#[test]
fn include_paths_start_at_the_directory_of_the_file() {
    assert_eq!(directory("ui/main.60"), "ui");
    assert_eq!(directory("/main.60"), "/");
    assert_eq!(directory("main.60"), "");
    assert_eq!(directory("a/b/c/d.60"), "a/b/c");
    assert_eq!(directory("a/b/"), "a/b");
    assert_eq!(resolve_include_path("ui/main.60", "widgets"), "ui/widgets");
    assert_eq!(resolve_include_path("ui/main.60", "/usr/share/widgets"), "/usr/share/widgets");
    assert_eq!(resolve_include_path("main.60", "widgets"), "widgets");
    assert_eq!(resolve_include_path("/main.60", "widgets"), "/widgets");
    assert_eq!(resolve_include_path("ui/größe.60", "breite"), "ui/breite");
    let config = CompilerConfiguration {
        embed_resources: false,
        include_paths: vec!["../lib".to_string(), "/opt/lib".to_string()],
    };
    assert_eq!(config.search_paths("app/ui/main.60"), vec!["app/ui/../lib", "/opt/lib"]);
    let empty = CompilerConfiguration::default();
    assert!(!empty.embed_resources);
    assert!(empty.search_paths("main.60").is_empty());
}

fn plain(base: ItemKind) -> Element {
    Element {
        id: String::new(),
        base_type: Type::Builtin(base),
        parent: None,
        declarations: Vec::new(),
        bindings: Vec::new(),
        repeated: None,
        states: Vec::new(),
        transitions: Vec::new(),
        unique_id: 0,
        span: Span { offset: 0, length: 0 },
    }
}

fn document(components: Vec<Component>) -> Document {
    Document { components, root_component: 0, embedded_resources: Vec::new(), path: String::new() }
}

#[test]
fn description_says_where_everything_stands() {
    let mut root = plain(ItemKind::Window);
    root.declarations.push(PropertyDeclaration { name: "title".to_string(), property_type: Type::String });
    root.declarations.push(PropertyDeclaration { name: "closed".to_string(), property_type: Type::Signal });
    let text = plain(ItemKind::Text);
    let mut gone = plain(ItemKind::Rectangle);
    gone.base_type = Type::Invalid;
    let area = plain(ItemKind::TouchArea);
    let item = Component { id: "item".to_string(), elements: vec![plain(ItemKind::Image)], repeaters: Vec::new() };
    let main = Component {
        id: "Main".to_string(),
        elements: vec![root, text, gone, area],
        repeaters: vec![Repeater { model: Expression::NumberLiteral(2), component: 1, parent_element: 0 }],
    };
    let doc = document(vec![main, item]);
    let mut identities = IdentitySource::new();
    let description = ComponentDescription::build(&doc, 0, &mut identities).unwrap();
    // Two hidden cells, 4 of the window, 10 of the text, 10 of the touch area, 2 declared, 1 model.
    assert_eq!(description.cells.len(), 29);
    assert_eq!(
        description.items.iter().map(|i| (i.kind, i.first_slot)).collect::<Vec<_>>(),
        vec![
            (Some(ItemKind::Window), 2),
            (Some(ItemKind::Text), 6),
            (None, 16),
            (Some(ItemKind::TouchArea), 16)
        ]
    );
    assert_eq!(description.public.iter().map(|p| p.slot).collect::<Vec<_>>(), vec![26, 27]);
    assert_eq!(description.repeaters[0].model_slot, 28);
    assert_eq!((description.identity, description.repeaters[0].template.identity), (0, 1));
    assert_eq!(description.layout.field_count(), 6);
    assert_eq!(description.layout.kind(2), FieldKind::Item(ItemKind::TouchArea));
    assert_eq!(description.layout.kind(3), FieldKind::Property(Type::String));
    assert_eq!(description.layout.kind(4), FieldKind::Signal);
    assert_eq!(description.layout.kind(5), FieldKind::Repeater);
    assert_eq!(description.layout.offset(5), 72 + 168 + 168 + 16 + 16);
    assert_eq!(description.item_kind(2), None);
    assert_eq!(description.find_item_cell(3, 9), Some(25));
    assert_eq!(description.find_item_cell(3, 10), None);
    let mut instance = description.create();
    assert_eq!(instance.repeated_count(0), 2);
    assert_eq!(description.item_values(&mut instance, 2), Err(AccessError::PropertyNotFound));
    assert_eq!(description.item_values(&mut instance, 0).unwrap().len(), 4);
    assert_eq!(
        description.get_property(&mut instance, "title"),
        Ok(Value::String(String::new()))
    );
}

fn template() -> Component {
    Component { id: "t".to_string(), elements: Vec::new(), repeaters: Vec::new() }
}

#[test]
fn property_with_a_wrong_binding_has_the_default_of_its_type() {
    let mut root = plain(ItemKind::Text);
    let wrong = |property| Binding {
        property,
        expression: Expression::Invalid,
        animation: None,
        span: Span { offset: 0, length: 0 },
    };
    // The width, the text, the colour, and a truth value that the root declares.
    root.declarations.push(PropertyDeclaration { name: "on".to_string(), property_type: Type::Bool });
    root.bindings.extend([wrong(2), wrong(4), wrong(7), wrong(10)]);
    // A binding is wrong as a whole when a part of it is.
    root.bindings.push(Binding {
        property: 3,
        expression: Expression::BinaryExpression {
            lhs: Box::new(Expression::NumberLiteral(5)),
            rhs: Box::new(Expression::Invalid),
            op: BinaryOperator::Add,
        },
        animation: None,
        span: Span { offset: 0, length: 0 },
    });
    let doc = document(vec![Component { id: "Main".to_string(), elements: vec![root], repeaters: Vec::new() }]);
    let mut identities = IdentitySource::new();
    let description = ComponentDescription::build(&doc, 0, &mut identities).unwrap();
    let mut instance = description.create();
    assert_eq!(description.item_property(&mut instance, 0, 2), Ok(Value::Number(0)));
    assert_eq!(description.item_property(&mut instance, 0, 3), Ok(Value::Number(0)));
    assert_eq!(description.item_property(&mut instance, 0, 4), Ok(Value::String(String::new())));
    assert_eq!(description.item_property(&mut instance, 0, 7), Ok(Value::Color(0)));
    assert_eq!(description.get_property(&mut instance, "on"), Ok(Value::Bool(false)));
    // What is computed from something wrong is no value of any type.
    let mut store = PropertyStore::new();
    store.push_binding(Expression::Invalid);
    assert_eq!(store.get(0), Ok(Value::Void));
    store.push_binding(Expression::Default(Type::Color));
    assert_eq!(store.get(1), Ok(Value::Color(0)));
}

#[test]
fn description_is_refused_for_what_is_not_lowered() {
    let main = |component| Component {
        id: "Main".to_string(),
        elements: vec![plain(ItemKind::Rectangle)],
        repeaters: vec![Repeater { model: Expression::NumberLiteral(1), component, parent_element: 0 }],
    };
    let mut identities = IdentitySource::new();
    assert!(matches!(
        ComponentDescription::build(&document(vec![main(0)]), 0, &mut identities),
        Err(BuildError::NotLowered)
    ));
    assert!(matches!(
        ComponentDescription::build(&document(vec![main(1)]), 0, &mut identities),
        Err(BuildError::NotLowered)
    ));
    assert!(matches!(
        ComponentDescription::build(&document(Vec::new()), 0, &mut identities),
        Err(BuildError::UnknownComponent)
    ));
    let mut used_up = IdentitySource::starting_at(u64::MAX);
    assert_eq!(used_up.fresh(), None);
    assert!(matches!(
        ComponentDescription::build(&document(vec![main(1), template()]), 0, &mut used_up),
        Err(BuildError::IdentitiesExhausted)
    ));
    let mut last = IdentitySource::starting_at(u64::MAX - 1);
    assert!(matches!(
        ComponentDescription::build(&document(vec![main(1), template()]), 0, &mut last),
        Err(BuildError::IdentitiesExhausted)
    ));
    let mut enough = IdentitySource::starting_at(u64::MAX - 2);
    let description =
        ComponentDescription::build(&document(vec![main(1), template()]), 0, &mut enough).unwrap();
    assert_eq!(description.identity, u64::MAX - 2);
    assert_eq!(description.repeaters[0].template.identity, u64::MAX - 1);
    assert_eq!(enough.fresh(), None);
    let fine = document(vec![main(1), template()]);
    let description = ComponentDescription::build(&fine, 0, &mut identities).unwrap();
    assert_eq!(description.repeaters[0].template.cells.len(), 2);
}

#[test]
fn host_values_are_taken_by_the_type_of_the_property() {
    assert_eq!(to_eval_value(&HostValue::Number(3), Type::Float32), Ok(Value::Number(3)));
    assert_eq!(to_eval_value(&HostValue::Number(3), Type::Int32), Ok(Value::Number(3)));
    assert_eq!(to_eval_value(&HostValue::Text("3".to_string()), Type::Int32), Err(ConversionError::NotANumber));
    assert_eq!(
        to_eval_value(&HostValue::Text("x".to_string()), Type::String),
        Ok(Value::String("x".to_string()))
    );
    assert_eq!(to_eval_value(&HostValue::Number(3), Type::String), Err(ConversionError::NotAText));
    assert_eq!(to_eval_value(&HostValue::Boolean(true), Type::Bool), Ok(Value::Bool(true)));
    assert_eq!(to_eval_value(&HostValue::Undefined, Type::Bool), Err(ConversionError::NotABoolean));
    assert_eq!(to_eval_value(&HostValue::Number(1), Type::Color), Err(ConversionError::Unsupported));
    assert_eq!(to_eval_value(&HostValue::Number(1), Type::Image), Err(ConversionError::Unsupported));
    for ty in [Type::Invalid, Type::Signal, Type::Component(0), Type::Builtin(ItemKind::Text)] {
        assert_eq!(to_eval_value(&HostValue::Number(1), ty), Err(ConversionError::NotAProperty));
    }
}

#[test]
fn instance_is_made_with_the_arguments_of_the_host() {
    let mut root = plain(ItemKind::Rectangle);
    for (name, property_type) in [("size", Type::Int32), ("label", Type::String), ("done", Type::Signal)] {
        root.declarations.push(PropertyDeclaration { name: name.to_string(), property_type });
    }
    root.bindings.push(Binding {
        property: 2,
        expression: Expression::PropertyReference { element: 0, property: 5 },
        animation: None,
        span: Span { offset: 0, length: 0 },
    });
    let doc = document(vec![Component { id: "Main".to_string(), elements: vec![root], repeaters: Vec::new() }]);
    let mut identities = IdentitySource::new();
    let description = ComponentDescription::build(&doc, 0, &mut identities).unwrap();
    let argument = |name: &str, value| Argument { name: name.to_string(), value };
    let mut instance = create(
        &description,
        &vec![
            argument("size", HostValue::Number(1)),
            argument("label", HostValue::Text("ok".to_string())),
            argument("size", HostValue::Number(8)),
        ],
    )
    .unwrap();
    assert_eq!(description.item_property(&mut instance, 0, 2), Ok(Value::Number(8)));
    assert_eq!(description.get_property(&mut instance, "label"), Ok(Value::String("ok".to_string())));
    let failure = |arguments| create(&description, &arguments).err();
    assert_eq!(
        failure(vec![argument("size", HostValue::Number(1)), argument("sizes", HostValue::Number(1))]),
        Some(CreateError::PropertyNotFound(1))
    );
    assert_eq!(
        failure(vec![argument("label", HostValue::Number(1))]),
        Some(CreateError::Conversion(0, ConversionError::NotAText))
    );
    assert_eq!(
        failure(vec![argument("done", HostValue::Number(1))]),
        Some(CreateError::Conversion(0, ConversionError::NotAProperty))
    );
    assert!(create(&description, &Vec::new()).is_ok());
}

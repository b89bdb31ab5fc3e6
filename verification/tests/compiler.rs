use sixtyfps_interpreter::compiler::{
    compile_syntax_node, CompilerConfiguration, IncludeDirectory,
};
use sixtyfps_interpreter::diagnostics::{Diagnostic, FileDiagnostics, Span};
use sixtyfps_interpreter::dynamic_component::{AccessError, IdentitySource};
use sixtyfps_interpreter::eval::{BinaryOperator, Value};
use sixtyfps_interpreter::expression_tree::Expression;
use sixtyfps_interpreter::interpreter::load;
use sixtyfps_interpreter::parser::{
    SyntaxBinding, SyntaxComponent, SyntaxDeclaration, SyntaxElement, SyntaxNode,
};
use sixtyfps_interpreter::typeregister::Type;

fn at(offset: usize) -> Span {
    Span { offset, length: 1 }
}

fn name(text: &str) -> Expression {
    Expression::Identifier { scope: String::new(), name: text.to_string() }
}

fn qualified(scope: &str, text: &str) -> Expression {
    Expression::Identifier { scope: scope.to_string(), name: text.to_string() }
}

fn plus(lhs: Expression, rhs: Expression) -> Expression {
    Expression::BinaryExpression { lhs: Box::new(lhs), rhs: Box::new(rhs), op: BinaryOperator::Add }
}

fn element(id: &str, base: &str, parent: Option<usize>) -> SyntaxElement {
    SyntaxElement {
        id: id.to_string(),
        base: base.to_string(),
        parent,
        declarations: Vec::new(),
        bindings: Vec::new(),
        repeated: None,
        states: Vec::new(),
        transitions: Vec::new(),
        span: at(0),
    }
}

fn declare(element: &mut SyntaxElement, name: &str, declared_type: &str) {
    element.declarations.push(SyntaxDeclaration {
        name: name.to_string(),
        declared_type: declared_type.to_string(),
        span: at(0),
    });
}

fn bind(element: &mut SyntaxElement, name: &str, expression: Expression, offset: usize) {
    element.bindings.push(SyntaxBinding {
        name: name.to_string(),
        expression,
        animation: None,
        span: at(offset),
    });
}

fn file(elements: Vec<SyntaxElement>) -> SyntaxNode {
    SyntaxNode {
        components: vec![SyntaxComponent { id: "Main".to_string(), elements, span: at(0) }],
    }
}

fn number(value: &Value) -> i64 {
    match value {
        Value::Number(n) => *n,
        other => panic!("not a number: {:?}", other),
    }
}

fn messages(diagnostics: &FileDiagnostics) -> Vec<(String, usize)> {
    diagnostics
        .inner
        .iter()
        .map(|d| match d {
            Diagnostic::CompilerDiagnostic(c) => (c.message.clone(), c.span.offset),
            Diagnostic::FileLoadError(text) => (text.clone(), 0),
        })
        .collect()
}

#[test]
fn names_are_bound_and_bindings_run() {
    let mut root = element("root", "Rectangle", None);
    declare(&mut root, "margin", "int32");
    declare(&mut root, "total", "int32");
    bind(&mut root, "width", Expression::NumberLiteral(100), 10);
    bind(&mut root, "total", plus(name("width"), name("margin")), 20);
    let mut child = element("inner", "Rectangle", Some(0));
    bind(&mut child, "x", qualified("root", "margin"), 30);
    let node = file(vec![root, child]);

    let mut identities = IdentitySource::new();
    let config = CompilerConfiguration::default();
    let description = load(&node, FileDiagnostics::new("main.60".to_string()), &Vec::new(), &config, &mut identities).unwrap();
    assert_eq!(description.id(), "Main");
    let declared: Vec<(String, Type)> =
        description.properties().into_iter().map(|d| (d.name, d.property_type)).collect();
    assert_eq!(
        declared,
        vec![("margin".to_string(), Type::Int32), ("total".to_string(), Type::Int32)]
    );

    let mut instance = description.create();
    assert_eq!(number(&description.get_property(&mut instance, "total").unwrap()), 100);
    description.set_property(&mut instance, "margin", Value::Number(7)).unwrap();
    assert_eq!(number(&description.get_property(&mut instance, "total").unwrap()), 107);
    // The child reads the margin of the root.
    assert_eq!(number(&description.item_property(&mut instance, 1, 0).unwrap()), 7);
    assert_eq!(
        description.get_property(&mut instance, "width").unwrap_err(),
        AccessError::PropertyNotFound
    );
}

#[test]
fn unknown_names_are_reported_once_each() {
    let mut root = element("root", "Rectangle", None);
    bind(&mut root, "width", name("nowhere"), 11);
    bind(&mut root, "height", name("nowhere"), 12);
    bind(&mut root, "colour", Expression::NumberLiteral(1), 13);
    bind(&mut root, "x", Expression::StringLiteral("left".to_string()), 14);
    let other = element("other", "Circle", Some(0));
    let node = file(vec![root, other]);

    let config = CompilerConfiguration::default();
    let diagnostics = FileDiagnostics {
        inner: Vec::new(),
        current_path: "main.60".to_string(),
    };
    let (_, build) = compile_syntax_node(&node, diagnostics, &Vec::new(), &config);
    assert!(build.has_error());
    let files = build.into_files();
    assert_eq!(files.len(), 1);
    assert_eq!(files[0].current_path, "main.60");
    assert_eq!(
        messages(&files[0]),
        vec![
            ("Unknown property colour".to_string(), 13),
            ("Unknown type Circle".to_string(), 0),
            ("Cannot find identifier nowhere".to_string(), 11),
            ("Cannot find identifier nowhere".to_string(), 12),
            ("Cannot assign to x".to_string(), 14),
        ]
    );

    let mut identities = IdentitySource::new();
    assert!(load(&node, FileDiagnostics::new("main.60".to_string()), &Vec::new(), &config, &mut identities).is_err());
}

fn widget(id: &str, width: i64) -> SyntaxComponent {
    let mut root = element("", "Rectangle", None);
    bind(&mut root, "width", Expression::NumberLiteral(width), 1);
    SyntaxComponent { id: id.to_string(), elements: vec![root], span: at(0) }
}

fn uses_widgets() -> SyntaxNode {
    let root = element("root", "Rectangle", None);
    let button = element("ok", "Button", Some(0));
    let other = element("more", "Slider", Some(0));
    file(vec![root, button, other])
}

#[test]
fn components_of_the_include_directories_are_known_as_types() {
    let directories = vec![
        IncludeDirectory { path: "ui/widgets".to_string(), components: vec![widget("Button", 30)] },
        IncludeDirectory { path: "widgets".to_string(), components: vec![widget("Slider", 40)] },
        IncludeDirectory { path: "/opt/lib".to_string(), components: Vec::new() },
    ];
    let diagnostics = || FileDiagnostics::new("ui/main.60".to_string());
    let compile = |include_paths: &[&str], directories: &Vec<IncludeDirectory>| {
        let config = CompilerConfiguration {
            embed_resources: false,
            include_paths: include_paths.iter().map(|p| p.to_string()).collect(),
        };
        let (doc, report) = compile_syntax_node(&uses_widgets(), diagnostics(), directories, &config);
        let said: Vec<String> =
            report.into_files().iter().flat_map(messages).map(|(text, _)| text).collect();
        (doc, said)
    };
    // The path is taken from the directory of the file: `ui/widgets` is searched, and
    // `widgets`, which the host has read as well, is not.
    let (doc, said) = compile(&["widgets", "/opt/lib"], &directories);
    assert_eq!(said, vec!["Unknown type Slider".to_string()]);
    assert_eq!(doc.components[0].id, "Button");
    assert_eq!(doc.root_component, doc.components.len() - 1);
    assert_eq!(doc.components[doc.root_component].id, "Main");
    // The button was inlined: its width is that of the element that is one.
    let main = &doc.components[doc.root_component];
    assert!(matches!(main.elements[1].base_type, Type::Builtin(_)));
    assert!(main.elements[1]
        .bindings
        .iter()
        .any(|b| matches!(b.expression, Expression::NumberLiteral(30))));
    // A path that starts at the root leads where it says.
    let (_, said) = compile(&["/ui/widgets"], &directories);
    assert_eq!(said, vec!["Unknown type Button".to_string(), "Unknown type Slider".to_string()]);
    // Without include paths nothing of the directories is known, and the built-in types are.
    let (doc, said) = compile(&[], &directories);
    assert_eq!(said, vec!["Unknown type Button".to_string(), "Unknown type Slider".to_string()]);
    assert_eq!(doc.components.len(), 1);
    assert!(matches!(doc.components[0].elements[0].base_type, Type::Builtin(_)));
    // A directory that could not be read is not among those handed in, and nothing fails.
    let (_, said) = compile(&["widgets", "missing"], &Vec::new());
    assert_eq!(said, vec!["Unknown type Button".to_string(), "Unknown type Slider".to_string()]);
}

#[test]
fn errors_of_the_parser_come_back_in_place_of_a_description() {
    let mut identities = IdentitySource::new();
    let config = CompilerConfiguration::default();
    let mut diagnostics = FileDiagnostics::new("main.60".to_string());
    diagnostics.push_error("Syntax error: expected LBrace".to_string(), at(18));
    let report = load(&uses_widgets(), diagnostics, &Vec::new(), &config, &mut identities)
        .err()
        .unwrap();
    assert!(report.has_error());
    let files = report.into_files();
    assert_eq!(files.len(), 1);
    // Nothing was compiled: the unknown types of the tree are not reported.
    assert_eq!(messages(&files[0]), vec![("Syntax error: expected LBrace".to_string(), 18)]);
    assert_eq!(identities.fresh(), Some(0));
}

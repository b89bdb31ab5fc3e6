use sixtyfps_interpreter::diagnostics::{
    CompilerDiagnostic, Diagnostic, FileDiagnostics, Level, Span,
};
use sixtyfps_interpreter::compiler::{compile_syntax_node, CompilerConfiguration};
use sixtyfps_interpreter::expected_errors::{
    check_expected_errors, find_markers, process_file_source,
};
use sixtyfps_interpreter::expression_tree::Expression;
use sixtyfps_interpreter::parser::{SyntaxBinding, SyntaxComponent, SyntaxElement, SyntaxNode};
use sixtyfps_interpreter::pattern::try_pattern;

/// What a parser makes of the given source. Of a well formed source it
/// makes the tree and reports nothing. Where a name stands in place of the
/// brace, it makes no tree and reports `expected LBrace` at the name.
fn parse(source: &str) -> (SyntaxNode, FileDiagnostics) {
    let mut diagnostics =
        FileDiagnostics { inner: Vec::new(), current_path: "fake.60".to_string() };
    if let Some(offset) = source.find("foo {") {
        diagnostics.inner.push(Diagnostic::CompilerDiagnostic(CompilerDiagnostic {
            message: "Syntax error: expected LBrace".to_string(),
            span: Span { offset, length: 3 },
            level: Level::Error,
        }));
        return (SyntaxNode { components: Vec::new() }, diagnostics);
    }
    // `Foo := Rectangle { x: 0px; }`
    let start = source.find("Foo").unwrap();
    let root = SyntaxElement {
        id: String::new(),
        base: "Rectangle".to_string(),
        parent: None,
        declarations: Vec::new(),
        bindings: vec![SyntaxBinding {
            name: "x".to_string(),
            expression: Expression::NumberLiteral(0),
            animation: None,
            span: Span { offset: source.find("x:").unwrap(), length: 1 },
        }],
        repeated: None,
        states: Vec::new(),
        transitions: Vec::new(),
        span: Span { offset: source.find("Rectangle").unwrap(), length: 9 },
    };
    let component = SyntaxComponent {
        id: "Foo".to_string(),
        elements: vec![root],
        span: Span { offset: start, length: 3 },
    };
    (SyntaxNode { components: vec![component] }, diagnostics)
}

/// Parses and compiles the source and holds what is reported against what
/// the source announces.
fn process(source: &str) -> bool {
    let (node, diagnostics) = parse(source);
    process_file_source(source, &node, diagnostics)
}

#[test]
fn self_test() {
    // this should succeed
    assert!(process(
        r#"
Foo := Rectangle { x: 0px; }
    "#
    ));

    // unless we expected an error
    assert!(!process(
        r#"
Foo := Rectangle { x: 0px; }
//     ^error{i want an error}
    "#
    ));

    // An error should fail
    assert!(!process(
        r#"
Foo := Rectangle foo { x:0px; }
    "#
    ));

    // An error with the proper comment should pass
    assert!(process(
        r#"
Foo := Rectangle foo { x:0px; }
//               ^error{expected LBrace}
    "#
    ));

    // But not if it is at the wrong position
    assert!(!process(
        r#"
Foo := Rectangle foo { x:0px; }
//             ^error{expected LBrace}
    "#
    ));

    // or the wrong line
    assert!(!process(
        r#"
Foo := Rectangle foo { x:0px; }

//               ^error{expected LBrace}
    "#
    ));

    // or the wrong message
    assert!(!process(
        r#"
Foo := Rectangle foo { x:0px; }
//               ^error{foo_bar}
    "#
    ));
}

#[test]
fn marker_points_at_the_line_above() {
    let source = "\nFoo := Rectangle foo { x:0px; }\n//               ^error{expected LBrace}\n";
    let markers = find_markers(source.as_bytes());
    assert_eq!(markers.len(), 1);
    assert_eq!(markers[0].offset, 18);
    assert_eq!(&source[markers[0].offset..markers[0].offset + 3], "foo");
    assert_eq!(&source[markers[0].from..markers[0].to], "expected LBrace");
    assert_eq!(markers[0].end, source.len() - 1);
}

#[test]
fn last_caret_of_a_line_counts() {
    let source = "\nabcdefghijklmnop\n// ^error{a} ^error{b}\n";
    let markers = find_markers(source.as_bytes());
    assert_eq!(markers.len(), 1);
    assert_eq!(&source[markers[0].from..markers[0].to], "b");
    assert_eq!(markers[0].offset, 14);
}

#[test]
fn line_after_a_marker_is_no_marker() {
    let source = "\nsome text\n//  ^error{one}\n//  ^error{two}\n\n//  ^error{three}\n";
    let markers = find_markers(source.as_bytes());
    let patterns: Vec<&str> = markers.iter().map(|m| &source[m.from..m.to]).collect();
    assert_eq!(patterns, vec!["one", "three"]);
}

#[test]
fn marker_needs_comment_brace_and_line_break() {
    assert_eq!(find_markers(b"\nx\n  ^error{no comment}\n").len(), 0);
    assert_eq!(find_markers(b"\nx\n// ^error{no line break}").len(), 0);
    assert_eq!(find_markers(b"\nx\n// ^error{text after} x\n").len(), 0);
    assert_eq!(find_markers(b"// ^error{first line}\n").len(), 0);
    assert_eq!(find_markers(b"\nx\n   // ^error{indented}\n").len(), 1);
}

#[test]
fn each_marker_takes_one_diagnostic() {
    let source = "\nabc\n// ^error{twice}\n\nabc\n// ^error{twice}\n";
    let error = |offset: usize| {
        Diagnostic::CompilerDiagnostic(CompilerDiagnostic {
            message: "said twice".to_string(),
            span: Span { offset, length: 1 },
            level: Level::Error,
        })
    };
    let both = FileDiagnostics {
        inner: vec![error(4), error(26)],
        current_path: "fake.60".to_string(),
    };
    assert!(check_expected_errors(source, &both));
    let one = FileDiagnostics { inner: vec![error(4)], current_path: "fake.60".to_string() };
    assert!(!check_expected_errors(source, &one));
    let three = FileDiagnostics {
        inner: vec![error(4), error(26), error(26)],
        current_path: "fake.60".to_string(),
    };
    assert!(!check_expected_errors(source, &three));
}

#[test]
fn broken_pattern_fails_the_check() {
    let source = "\nabc\n// ^error{(}\n";
    let diagnostics = FileDiagnostics {
        inner: vec![Diagnostic::CompilerDiagnostic(CompilerDiagnostic {
            message: "(".to_string(),
            span: Span { offset: 4, length: 1 },
            level: Level::Error,
        })],
        current_path: "fake.60".to_string(),
    };
    assert!(!check_expected_errors(source, &diagnostics));
}

#[test]
fn file_load_errors_are_never_announced() {
    let source = "\nabc\n// ^error{.*}\n";
    let diagnostics = FileDiagnostics {
        inner: vec![Diagnostic::FileLoadError("abc".to_string())],
        current_path: "fake.60".to_string(),
    };
    assert!(!check_expected_errors(source, &diagnostics));
}

#[test]
fn patterns_are_regular_expressions() {
    assert_eq!(try_pattern("expected L.*e", "Syntax error: expected LBrace"), Some(true));
    assert_eq!(try_pattern("^expected", "Syntax error: expected LBrace"), Some(false));
    assert_eq!(try_pattern("a{2,}", "caab"), Some(true));
    assert_eq!(try_pattern("a{2,}", "cab"), Some(false));
    // A pattern is not the text it matches.
    assert_eq!(try_pattern("a+", "a+"), Some(true));
    assert_eq!(try_pattern("a\\+", "aaa"), Some(false));
    assert_eq!(try_pattern("foo(bar", "foo(bar"), None);
}

#[test]
fn well_formed_file_compiles_without_a_word() {
    let source = "\nFoo := Rectangle { x: 0px; }\n    ";
    let (node, diagnostics) = parse(source);
    let (doc, report) =
        compile_syntax_node(&node, diagnostics, &Vec::new(), &CompilerConfiguration::default());
    assert!(!report.has_error());
    let files = report.into_files();
    assert_eq!(files.len(), 1);
    assert_eq!(files[0].current_path, "fake.60");
    assert!(files[0].is_empty());
    assert!(check_expected_errors(source, &files[0]));
    assert_eq!(doc.components.len(), 1);
    assert_eq!(doc.components[0].id, "Foo");
    // With a marker the same file fails: nothing is reported where the marker points.
    let marked = "\nFoo := Rectangle { x: 0px; }\n//     ^error{i want an error}\n    ";
    assert!(!check_expected_errors(marked, &files[0]));
    // What the compiler itself reports is held against the markers too.
    let wrong = "\nFoo := Rectangle { x: 0px; }\n//                 ^error{Unknown property}\n";
    let (mut node, diagnostics) = parse(wrong);
    node.components[0].elements[0].bindings[0].name = "z".to_string();
    assert_eq!(node.components[0].elements[0].bindings[0].span.offset, 20);
    assert!(process_file_source(wrong, &node, diagnostics));
    let (mut node, diagnostics) = parse(source);
    node.components[0].elements[0].bindings[0].name = "z".to_string();
    assert!(!process_file_source(source, &node, diagnostics));
}

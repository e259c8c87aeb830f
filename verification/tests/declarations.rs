use rust_code_scaner::indexer::code_parser::{CodeParser, PythonParser, RawSnippet, SnippetType};
use rust_code_scaner::indexer::declarations::{check_collectable, find_parent, is_declaration};
use rust_code_scaner::indexer::syntax::SyntaxNode;

fn node(kind: &str, start: usize, end: usize, depth: usize, name: Option<(usize, usize)>) -> SyntaxNode {
    SyntaxNode {
        kind: kind.to_string(),
        start_byte: start,
        end_byte: end,
        start_row: 0,
        end_row: 0,
        name_range: name,
        depth,
    }
}

#[test]
fn declaration_kinds() {
    for k in [
        "function_definition",
        "lambda",
        "async_function_def",
        "if_statement",
        "for_statement",
        "while_statement",
        "try_statement",
        "with_statement",
    ] {
        assert!(is_declaration(k));
    }
    assert!(!is_declaration("class_definition"));
    assert!(!is_declaration("module"));
}

#[test]
fn method_under_class_definition_node() {
    // module > class_definition > function_definition (hand-built tree).
    let source = "class A: def m(): pass".to_string();
    let nodes = vec![
        node("module", 0, 22, 0, None),
        node("class_definition", 0, 22, 1, Some((6, 7))),
        node("function_definition", 9, 22, 2, Some((13, 14))),
        node("if_statement", 18, 22, 3, None),
    ];
    let parser = PythonParser::new();
    let mut out: Vec<RawSnippet> = Vec::new();
    parser.collect_declarations(&source, &nodes, &mut out);
    assert_eq!(out.len(), 1);
    assert_eq!(out[0].original_code, "def m(): pass");
    assert_eq!(out[0].name, Some("m".to_string()));
    assert_eq!(out[0].snippet_type, SnippetType::Method);
}

#[test]
fn nested_declarations_are_reported_once() {
    let source = "if a:\n  for b in c: pass\nwhile d: pass".to_string();
    let nodes = vec![
        node("module", 0, 38, 0, None),
        node("if_statement", 0, 24, 1, None),
        node("block", 8, 24, 2, None),
        node("for_statement", 8, 24, 3, None),
        node("while_statement", 25, 38, 1, None),
    ];
    let parser = PythonParser::new();
    let mut out: Vec<RawSnippet> = Vec::new();
    parser.collect_declarations(&source, &nodes, &mut out);
    assert_eq!(out.len(), 2);
    assert_eq!(out[0].snippet_type, SnippetType::IfBlock);
    assert_eq!(out[0].original_code, "if a:\n  for b in c: pass");
    assert_eq!(out[1].snippet_type, SnippetType::WhileLoop);
    assert_eq!(out[1].name, Some("anonymous".to_string()));
}

#[test]
fn collection_appends() {
    let source = "while d: pass".to_string();
    let nodes = vec![node("module", 0, 13, 0, None), node("while_statement", 0, 13, 1, None)];
    let parser = PythonParser::new();
    let mut out: Vec<RawSnippet> = Vec::new();
    parser.collect_declarations(&source, &nodes, &mut out);
    parser.collect_declarations(&source, &nodes, &mut out);
    assert_eq!(out.len(), 2);
}

#[test]
fn name_that_splits_a_character_is_anonymous() {
    let source = "def é(): pass".to_string();
    let nodes = vec![
        node("module", 0, 14, 0, None),
        node("function_definition", 0, 14, 1, Some((4, 5))),
    ];
    let parser = PythonParser::new();
    let mut out: Vec<RawSnippet> = Vec::new();
    parser.collect_declarations(&source, &nodes, &mut out);
    assert_eq!(out[0].name, Some("anonymous".to_string()));
    assert_eq!(out[0].original_code, "def é(): pass");
}

#[test]
fn parents_are_found() {
    let nodes = vec![
        node("module", 0, 10, 0, None),
        node("a", 0, 5, 1, None),
        node("b", 0, 5, 2, None),
        node("c", 5, 10, 1, None),
    ];
    assert_eq!(find_parent(&nodes, 0), None);
    assert_eq!(find_parent(&nodes, 1), Some(0));
    assert_eq!(find_parent(&nodes, 2), Some(1));
    assert_eq!(find_parent(&nodes, 3), Some(0));
}

#[test]
fn collectable_checks() {
    let bytes = "aé".as_bytes().to_vec();
    assert!(check_collectable(&bytes, &vec![node("module", 0, 3, 0, None)]));
    // Only reported nodes are checked: a module ending inside 'é' is fine.
    assert!(check_collectable(&bytes, &vec![node("module", 0, 2, 0, None)]));
    // A reported declaration without a parent.
    assert!(!check_collectable(&bytes, &vec![node("lambda", 0, 1, 0, None)]));
    // A reported declaration that ends inside 'é'.
    assert!(!check_collectable(
        &bytes,
        &vec![node("module", 0, 3, 0, None), node("lambda", 0, 2, 1, None)]
    ));
    // A reported declaration whose name range lies beyond the text.
    assert!(!check_collectable(
        &bytes,
        &vec![node("module", 0, 3, 0, None), node("lambda", 0, 1, 1, Some((0, 9)))]
    ));
    assert!(check_collectable(
        &bytes,
        &vec![node("module", 0, 3, 0, None), node("lambda", 0, 1, 1, Some((0, 1)))]
    ));
}

#[test]
fn decorated_method_is_a_method() {
    let source = "class A:\n    @dec\n    def m(self):\n        pass\n".to_string();
    let mut parser = PythonParser::new();
    let out = parser.extract_snippets(&source).unwrap();
    assert_eq!(out.len(), 1);
    assert_eq!(out[0].snippet_type, SnippetType::Method);
    assert_eq!(out[0].name, Some("m".to_string()));
    assert_eq!(out[0].original_code, "def m(self):\n        pass");
}

#[test]
fn lambda_and_with_statements() {
    let source = "f = lambda x: x\nwith open(p) as h:\n    pass\n".to_string();
    let mut parser = PythonParser::new();
    let out = parser.extract_snippets(&source).unwrap();
    assert_eq!(out.len(), 2);
    assert_eq!(out[0].snippet_type, SnippetType::Lambda);
    assert_eq!(out[0].original_code, "lambda x: x");
    assert_eq!(out[0].name, Some("anonymous".to_string()));
    assert_eq!(out[1].snippet_type, SnippetType::ErrorHandler);
    assert_eq!(out[1].start_line, 1);
    assert_eq!(out[1].end_line, 2);
}

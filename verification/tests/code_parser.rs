use rust_code_scaner::indexer::code_parser::{
    CodeParser, ParserError, PythonParser, RawSnippet, SnippetType, SnippetTypeMapper,
};

#[test]
fn python_function_inside_class_is_method() {
    assert_eq!(
        SnippetTypeMapper::from_python_node("function_definition", Some("class_definition")),
        SnippetType::Method
    );
    assert_eq!(
        SnippetTypeMapper::from_python_node("function_definition", Some("block")),
        SnippetType::Function
    );
    assert_eq!(
        SnippetTypeMapper::from_python_node("function_definition", None),
        SnippetType::Function
    );
}

#[test]
fn python_node_kinds() {
    assert_eq!(SnippetTypeMapper::from_python_node("class_definition", None), SnippetType::Class);
    assert_eq!(SnippetTypeMapper::from_python_node("lambda", Some("call")), SnippetType::Lambda);
    assert_eq!(
        SnippetTypeMapper::from_python_node("async_function_def", None),
        SnippetType::AsyncFunction
    );
    assert_eq!(SnippetTypeMapper::from_python_node("if_statement", None), SnippetType::IfBlock);
    assert_eq!(SnippetTypeMapper::from_python_node("for_statement", None), SnippetType::ForLoop);
    assert_eq!(SnippetTypeMapper::from_python_node("while_statement", None), SnippetType::WhileLoop);
    assert_eq!(SnippetTypeMapper::from_python_node("try_statement", None), SnippetType::TryCatch);
    assert_eq!(
        SnippetTypeMapper::from_python_node("with_statement", None),
        SnippetType::ErrorHandler
    );
    assert_eq!(SnippetTypeMapper::from_python_node("module", None), SnippetType::Unknown);
    assert_eq!(SnippetTypeMapper::from_python_node("", None), SnippetType::Unknown);
}

#[test]
fn java_node_kinds() {
    assert_eq!(SnippetTypeMapper::from_java_node("method_declaration"), SnippetType::Method);
    assert_eq!(SnippetTypeMapper::from_java_node("class_declaration"), SnippetType::Class);
    assert_eq!(SnippetTypeMapper::from_java_node("interface_declaration"), SnippetType::Interface);
    assert_eq!(SnippetTypeMapper::from_java_node("enum_declaration"), SnippetType::Enum);
    assert_eq!(
        SnippetTypeMapper::from_java_node("constructor_declaration"),
        SnippetType::Constructor
    );
    assert_eq!(SnippetTypeMapper::from_java_node("lambda_expression"), SnippetType::Lambda);
    assert_eq!(SnippetTypeMapper::from_java_node("if_statement"), SnippetType::IfBlock);
    assert_eq!(SnippetTypeMapper::from_java_node("for_statement"), SnippetType::ForLoop);
    assert_eq!(SnippetTypeMapper::from_java_node("while_statement"), SnippetType::WhileLoop);
    assert_eq!(SnippetTypeMapper::from_java_node("try_statement"), SnippetType::TryCatch);
    assert_eq!(SnippetTypeMapper::from_java_node("catch_clause"), SnippetType::ErrorHandler);
    assert_eq!(SnippetTypeMapper::from_java_node("function_definition"), SnippetType::Unknown);
}

#[test]
fn cpp_node_kinds() {
    assert_eq!(SnippetTypeMapper::from_cpp_node("function_definition"), SnippetType::Function);
    assert_eq!(SnippetTypeMapper::from_cpp_node("method_definition"), SnippetType::Method);
    assert_eq!(SnippetTypeMapper::from_cpp_node("class_specifier"), SnippetType::Class);
    assert_eq!(SnippetTypeMapper::from_cpp_node("struct_specifier"), SnippetType::Struct);
    assert_eq!(SnippetTypeMapper::from_cpp_node("lambda_expression"), SnippetType::Lambda);
    assert_eq!(SnippetTypeMapper::from_cpp_node("if_statement"), SnippetType::IfBlock);
    assert_eq!(SnippetTypeMapper::from_cpp_node("for_statement"), SnippetType::ForLoop);
    assert_eq!(SnippetTypeMapper::from_cpp_node("while_statement"), SnippetType::WhileLoop);
    assert_eq!(SnippetTypeMapper::from_cpp_node("try_statement"), SnippetType::TryCatch);
    assert_eq!(SnippetTypeMapper::from_cpp_node("catch_clause"), SnippetType::ErrorHandler);
    assert_eq!(
        SnippetTypeMapper::from_cpp_node("template_declaration"),
        SnippetType::TemplateFunction
    );
    assert_eq!(SnippetTypeMapper::from_cpp_node("namespace_definition"), SnippetType::Unknown);
}

fn snippet(code: &str) -> RawSnippet {
    RawSnippet {
        original_code: code.to_string(),
        start_line: 0,
        end_line: 0,
        name: None,
        snippet_type: SnippetType::Function,
    }
}

#[test]
fn extract_top_level_declarations() {
    let source = "def foo(x):\n    return x\n\nclass A:\n    def bar(self):\n        if self:\n            pass\n".to_string();
    let mut parser = PythonParser::new();
    let snippets = parser.extract_snippets(&source).unwrap();
    assert_eq!(snippets.len(), 2);
    assert_eq!(snippets[0].original_code, "def foo(x):\n    return x");
    assert_eq!(snippets[0].start_line, 0);
    assert_eq!(snippets[0].end_line, 1);
    assert_eq!(snippets[0].name, Some("foo".to_string()));
    assert_eq!(snippets[0].snippet_type, SnippetType::Function);
    assert_eq!(
        snippets[1].original_code,
        "def bar(self):\n        if self:\n            pass"
    );
    assert_eq!(snippets[1].start_line, 4);
    assert_eq!(snippets[1].end_line, 6);
    assert_eq!(snippets[1].name, Some("bar".to_string()));
    // A def in a class body is a method.
    assert_eq!(snippets[1].snippet_type, SnippetType::Method);
}

#[test]
fn nested_def_in_function_is_a_function() {
    let source = "def outer():\n    pass\nclass B:\n    x = 1\n    def m(self):\n        pass\n".to_string();
    let mut parser = PythonParser::new();
    let snippets = parser.extract_snippets(&source).unwrap();
    assert_eq!(snippets.len(), 2);
    assert_eq!(snippets[0].snippet_type, SnippetType::Function);
    assert_eq!(snippets[1].snippet_type, SnippetType::Method);
    assert_eq!(snippets[1].name, Some("m".to_string()));
}

#[test]
fn extract_anonymous_statements() {
    let source = "for i in range(3):\n    print(i)\nwhile True:\n    break\n".to_string();
    let mut parser = PythonParser::new();
    let snippets = parser.extract_snippets(&source).unwrap();
    assert_eq!(snippets.len(), 2);
    assert_eq!(snippets[0].snippet_type, SnippetType::ForLoop);
    assert_eq!(snippets[0].name, Some("anonymous".to_string()));
    assert_eq!(snippets[0].original_code, "for i in range(3):\n    print(i)");
    assert_eq!(snippets[1].snippet_type, SnippetType::WhileLoop);
    assert_eq!(snippets[1].start_line, 2);
    assert_eq!(snippets[1].end_line, 3);
}

#[test]
fn extract_from_empty_source() {
    let mut parser = PythonParser::new();
    let snippets = parser.extract_snippets(&String::new()).unwrap();
    assert!(snippets.is_empty());
}

#[test]
fn normalize_removes_comments_and_renames() {
    let mut parser = PythonParser::new();
    let raw = snippet("def foo(x):\n    # comment\n    return x + 1");
    let norm = parser.normalize_snippet(&raw).unwrap();
    assert_eq!(norm.normalize_code, "def func1(var1):\n    \n    return var1 + 1");
    assert!(norm.tokens.is_empty());
    assert_eq!(norm.ast_simplified, "");
}

#[test]
fn normalize_numbers_names_from_the_end() {
    let mut parser = PythonParser::new();
    let raw = snippet("class A:\n    def m(self, y):\n        return self");
    let norm = parser.normalize_snippet(&raw).unwrap();
    assert_eq!(
        norm.normalize_code,
        "class func2:\n    def func1(var1, var2):\n        return var1"
    );
}

#[test]
fn normalize_removes_docstrings() {
    let mut parser = PythonParser::new();
    let raw = snippet("def f():\n    \"\"\"doc\"\"\"\n    return 1");
    let norm = parser.normalize_snippet(&raw).unwrap();
    assert_eq!(norm.normalize_code, "def func1():\n    \n    return 1");
}

#[test]
fn parser_error_variants() {
    let e = ParserError::RemoveCommentsError(Box::new(ParserError::ParseError("x".to_string())));
    match e {
        ParserError::RemoveCommentsError(inner) => match *inner {
            ParserError::ParseError(m) => assert_eq!(m, "x"),
            _ => panic!("wrong inner error"),
        },
        _ => panic!("wrong error"),
    }
}

#[test]
fn environment_values_hold_the_token() {
    let env = rust_code_scaner::EnviromentValues::new("postgres://db".to_string(), "tok".to_string());
    assert_eq!(env.database_url, "postgres://db");
    assert_eq!(env.github_token, Some("tok".to_string()));
}

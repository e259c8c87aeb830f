use rust_code_scaner::indexer::code_parser::{
    remove_comments, tokenize_code, CodeParser, ParserError, PythonParser, RawSnippet, SnippetType,
};
use rust_code_scaner::indexer::normalize::{rename_identifiers, replace_token, strip_ranges};
use rust_code_scaner::indexer::text::{
    bytes_to_string_checked, decimal_bytes, sort_ranges_desc, str_equal,
};

#[test]
fn decimal_rendering() {
    assert_eq!(decimal_bytes(0), b"0".to_vec());
    assert_eq!(decimal_bytes(7), b"7".to_vec());
    assert_eq!(decimal_bytes(10), b"10".to_vec());
    assert_eq!(decimal_bytes(123), b"123".to_vec());
}

#[test]
fn string_equality() {
    assert!(str_equal("lambda", "lambda"));
    assert!(!str_equal("lambda", "lambdas"));
    assert!(!str_equal("é", "e"));
    assert!(str_equal("", ""));
}

#[test]
fn utf8_decoding() {
    assert_eq!(bytes_to_string_checked(vec![0xc3, 0xa9]), Some("é".to_string()));
    assert_eq!(bytes_to_string_checked(vec![0xc3]), None);
}

#[test]
fn sort_is_descending_and_stable() {
    let v = vec![(1, 2), (5, 6), (1, 4), (3, 3), (5, 5)];
    assert_eq!(sort_ranges_desc(&v), vec![(5, 6), (5, 5), (3, 3), (1, 2), (1, 4)]);
}

#[test]
fn strip_disjoint_ranges() {
    let code = "abcdefgh".to_string();
    assert_eq!(strip_ranges(&code, &vec![(1, 3), (5, 6)]), Some("adegh".to_string()));
    assert_eq!(strip_ranges(&code, &vec![]), Some("abcdefgh".to_string()));
    assert_eq!(strip_ranges(&code, &vec![(0, 8)]), Some(String::new()));
}

#[test]
fn strip_applies_removals_from_the_last_start() {
    // Overlapping ranges: [4, 6) is removed first, then [2, 5) of what is left.
    let code = "abcdefgh".to_string();
    assert_eq!(strip_ranges(&code, &vec![(2, 5), (4, 6)]), Some("abh".to_string()));
}

#[test]
fn strip_refuses_bad_ranges() {
    let code = "aé".to_string();
    // Byte 2 is inside 'é'.
    assert_eq!(strip_ranges(&code, &vec![(0, 2)]), None);
    assert_eq!(strip_ranges(&code, &vec![(1, 9)]), None);
    assert_eq!(strip_ranges(&code, &vec![(2, 1)]), None);
    assert_eq!(strip_ranges(&code, &vec![(1, 3)]), Some("a".to_string()));
}

#[test]
fn replace_identifiers_by_first_appearance_from_the_end() {
    let code = "a b a c".to_string();
    let toks = vec![(0, 1), (2, 3), (4, 5), (6, 7)];
    // Taken from the last token: c -> var1, a -> var2, b -> var3.
    assert_eq!(replace_token(code, &toks, "identifier"), Some("var2 var3 var2 var1".to_string()));
}

#[test]
fn replace_function_names() {
    let code = "f(g)".to_string();
    assert_eq!(replace_token(code, &vec![(0, 1), (2, 3)], "function"), Some("func2(func1)".to_string()));
}

#[test]
fn replace_with_unknown_type_keeps_code() {
    let code = "a b".to_string();
    assert_eq!(replace_token(code, &vec![(0, 1)], "keyword"), Some("a b".to_string()));
    let code = "a b".to_string();
    assert_eq!(replace_token(code, &vec![(0, 9)], "keyword"), None);
}

#[test]
fn replace_refuses_bad_ranges() {
    assert_eq!(replace_token("ab".to_string(), &vec![(1, 5)], "identifier"), None);
    assert_eq!(replace_token("é".to_string(), &vec![(0, 1)], "identifier"), None);
}

#[test]
fn rename_keeps_declared_names_for_functions() {
    let code = "def f(x): return x".to_string();
    let all = vec![(4, 5), (6, 7), (17, 18)];
    let decl = vec![(4, 5)];
    assert_eq!(
        rename_identifiers(code, &all, &decl),
        Some("def func1(var1): return var1".to_string())
    );
}

#[test]
fn remove_comments_with_multibyte_text() {
    let code = "x = 'é'  # café\ny = 1\n".to_string();
    assert_eq!(remove_comments(&code).unwrap(), "x = 'é'  \ny = 1\n");
}

#[test]
fn remove_comments_keeps_code_without_comments() {
    let code = "x = 1\n".to_string();
    assert_eq!(remove_comments(&code).unwrap(), "x = 1\n");
}

#[test]
fn tokenize_renames_and_returns_no_tokens() {
    let (code, tokens) = tokenize_code("def f(a, b):\n    return a\n".to_string()).unwrap();
    assert_eq!(code, "def func1(var1, var2):\n    return var1\n");
    assert!(tokens.is_empty());
}

#[test]
fn tokenize_renames_names_in_place() {
    let (code, _) = tokenize_code("x = 1\ndef f():\n    pass".to_string()).unwrap();
    assert_eq!(code, "var1 = 1\ndef func1():\n    pass");
    let (code, _) = tokenize_code("zz = 1\ndef f():\n    pass\n".to_string()).unwrap();
    assert_eq!(code, "var1 = 1\ndef func1():\n    pass\n");
}

#[test]
fn tokenize_renames_multibyte_names() {
    let (code, _) = tokenize_code("abc=1\ndef é(): pass".to_string()).unwrap();
    assert_eq!(code, "var1=1\ndef func1(): pass");
}

#[test]
fn renaming_identifiers_keeps_the_normal_form() {
    let mut parser = PythonParser::new();
    let mut s1 = RawSnippet {
        original_code: "ab = 1\ndef f(): pass".to_string(),
        start_line: 0,
        end_line: 0,
        name: None,
        snippet_type: SnippetType::Function,
    };
    let n1 = parser.normalize_snippet(&s1).unwrap().normalize_code;
    s1.original_code = "x = 1\ndef g(): pass".to_string();
    let n2 = parser.normalize_snippet(&s1).unwrap().normalize_code;
    assert_eq!(n1, "var1 = 1\ndef func1(): pass");
    assert_eq!(n1, n2);
}

#[test]
fn normalizing_twice_gives_the_same_result() {
    let mut parser = PythonParser::new();
    let raw = RawSnippet {
        original_code: "def f(a):\n    # c\n    return a".to_string(),
        start_line: 0,
        end_line: 0,
        name: None,
        snippet_type: SnippetType::Function,
    };
    let a = parser.normalize_snippet(&raw).unwrap().normalize_code;
    let b = parser.normalize_snippet(&raw).unwrap().normalize_code;
    assert_eq!(a, b);
    let (again, _) = tokenize_code(a.clone()).unwrap();
    assert_eq!(again, a);
}

#[test]
fn rename_identifiers_at_once() {
    // Declared names and other identifiers are renamed at their own ranges.
    let code = "ab=c\ndef f(): pass".to_string();
    let all = vec![(0, 2), (3, 4), (9, 10)];
    let decl = vec![(9, 10)];
    assert_eq!(
        rename_identifiers(code, &all, &decl),
        Some("var2=var1\ndef func1(): pass".to_string())
    );
    assert_eq!(rename_identifiers("ab".to_string(), &vec![(0, 3)], &vec![]), None);
}

#[test]
fn parser_error_messages() {
    let e = ParserError::TokenizeCodeError(Box::new(ParserError::ParseError("m".to_string())));
    assert!(matches!(e, ParserError::TokenizeCodeError(_)));
}

#[test]
fn renaming_a_renamed_text_keeps_it() {
    let code = "var2=var1\ndef func1(): pass".to_string();
    let all = vec![(0, 4), (5, 9), (14, 19)];
    let decl = vec![(14, 19)];
    assert_eq!(
        rename_identifiers(code.clone(), &all, &decl),
        Some(code)
    );
}

#[test]
fn renaming_ignores_the_identifier_texts() {
    let a = rename_identifiers("ab=c\ndef f(): pass".to_string(), &vec![(0, 2), (3, 4), (9, 10)], &vec![(9, 10)]);
    let b = rename_identifiers("xy=z\ndef g(): pass".to_string(), &vec![(0, 2), (3, 4), (9, 10)], &vec![(9, 10)]);
    assert_eq!(a, b);
    let c = rename_identifiers("def f(x): return x".to_string(), &vec![(4, 5), (6, 7), (17, 18)], &vec![(4, 5)]);
    let d = rename_identifiers("def g(yy): return yy".to_string(), &vec![(4, 5), (6, 8), (18, 20)], &vec![(4, 5)]);
    assert_eq!(c, Some("def func1(var1): return var1".to_string()));
    assert_eq!(c, d);
}

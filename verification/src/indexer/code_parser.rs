//! Snippet extraction and normalization for Python sources.
use crate::indexer::declarations::{
    check_collectable, collectable, collected, find_parent, is_collected, is_declaration,
    lemma_skip_step, skip_inv, skips, snippet_at, snippet_for,
};
use crate::indexer::normalize::{
    all_edit_ok, kept_bytes, law_renaming_a_normal_form_keeps_it, law_renaming_keeps_the_normal_form,
    law_strip_removes_exactly_the_ranges, names_of, pairwise_disjoint, rename_identifiers,
    renamable, renamed, renamed_through, strip_ranges, stripped, token_texts,
    without,
};
use crate::indexer::syntax::{
    nodes_view, parse_python, python_nodes, python_query_captures, query_captures, syntax_nodes,
    SyntaxNode,
};
use crate::indexer::text::{sort_desc_by_start, str_equal, string_bytes, utf8_bytes};
use vstd::prelude::*;

verus! {

/// Declares `std::io::Error` to Verus, as an opaque type.
#[verifier::external_type_specification]
#[verifier::external_body]
pub struct ExIoError(std::io::Error);

/// Errors of parsing and normalizing code.
#[derive(Debug)]
pub enum ParserError {
    ParseError(String),
    IoError(std::io::Error),
    RemoveCommentsError(Box<ParserError>),
    TokenizeCodeError(Box<ParserError>),
}

pub enum SourceLanguage {
    Python,
}

/// A fragment of source code: a declaration or a compound statement.
#[derive(Debug)]
pub struct RawSnippet {
    pub original_code: String,
    pub start_line: u32,
    pub end_line: u32,
    pub name: Option<String>,
    pub snippet_type: SnippetType,
}

/// A snippet as a mathematical value.
pub struct RawSnippetView {
    pub original_code: Seq<char>,
    pub start_line: u32,
    pub end_line: u32,
    pub name: Option<Seq<char>>,
    pub snippet_type: SnippetType,
}

impl View for RawSnippet {
    type V = RawSnippetView;

    open spec fn view(&self) -> RawSnippetView {
        RawSnippetView {
            original_code: self.original_code@,
            start_line: self.start_line,
            end_line: self.end_line,
            name: match self.name {
                Some(n) => Some(n@),
                None => None,
            },
            snippet_type: self.snippet_type,
        }
    }
}

pub open spec fn snippets_view(s: Seq<RawSnippet>) -> Seq<RawSnippetView> {
    s.map_values(|r: RawSnippet| r@)
}

#[derive(Debug, Clone, Copy, PartialEq, Eq, Hash, Structural)]
pub enum SnippetType {
    // Function-like blocks
    Function,
    Method,
    Constructor,
    Destructor,
    Lambda,
    Closure,
    Callback,
    // Classes and structures
    Class,
    Struct,
    Interface,
    Enum,
    // Control flow blocks
    IfBlock,
    ForLoop,
    WhileLoop,
    DoWhileLoop,
    SwitchCase,
    MatchBlock,
    // Error handling
    TryCatch,
    Finally,
    ErrorHandler,
    // Declarations
    VariableDeclaration,
    ConstantDeclaration,
    TypeAlias,
    ImportBlock,
    // Class or module bodies
    ClassBody,
    Module,
    Namespace,
    // Accessors
    Getter,
    Setter,
    Property,
    // Asynchrony
    AsyncFunction,
    Coroutine,
    Generator,
    // Templates and generics
    TemplateFunction,
    GenericClass,
    GenericMethod,
    // Macros
    MacroDefinition,
    MacroCall,
    // Others
    MainFunction,
    Initializer,
    Deinitializer,
    Unknown,
}

/// The result of normalizing a snippet.
#[derive(Debug)]
pub struct NormalizeSnippet {
    pub tokens: Vec<String>,
    pub normalize_code: String,
    pub ast_simplified: String,
}

/// The snippet type of a Python tree-sitter node kind, given its parent's kind.
pub open spec fn python_snippet_type(node_type: Seq<char>, parent_type: Option<Seq<char>>) -> SnippetType {
    if node_type == "function_definition"@ {
        if parent_type == Some("class_definition"@) {
            SnippetType::Method
        } else {
            SnippetType::Function
        }
    } else if node_type == "class_definition"@ {
        SnippetType::Class
    } else if node_type == "lambda"@ {
        SnippetType::Lambda
    } else if node_type == "async_function_def"@ {
        SnippetType::AsyncFunction
    } else if node_type == "if_statement"@ {
        SnippetType::IfBlock
    } else if node_type == "for_statement"@ {
        SnippetType::ForLoop
    } else if node_type == "while_statement"@ {
        SnippetType::WhileLoop
    } else if node_type == "try_statement"@ {
        SnippetType::TryCatch
    } else if node_type == "with_statement"@ {
        SnippetType::ErrorHandler
    } else {
        SnippetType::Unknown
    }
}

/// The snippet type of a Java tree-sitter node kind.
pub open spec fn java_snippet_type(node_type: Seq<char>) -> SnippetType {
    if node_type == "method_declaration"@ {
        SnippetType::Method
    } else if node_type == "class_declaration"@ {
        SnippetType::Class
    } else if node_type == "interface_declaration"@ {
        SnippetType::Interface
    } else if node_type == "enum_declaration"@ {
        SnippetType::Enum
    } else if node_type == "constructor_declaration"@ {
        SnippetType::Constructor
    } else if node_type == "lambda_expression"@ {
        SnippetType::Lambda
    } else if node_type == "if_statement"@ {
        SnippetType::IfBlock
    } else if node_type == "for_statement"@ {
        SnippetType::ForLoop
    } else if node_type == "while_statement"@ {
        SnippetType::WhileLoop
    } else if node_type == "try_statement"@ {
        SnippetType::TryCatch
    } else if node_type == "catch_clause"@ {
        SnippetType::ErrorHandler
    } else {
        SnippetType::Unknown
    }
}

/// The snippet type of a C++ tree-sitter node kind.
pub open spec fn cpp_snippet_type(node_type: Seq<char>) -> SnippetType {
    if node_type == "function_definition"@ {
        SnippetType::Function
    } else if node_type == "method_definition"@ {
        SnippetType::Method
    } else if node_type == "class_specifier"@ {
        SnippetType::Class
    } else if node_type == "struct_specifier"@ {
        SnippetType::Struct
    } else if node_type == "lambda_expression"@ {
        SnippetType::Lambda
    } else if node_type == "if_statement"@ {
        SnippetType::IfBlock
    } else if node_type == "for_statement"@ {
        SnippetType::ForLoop
    } else if node_type == "while_statement"@ {
        SnippetType::WhileLoop
    } else if node_type == "try_statement"@ {
        SnippetType::TryCatch
    } else if node_type == "catch_clause"@ {
        SnippetType::ErrorHandler
    } else if node_type == "template_declaration"@ {
        SnippetType::TemplateFunction
    } else {
        SnippetType::Unknown
    }
}

pub struct SnippetTypeMapper;

impl SnippetTypeMapper {
    pub fn from_python_node(node_type: &str, parent_type: Option<&str>) -> (r: SnippetType)
        ensures
            r == python_snippet_type(
                node_type@,
                match parent_type {
                    Some(p) => Some(p@),
                    None => None,
                },
            ),
    {
        if str_equal(node_type, "function_definition") {
            if let Some(parent) = parent_type {
                if str_equal(parent, "class_definition") {
                    SnippetType::Method
                } else {
                    SnippetType::Function
                }
            } else {
                SnippetType::Function
            }
        } else if str_equal(node_type, "class_definition") {
            SnippetType::Class
        } else if str_equal(node_type, "lambda") {
            SnippetType::Lambda
        } else if str_equal(node_type, "async_function_def") {
            SnippetType::AsyncFunction
        } else if str_equal(node_type, "if_statement") {
            SnippetType::IfBlock
        } else if str_equal(node_type, "for_statement") {
            SnippetType::ForLoop
        } else if str_equal(node_type, "while_statement") {
            SnippetType::WhileLoop
        } else if str_equal(node_type, "try_statement") {
            SnippetType::TryCatch
        } else if str_equal(node_type, "with_statement") {
            SnippetType::ErrorHandler
        } else {
            SnippetType::Unknown
        }
    }

    pub fn from_java_node(node_type: &str) -> (r: SnippetType)
        ensures
            r == java_snippet_type(node_type@),
    {
        if str_equal(node_type, "method_declaration") {
            SnippetType::Method
        } else if str_equal(node_type, "class_declaration") {
            SnippetType::Class
        } else if str_equal(node_type, "interface_declaration") {
            SnippetType::Interface
        } else if str_equal(node_type, "enum_declaration") {
            SnippetType::Enum
        } else if str_equal(node_type, "constructor_declaration") {
            SnippetType::Constructor
        } else if str_equal(node_type, "lambda_expression") {
            SnippetType::Lambda
        } else if str_equal(node_type, "if_statement") {
            SnippetType::IfBlock
        } else if str_equal(node_type, "for_statement") {
            SnippetType::ForLoop
        } else if str_equal(node_type, "while_statement") {
            SnippetType::WhileLoop
        } else if str_equal(node_type, "try_statement") {
            SnippetType::TryCatch
        } else if str_equal(node_type, "catch_clause") {
            SnippetType::ErrorHandler
        } else {
            SnippetType::Unknown
        }
    }

    pub fn from_cpp_node(node_type: &str) -> (r: SnippetType)
        ensures
            r == cpp_snippet_type(node_type@),
    {
        if str_equal(node_type, "function_definition") {
            SnippetType::Function
        } else if str_equal(node_type, "method_definition") {
            SnippetType::Method
        } else if str_equal(node_type, "class_specifier") {
            SnippetType::Class
        } else if str_equal(node_type, "struct_specifier") {
            SnippetType::Struct
        } else if str_equal(node_type, "lambda_expression") {
            SnippetType::Lambda
        } else if str_equal(node_type, "if_statement") {
            SnippetType::IfBlock
        } else if str_equal(node_type, "for_statement") {
            SnippetType::ForLoop
        } else if str_equal(node_type, "while_statement") {
            SnippetType::WhileLoop
        } else if str_equal(node_type, "try_statement") {
            SnippetType::TryCatch
        } else if str_equal(node_type, "catch_clause") {
            SnippetType::ErrorHandler
        } else if str_equal(node_type, "template_declaration") {
            SnippetType::TemplateFunction
        } else {
            SnippetType::Unknown
        }
    }
}

/// A parser that splits source files into snippets and normalizes them.
pub trait CodeParser: Send + Sync + Sized {
    /// The snippets of a source text, or `None` when it cannot be split.
    spec fn snippets_of(&self, source: Seq<char>) -> Option<Seq<RawSnippetView>>;

    /// The normal form of a snippet's code, or `None` when it cannot be normalized.
    spec fn normal_form_of(&self, code: Seq<char>) -> Option<Seq<char>>;

    fn new() -> Self;

    /// Extracts the snippets (functions, compound statements) of a source text:
    /// exactly `snippets_of`, and an error when that is `None`.
    fn extract_snippets(&mut self, source: &String) -> (res: Result<Vec<RawSnippet>, ParserError>)
        ensures
            match old(self).snippets_of(source@) {
                Some(v) => res matches Ok(r) && snippets_view(r@) == v,
                None => res is Err,
            },
    ;

    /// Normalizes a snippet: removes comments and renames identifiers. The result
    /// is exactly `normal_form_of` the snippet's code, with no tokens and an empty
    /// simplified tree, and an error when that is `None`.
    fn normalize_snippet(&mut self, snippet: &RawSnippet) -> (res: Result<NormalizeSnippet, ParserError>)
        ensures
            match old(self).normal_form_of(snippet.original_code@) {
                Some(n) => res matches Ok(r) && r.normalize_code@ == n && r.tokens@.len() == 0
                    && r.ast_simplified@ == Seq::<char>::empty(),
                None => res is Err,
            },
    ;

    /// Appends the snippets of the declarations among the nodes (a syntax tree of
    /// `source` in pre-order) that no other declaration encloses, in order.
    fn collect_declarations(
        &self,
        source: &String,
        nodes: &Vec<SyntaxNode>,
        raw_snippets: &mut Vec<RawSnippet>,
    )
        requires
            collectable(utf8_bytes(source@), nodes_view(nodes@)),
        ensures
            snippets_view(final(raw_snippets)@) == snippets_view(old(raw_snippets)@) + collected(
                utf8_bytes(source@),
                nodes_view(nodes@),
                nodes@.len() as int,
            ),
    {
        let bytes = string_bytes(source);
        let ghost ns = nodes_view(nodes@);
        let ghost start = snippets_view(raw_snippets@);
        let mut skip: Option<usize> = None;
        let mut i: usize = 0;
        while i < nodes.len()
            invariant
                i <= nodes@.len(),
                ns == nodes_view(nodes@),
                bytes@ == utf8_bytes(source@),
                collectable(bytes@, ns),
                skip_inv(ns, i as int, skip),
                snippets_view(raw_snippets@) == start + collected(bytes@, ns, i as int),
            decreases nodes@.len() - i,
        {
            proof {
                lemma_skip_step(ns, i as int, skip);
            }
            assert(ns[i as int] == nodes@[i as int]@);
            let d = nodes[i].depth;
            let covered = match skip {
                Some(sd) => d > sd,
                None => false,
            };
            assert(covered == skips(ns, i as int, skip));
            assert(collected(bytes@, ns, i + 1) == if is_collected(ns, i as int) {
                collected(bytes@, ns, i as int).push(
                    snippet_at(bytes@, ns, i as int),
                )
            } else {
                collected(bytes@, ns, i as int)
            });
            if !covered {
                if is_declaration(nodes[i].kind.as_str()) {
                    assert(ns[i as int].kind == nodes@[i as int].kind@);
                    assert(is_collected(ns, i as int));
                    match find_parent(nodes, i) {
                        Some(p) => {
                            let snippet = snippet_for(&bytes, nodes, i, p);
                            let ghost prev = raw_snippets@;
                            raw_snippets.push(snippet);
                            assert(snippets_view(raw_snippets@) =~= snippets_view(prev).push(
                                snippet@,
                            ));
                        },
                        None => {
                            assert(false);
                        },
                    }
                    skip = Some(d);
                } else {
                    skip = None;
                }
            }
            assert(snippets_view(raw_snippets@) =~= start + collected(bytes@, ns, i + 1));
            i = i + 1;
        }
    }
}

/// Captures the comments and the docstrings (strings standing as statements).
pub const COMMENT_QUERY: &'static str = "(comment) @comment (expression_statement (string) @string)";

/// Captures every identifier.
pub const IDENTIFIER_QUERY: &'static str = "(identifier) @id";

/// Captures the names of functions and classes where they are defined.
pub const DECLARATION_NAME_QUERY: &'static str =
    "(function_definition name: (identifier) @func_name) (class_definition name: (identifier) @class_name)";

/// What removing the comments and docstrings of the code gives: the code without
/// them, or the message of the error (the comment pattern does not compile, or a
/// comment cannot be removed).
pub open spec fn comment_removal(code: Seq<char>) -> Result<Seq<char>, Seq<char>> {
    match python_query_captures(code, COMMENT_QUERY@) {
        None => Err("Parsing failed"@),
        Some(r) => match stripped(code, r) {
            Some(c) => Ok(c),
            None => Err("Invalid comment range"@),
        },
    }
}

/// What renaming the identifiers of the code gives: the renamed code, or the
/// message of the error (a pattern does not compile, or an identifier cannot be
/// renamed).
pub open spec fn identifier_renaming(code: Seq<char>) -> Result<Seq<char>, Seq<char>> {
    match (
        python_query_captures(code, IDENTIFIER_QUERY@),
        python_query_captures(code, DECLARATION_NAME_QUERY@),
    ) {
        (Some(a), Some(d)) => match renamed(code, a, d) {
            Some(c) => Ok(c),
            None => Err("Invalid identifier range"@),
        },
        _ => Err("Parsing error"@),
    }
}

/// The snippets of a Python source, or `None` when a node of its tree cannot be
/// turned into a snippet.
pub open spec fn python_snippets(source: Seq<char>) -> Option<Seq<RawSnippetView>> {
    let b = utf8_bytes(source);
    let ns = python_nodes(source);
    if collectable(b, ns) {
        Some(collected(b, ns, ns.len() as int))
    } else {
        None
    }
}

/// The normal form of Python code: comments removed, then identifiers renamed.
pub open spec fn python_normal_form(code: Seq<char>) -> Option<Seq<char>> {
    match comment_removal(code) {
        Ok(c) => match identifier_renaming(c) {
            Ok(n) => Some(n),
            Err(_) => None,
        },
        Err(_) => None,
    }
}

fn parse_error(message: &str) -> (e: ParserError)
    ensures
        e matches ParserError::ParseError(m) && m@ == message@,
{
    ParserError::ParseError(message.to_owned())
}

/// Removes the comments and docstrings of Python code.
pub fn remove_comments(original_code: &String) -> (res: Result<String, ParserError>)
    ensures
        match comment_removal(original_code@) {
            Ok(c) => res matches Ok(s) && s@ == c,
            Err(m) => res matches Err(ParserError::ParseError(e)) && e@ == m,
        },
{
    let tree = match parse_python(original_code) {
        Some(t) => t,
        None => return Err(parse_error("Parsing failed")),
    };
    let ranges = match query_captures(&tree, COMMENT_QUERY) {
        Some(r) => r,
        None => return Err(parse_error("Parsing failed")),
    };
    match strip_ranges(original_code, &ranges) {
        Some(s) => Ok(s),
        None => Err(parse_error("Invalid comment range")),
    }
}

/// Renames the identifiers of Python code; the token list is left empty.
pub fn tokenize_code(code: String) -> (res: Result<(String, Vec<String>), ParserError>)
    ensures
        match identifier_renaming(code@) {
            Ok(c) => res matches Ok((n, t)) && n@ == c && t@.len() == 0,
            Err(m) => res matches Err(ParserError::ParseError(e)) && e@ == m,
        },
{
    let tree = match parse_python(&code) {
        Some(t) => t,
        None => return Err(parse_error("Parsing error")),
    };
    let all = match query_captures(&tree, IDENTIFIER_QUERY) {
        Some(r) => r,
        None => return Err(parse_error("Parsing error")),
    };
    let declared = match query_captures(&tree, DECLARATION_NAME_QUERY) {
        Some(r) => r,
        None => return Err(parse_error("Parsing error")),
    };
    match rename_identifiers(code, &all, &declared) {
        Some(c) => {
            let tokens: Vec<String> = Vec::new();
            Ok((c, tokens))
        },
        None => Err(parse_error("Invalid identifier range")),
    }
}

/// The parser of Python sources.
pub struct PythonParser {
    #[allow(dead_code)]
    language: SourceLanguage,
}

impl CodeParser for PythonParser {
    open spec fn snippets_of(&self, source: Seq<char>) -> Option<Seq<RawSnippetView>> {
        python_snippets(source)
    }

    open spec fn normal_form_of(&self, code: Seq<char>) -> Option<Seq<char>> {
        python_normal_form(code)
    }

    fn new() -> Self {
        PythonParser { language: SourceLanguage::Python }
    }

    fn extract_snippets(&mut self, source: &String) -> (res: Result<Vec<RawSnippet>, ParserError>)
        ensures
            python_snippets(source@) is None ==> (res matches Err(ParserError::ParseError(m)) && m@
                == "Invalid syntax tree"@),
    {
        let tree = match parse_python(source) {
            Some(t) => t,
            None => return Err(parse_error("Parsing failed")),
        };
        let nodes = syntax_nodes(&tree);
        let bytes = string_bytes(source);
        proof {
            vstd::utf8::encode_utf8_valid_utf8(source@);
        }
        if !check_collectable(&bytes, &nodes) {
            return Err(parse_error("Invalid syntax tree"));
        }
        let mut raw_snippets: Vec<RawSnippet> = Vec::new();
        self.collect_declarations(source, &nodes, &mut raw_snippets);
        assert(snippets_view(raw_snippets@) =~= Seq::<RawSnippetView>::empty() + collected(
            bytes@,
            nodes_view(nodes@),
            nodes@.len() as int,
        ));
        Ok(raw_snippets)
    }

    fn normalize_snippet(&mut self, snippet: &RawSnippet) -> (res: Result<NormalizeSnippet, ParserError>)
        ensures
            match comment_removal(snippet.original_code@) {
                Err(m) => res matches Err(ParserError::RemoveCommentsError(e)) && ((*e) matches ParserError::ParseError(x) && x@ == m),
                Ok(c) => match identifier_renaming(c) {
                    Err(m) => res matches Err(ParserError::TokenizeCodeError(e)) && ((*e) matches ParserError::ParseError(x) && x@ == m),
                    Ok(_) => true,
                },
            },
    {
        let no_com_code = match remove_comments(&snippet.original_code) {
            Ok(c) => c,
            Err(e) => return Err(ParserError::RemoveCommentsError(Box::new(e))),
        };
        let (normalize_code, tokens) = match tokenize_code(no_com_code) {
            Ok(p) => p,
            Err(e) => return Err(ParserError::TokenizeCodeError(Box::new(e))),
        };
        Ok(NormalizeSnippet { tokens, normalize_code, ast_simplified: String::new() })
    }
}

/// Law (tokenizing a normal form changes nothing): when the identifiers that the
/// queries find in the code already hold, by kind and ordered by decreasing
/// start, the names that a renaming gave the texts `ids` (other identifiers) and
/// `decls` (declared names), renaming the identifiers gives the code back.
pub proof fn law_tokenizing_a_normal_form_keeps_it(
    code: Seq<char>,
    all: Seq<(usize, usize)>,
    decl: Seq<(usize, usize)>,
    ids: Seq<Seq<u8>>,
    decls: Seq<Seq<u8>>,
)
    requires
        renamable(code, all, decl),
        token_texts(utf8_bytes(code), sort_desc_by_start(without(all, decl))) == names_of(
            utf8_bytes("var"@),
            ids,
        ),
        token_texts(utf8_bytes(code), sort_desc_by_start(decl)) == names_of(
            utf8_bytes("func"@),
            decls,
        ),
    ensures
        python_query_captures(code, IDENTIFIER_QUERY@) == Some(all) && python_query_captures(
            code,
            DECLARATION_NAME_QUERY@,
        ) == Some(decl) ==> identifier_renaming(code) == Ok::<Seq<char>, Seq<char>>(code),
{
    law_renaming_a_normal_form_keeps_it(code, all, decl, ids, decls);
}

/// Law (normalizing a normal form changes nothing): code in which the comment
/// query finds nothing, and whose identifiers already hold the names that a
/// renaming gave the texts `ids` and `decls` (as in
/// `law_tokenizing_a_normal_form_keeps_it`), is its own normal form.
pub proof fn law_normal_form_is_fixed(
    code: Seq<char>,
    all: Seq<(usize, usize)>,
    decl: Seq<(usize, usize)>,
    ids: Seq<Seq<u8>>,
    decls: Seq<Seq<u8>>,
)
    requires
        renamable(code, all, decl),
        token_texts(utf8_bytes(code), sort_desc_by_start(without(all, decl))) == names_of(
            utf8_bytes("var"@),
            ids,
        ),
        token_texts(utf8_bytes(code), sort_desc_by_start(decl)) == names_of(
            utf8_bytes("func"@),
            decls,
        ),
    ensures
        python_query_captures(code, COMMENT_QUERY@) == Some(Seq::<(usize, usize)>::empty())
            && python_query_captures(code, IDENTIFIER_QUERY@) == Some(all) && python_query_captures(
            code,
            DECLARATION_NAME_QUERY@,
        ) == Some(decl) ==> python_normal_form(code) == Some(code),
{
    law_renaming_a_normal_form_keeps_it(code, all, decl, ids, decls);
    let none = Seq::<(usize, usize)>::empty();
    assert(sort_desc_by_start(none) =~= none);
    assert(crate::indexer::normalize::removal_edits(none) =~= Seq::<(usize, usize, Seq<u8>)>::empty());
    vstd::utf8::encode_utf8_decode_utf8(code);
    assert(stripped(code, none) == Some(code));
}

/// Law (renaming identifiers does not change what tokenizing gives): when the
/// identifiers that the queries find in `code2` are those found in `code1`, with
/// every text replaced through one map `h` that tells the texts of each kind
/// apart and all other text kept, both codes tokenize to the same result.
pub proof fn law_tokenizing_ignores_identifier_names(
    code1: Seq<char>,
    all1: Seq<(usize, usize)>,
    decl1: Seq<(usize, usize)>,
    code2: Seq<char>,
    all2: Seq<(usize, usize)>,
    decl2: Seq<(usize, usize)>,
    h: spec_fn(Seq<u8>) -> Seq<u8>,
)
    requires
        renamable(code1, all1, decl1),
        renamable(code2, all2, decl2),
        renamed_through(h, code1, all1, decl1, code2, all2, decl2),
    ensures
        python_query_captures(code1, IDENTIFIER_QUERY@) == Some(all1) && python_query_captures(
            code1,
            DECLARATION_NAME_QUERY@,
        ) == Some(decl1) && python_query_captures(code2, IDENTIFIER_QUERY@) == Some(all2)
            && python_query_captures(code2, DECLARATION_NAME_QUERY@) == Some(decl2)
            ==> identifier_renaming(code1) == identifier_renaming(code2),
{
    law_renaming_keeps_the_normal_form(code1, all1, decl1, code2, all2, decl2, h);
}

/// Law (renaming identifiers does not change the normal form): when the codes
/// left by removing the comments of `code1` and `code2` are `c1` and `c2`, and
/// the identifiers that the queries find in `c2` are those found in `c1` with
/// every text replaced through one map `h` that tells the texts of each kind
/// apart and all other text kept, both codes have the same normal form.
pub proof fn law_normal_form_ignores_identifier_names(
    code1: Seq<char>,
    code2: Seq<char>,
    c1: Seq<char>,
    all1: Seq<(usize, usize)>,
    decl1: Seq<(usize, usize)>,
    c2: Seq<char>,
    all2: Seq<(usize, usize)>,
    decl2: Seq<(usize, usize)>,
    h: spec_fn(Seq<u8>) -> Seq<u8>,
)
    requires
        renamable(c1, all1, decl1),
        renamable(c2, all2, decl2),
        renamed_through(h, c1, all1, decl1, c2, all2, decl2),
    ensures
        comment_removal(code1) == Ok::<Seq<char>, Seq<char>>(c1) && comment_removal(code2) == Ok::<
            Seq<char>,
            Seq<char>,
        >(c2) && python_query_captures(c1, IDENTIFIER_QUERY@) == Some(all1)
            && python_query_captures(c1, DECLARATION_NAME_QUERY@) == Some(decl1)
            && python_query_captures(c2, IDENTIFIER_QUERY@) == Some(all2)
            && python_query_captures(c2, DECLARATION_NAME_QUERY@) == Some(decl2)
            ==> python_normal_form(code1) == python_normal_form(code2),
{
    law_renaming_keeps_the_normal_form(c1, all1, decl1, c2, all2, decl2, h);
}

/// Law (what a Python node is typed as): each snippet type comes from exactly one
/// node kind, and the parent matters for `function_definition` alone: it is a
/// `Method` under a `class_definition` and a `Function` anywhere else; every
/// kind outside the ten listed ones is `Unknown`.
pub proof fn law_python_snippet_types(k: Seq<char>, p: Option<Seq<char>>)
    ensures
        (python_snippet_type(k, p) == SnippetType::Method) <==> (k == "function_definition"@ && p
            == Some("class_definition"@)),
        (python_snippet_type(k, p) == SnippetType::Function) <==> (k == "function_definition"@ && p
            != Some("class_definition"@)),
        (python_snippet_type(k, p) == SnippetType::Class) <==> k == "class_definition"@,
        (python_snippet_type(k, p) == SnippetType::Lambda) <==> k == "lambda"@,
        (python_snippet_type(k, p) == SnippetType::AsyncFunction) <==> k == "async_function_def"@,
        (python_snippet_type(k, p) == SnippetType::IfBlock) <==> k == "if_statement"@,
        (python_snippet_type(k, p) == SnippetType::ForLoop) <==> k == "for_statement"@,
        (python_snippet_type(k, p) == SnippetType::WhileLoop) <==> k == "while_statement"@,
        (python_snippet_type(k, p) == SnippetType::TryCatch) <==> k == "try_statement"@,
        (python_snippet_type(k, p) == SnippetType::ErrorHandler) <==> k == "with_statement"@,
        (python_snippet_type(k, p) == SnippetType::Unknown) <==> !(k == "function_definition"@ || k
            == "class_definition"@ || k == "lambda"@ || k == "async_function_def"@ || k
            == "if_statement"@ || k == "for_statement"@ || k == "while_statement"@ || k
            == "try_statement"@ || k == "with_statement"@),
{
    reveal_strlit("function_definition");
    assert("function_definition"@.len() == 19 && "function_definition"@[0] == 'f');
    reveal_strlit("class_definition");
    assert("class_definition"@.len() == 16 && "class_definition"@[0] == 'c');
    reveal_strlit("lambda");
    assert("lambda"@.len() == 6 && "lambda"@[0] == 'l');
    reveal_strlit("async_function_def");
    assert("async_function_def"@.len() == 18 && "async_function_def"@[0] == 'a');
    reveal_strlit("if_statement");
    assert("if_statement"@.len() == 12 && "if_statement"@[0] == 'i');
    reveal_strlit("for_statement");
    assert("for_statement"@.len() == 13 && "for_statement"@[0] == 'f');
    reveal_strlit("while_statement");
    assert("while_statement"@.len() == 15 && "while_statement"@[0] == 'w');
    reveal_strlit("try_statement");
    assert("try_statement"@.len() == 13 && "try_statement"@[0] == 't');
    reveal_strlit("with_statement");
    assert("with_statement"@.len() == 14 && "with_statement"@[0] == 'w');
}

/// Law: apart from `function_definition`, the type of a Python node does not
/// depend on its parent.
pub proof fn law_python_type_ignores_parent(k: Seq<char>, p1: Option<Seq<char>>, p2: Option<Seq<char>>)
    requires
        k != "function_definition"@,
    ensures
        python_snippet_type(k, p1) == python_snippet_type(k, p2),
{
}

/// Law (what a Java node is typed as): each snippet type comes from exactly one
/// node kind, and every kind outside the eleven listed ones is `Unknown`.
pub proof fn law_java_snippet_types(k: Seq<char>)
    ensures
        (java_snippet_type(k) == SnippetType::Method) <==> k == "method_declaration"@,
        (java_snippet_type(k) == SnippetType::Class) <==> k == "class_declaration"@,
        (java_snippet_type(k) == SnippetType::Interface) <==> k == "interface_declaration"@,
        (java_snippet_type(k) == SnippetType::Enum) <==> k == "enum_declaration"@,
        (java_snippet_type(k) == SnippetType::Constructor) <==> k == "constructor_declaration"@,
        (java_snippet_type(k) == SnippetType::Lambda) <==> k == "lambda_expression"@,
        (java_snippet_type(k) == SnippetType::IfBlock) <==> k == "if_statement"@,
        (java_snippet_type(k) == SnippetType::ForLoop) <==> k == "for_statement"@,
        (java_snippet_type(k) == SnippetType::WhileLoop) <==> k == "while_statement"@,
        (java_snippet_type(k) == SnippetType::TryCatch) <==> k == "try_statement"@,
        (java_snippet_type(k) == SnippetType::ErrorHandler) <==> k == "catch_clause"@,
        (java_snippet_type(k) == SnippetType::Unknown) <==> !(k == "method_declaration"@ || k
            == "class_declaration"@ || k == "interface_declaration"@ || k == "enum_declaration"@
            || k == "constructor_declaration"@ || k == "lambda_expression"@ || k == "if_statement"@
            || k == "for_statement"@ || k == "while_statement"@ || k == "try_statement"@ || k
            == "catch_clause"@),
{
    reveal_strlit("method_declaration");
    assert("method_declaration"@.len() == 18 && "method_declaration"@[0] == 'm');
    reveal_strlit("class_declaration");
    assert("class_declaration"@.len() == 17 && "class_declaration"@[0] == 'c');
    reveal_strlit("interface_declaration");
    assert("interface_declaration"@.len() == 21 && "interface_declaration"@[0] == 'i');
    reveal_strlit("enum_declaration");
    assert("enum_declaration"@.len() == 16 && "enum_declaration"@[0] == 'e');
    reveal_strlit("constructor_declaration");
    assert("constructor_declaration"@.len() == 23 && "constructor_declaration"@[0] == 'c');
    reveal_strlit("lambda_expression");
    assert("lambda_expression"@.len() == 17 && "lambda_expression"@[0] == 'l');
    reveal_strlit("if_statement");
    assert("if_statement"@.len() == 12 && "if_statement"@[0] == 'i');
    reveal_strlit("for_statement");
    assert("for_statement"@.len() == 13 && "for_statement"@[0] == 'f');
    reveal_strlit("while_statement");
    assert("while_statement"@.len() == 15 && "while_statement"@[0] == 'w');
    reveal_strlit("try_statement");
    assert("try_statement"@.len() == 13 && "try_statement"@[0] == 't');
    reveal_strlit("catch_clause");
    assert("catch_clause"@.len() == 12 && "catch_clause"@[0] == 'c');
}

/// Law (what a C++ node is typed as): each snippet type comes from exactly one
/// node kind, and every kind outside the eleven listed ones is `Unknown`.
pub proof fn law_cpp_snippet_types(k: Seq<char>)
    ensures
        (cpp_snippet_type(k) == SnippetType::Function) <==> k == "function_definition"@,
        (cpp_snippet_type(k) == SnippetType::Method) <==> k == "method_definition"@,
        (cpp_snippet_type(k) == SnippetType::Class) <==> k == "class_specifier"@,
        (cpp_snippet_type(k) == SnippetType::Struct) <==> k == "struct_specifier"@,
        (cpp_snippet_type(k) == SnippetType::Lambda) <==> k == "lambda_expression"@,
        (cpp_snippet_type(k) == SnippetType::IfBlock) <==> k == "if_statement"@,
        (cpp_snippet_type(k) == SnippetType::ForLoop) <==> k == "for_statement"@,
        (cpp_snippet_type(k) == SnippetType::WhileLoop) <==> k == "while_statement"@,
        (cpp_snippet_type(k) == SnippetType::TryCatch) <==> k == "try_statement"@,
        (cpp_snippet_type(k) == SnippetType::ErrorHandler) <==> k == "catch_clause"@,
        (cpp_snippet_type(k) == SnippetType::TemplateFunction) <==> k == "template_declaration"@,
        (cpp_snippet_type(k) == SnippetType::Unknown) <==> !(k == "function_definition"@ || k
            == "method_definition"@ || k == "class_specifier"@ || k == "struct_specifier"@ || k
            == "lambda_expression"@ || k == "if_statement"@ || k == "for_statement"@ || k
            == "while_statement"@ || k == "try_statement"@ || k == "catch_clause"@ || k
            == "template_declaration"@),
{
    reveal_strlit("function_definition");
    assert("function_definition"@.len() == 19 && "function_definition"@[0] == 'f');
    reveal_strlit("method_definition");
    assert("method_definition"@.len() == 17 && "method_definition"@[0] == 'm');
    reveal_strlit("class_specifier");
    assert("class_specifier"@.len() == 15 && "class_specifier"@[0] == 'c');
    reveal_strlit("struct_specifier");
    assert("struct_specifier"@.len() == 16 && "struct_specifier"@[0] == 's');
    reveal_strlit("lambda_expression");
    assert("lambda_expression"@.len() == 17 && "lambda_expression"@[0] == 'l');
    reveal_strlit("if_statement");
    assert("if_statement"@.len() == 12 && "if_statement"@[0] == 'i');
    reveal_strlit("for_statement");
    assert("for_statement"@.len() == 13 && "for_statement"@[0] == 'f');
    reveal_strlit("while_statement");
    assert("while_statement"@.len() == 15 && "while_statement"@[0] == 'w');
    reveal_strlit("try_statement");
    assert("try_statement"@.len() == 13 && "try_statement"@[0] == 't');
    reveal_strlit("catch_clause");
    assert("catch_clause"@.len() == 12 && "catch_clause"@[0] == 'c');
    reveal_strlit("template_declaration");
    assert("template_declaration"@.len() == 20 && "template_declaration"@[0] == 't');
}

/// Law (removing comments deletes exactly the comments): when the comment and
/// docstring ranges that the query finds do not overlap and lie between
/// character boundaries, removing comments keeps every byte outside them, in
/// order, and nothing else, whatever order the query reports them in.
pub proof fn law_comment_removal_deletes_exactly_the_captures(code: Seq<char>, r: Seq<(usize, usize)>)
    requires
        pairwise_disjoint(r),
        all_edit_ok(utf8_bytes(code), r),
    ensures
        python_query_captures(code, COMMENT_QUERY@) == Some(r) ==> comment_removal(code) == Ok::<
            Seq<char>,
            Seq<char>,
        >(vstd::utf8::decode_utf8(kept_bytes(utf8_bytes(code), r, utf8_bytes(code).len() as int))),
{
    law_strip_removes_exactly_the_ranges(code, r);
}

} // verus!

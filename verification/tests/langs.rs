use std::str::FromStr;

use srgn::actions::replace::Replacement;
use srgn::find::Find;
use srgn::ranges::{ByteRange, Ranges};
use srgn::scoping::langs::csharp::{CSharp, CSharpQuery, CustomCSharpQuery, PreparedCSharpQuery};
use srgn::scoping::langs::rust::{CustomRustQuery, PreparedRustQuery, Rust, RustQuery};
use srgn::scoping::langs::typescript::{
    CustomTypeScriptQuery, PreparedTypeScriptQuery, TypeScript, TypeScriptQuery,
};
use srgn::scoping::langs::{
    compile, negate, scope_from_captures, validate, validated, Frobulator, Grammar, InvalidQuery,
    LanguageScoper, IGNORE,
};
use srgn::scoping::scope::Scoper;
use srgn::scoping::view::ScopedViewBuilder;
use srgn::stages::UpperStage;

fn texts<'a>(input: &'a str, scope: &Ranges) -> Vec<&'a str> {
    scope.to_vec().iter().map(|range| &input[range.start..range.end]).collect()
}

fn scoped<S: LanguageScoper>(scoper: &S, input: &'static str) -> Vec<&'static str> {
    texts(input, &scoper.scope_via_query(input))
}

fn range(start: usize, end: usize) -> ByteRange {
    ByteRange::new(start, end)
}

const RUST: &str = "use std::fmt::{self, Debug as D};\n\n/// doc\nfn f() {\n    // line\n    let s = \"str {}\";\n    let r = r#\"raw\"#;\n} /* blk */";

#[test]
fn rust_comments_are_scoped() {
    let scoper = Rust::new(RustQuery::Prepared(PreparedRustQuery::Comments)).unwrap();
    assert_eq!(scoped(&scoper, RUST), vec!["// line", "/* blk */"]);
}

#[test]
fn rust_doc_comments_are_scoped() {
    let scoper = Rust::new(RustQuery::Prepared(PreparedRustQuery::DocComments)).unwrap();
    assert_eq!(scoped(&scoper, RUST), vec!["/// doc\n"]);
}

#[test]
fn rust_uses_are_scoped() {
    let scoper = Rust::new(RustQuery::Prepared(PreparedRustQuery::Uses)).unwrap();
    assert_eq!(scoped(&scoper, RUST), vec!["std::fmt::{self, Debug as D}"]);
}

#[test]
fn rust_strings_are_scoped() {
    let scoper = Rust::new(RustQuery::Prepared(PreparedRustQuery::Strings)).unwrap();
    assert_eq!(scoped(&scoper, RUST), vec!["str {}", "raw"]);
}

const CSHARP: &str = "using System.Text;\n// line\nclass A {\n    string s = $\"a {b + \"x\"} c\";\n    string t = \"lit\";\n    string v = @\"verb\"; /* blk */\n}";

#[test]
fn csharp_comments_are_scoped() {
    let scoper = CSharp::new(CSharpQuery::Prepared(PreparedCSharpQuery::Comments)).unwrap();
    assert_eq!(scoped(&scoper, CSHARP), vec!["// line", "/* blk */"]);
}

#[test]
fn csharp_usings_are_scoped() {
    let scoper = CSharp::new(CSharpQuery::Prepared(PreparedCSharpQuery::Usings)).unwrap();
    assert_eq!(scoped(&scoper, CSHARP), vec!["System.Text"]);
}

#[test]
fn csharp_strings_are_scoped_without_what_is_interpolated() {
    let scoper = CSharp::new(CSharpQuery::Prepared(PreparedCSharpQuery::Strings)).unwrap();
    assert!(scoper.neg_query().is_some());
    assert_eq!(scoped(&scoper, CSHARP), vec!["$\"a ", " c\"", "\"lit\"", "@\"verb\""]);
}

const TYPESCRIPT: &str =
    "import { a } from 'mod';\n// line\nconst s = \"str\";\nconst t = `tpl ${a} x`; /* blk */";

#[test]
fn typescript_comments_are_scoped() {
    let scoper =
        TypeScript::new(TypeScriptQuery::Prepared(PreparedTypeScriptQuery::Comments)).unwrap();
    assert_eq!(scoped(&scoper, TYPESCRIPT), vec!["// line", "/* blk */"]);
}

#[test]
fn typescript_strings_are_scoped() {
    let scoper =
        TypeScript::new(TypeScriptQuery::Prepared(PreparedTypeScriptQuery::Strings)).unwrap();
    assert_eq!(scoped(&scoper, TYPESCRIPT), vec!["mod", "str", "tpl ", " x"]);
}

#[test]
fn typescript_imports_are_scoped() {
    let scoper =
        TypeScript::new(TypeScriptQuery::Prepared(PreparedTypeScriptQuery::Imports)).unwrap();
    assert_eq!(scoped(&scoper, TYPESCRIPT), vec!["mod"]);
}

#[test]
fn queries_without_ignored_captures_have_no_negation() {
    let scoper = Rust::new(RustQuery::Prepared(PreparedRustQuery::Comments)).unwrap();
    assert!(scoper.neg_query().is_none());
    assert_eq!(scoper.query().capture_names(), &["line", "comment"]);
}

#[test]
fn negation_disables_all_but_the_ignored_captures() {
    let source = format!("(function_item name: (identifier) @{IGNORE} body: (_) @body) @function");
    let queries = Frobulator::new(Grammar::Rust, &source).unwrap();
    let input = "fn f() { 1 }";
    let scoper = Rust::new(RustQuery::Custom(CustomRustQuery::from_str(&source).unwrap())).unwrap();
    assert!(queries.neg_query.is_some());
    assert_eq!(scoped(&scoper, input), vec!["fn ", "() { 1 }"]);
}

#[test]
fn negating_a_query_without_ignored_captures_gives_none() {
    let query = tree_sitter::Query::new(&tree_sitter_rust::language(), "(identifier) @id").unwrap();
    assert!(negate(query).is_none());
    let source = format!("(identifier) @{IGNORE}.id");
    let query = tree_sitter::Query::new(&tree_sitter_rust::language(), &source).unwrap();
    assert!(negate(query).is_some());
}

#[test]
fn custom_queries_must_compile() {
    assert!(CustomRustQuery::from_str("(string_content) @string").is_ok());
    let error = CustomRustQuery::from_str("(no_such_node) @x").unwrap_err();
    assert_eq!(error.grammar, Grammar::Rust);
    assert_eq!(error.query, "(no_such_node) @x");
    assert_eq!(error.cause.kind, tree_sitter::QueryErrorKind::NodeType);

    assert!(CustomCSharpQuery::from_str("(comment) @c").is_ok());
    let error = CustomCSharpQuery::from_str("(comment @c").unwrap_err();
    assert_eq!(error.grammar, Grammar::CSharp);
    assert_eq!(error.cause.kind, tree_sitter::QueryErrorKind::Syntax);

    assert!(CustomTypeScriptQuery::from_str("(string_fragment) @s").is_ok());
    let error = CustomTypeScriptQuery::from_str("(string_content) @s").unwrap_err();
    assert_eq!(error.grammar, Grammar::TypeScript);
}

#[test]
fn a_query_compiles_against_its_own_grammar_only() {
    assert_eq!(validate(Grammar::Rust, "(line_comment) @c"), Ok(()));
    assert!(validate(Grammar::CSharp, "(line_comment) @c").is_err());
    assert!(validate(Grammar::TypeScript, "(line_comment) @c").is_err());
}

#[test]
fn custom_queries_scope() {
    let query = CustomTypeScriptQuery::from_str("(number) @n").unwrap();
    assert_eq!(query.source(), "(number) @n");
    let scoper = TypeScript::new(TypeScriptQuery::Custom(query)).unwrap();
    assert_eq!(scoped(&scoper, "let a = 1 + 23;"), vec!["1", "23"]);
    let query = CustomCSharpQuery::from_str("(integer_literal) @n").unwrap();
    let scoper = CSharp::new(CSharpQuery::Custom(query)).unwrap();
    assert_eq!(scoped(&scoper, "class A { int a = 1 + 23; }"), vec!["1", "23"]);
}

#[test]
fn malformed_input_is_scoped_as_far_as_it_goes() {
    let scoper = Rust::new(RustQuery::Prepared(PreparedRustQuery::Strings)).unwrap();
    assert_eq!(scoped(&scoper, "fn f( { let s = \"str\"; // c"), vec!["str"]);
    assert_eq!(scoped(&scoper, ""), Vec::<&str>::new());
    assert_eq!(scoped(&scoper, "\"\u{0}ä"), Vec::<&str>::new());
}

#[test]
fn captures_are_merged_and_the_negative_taken_out() {
    let input = "0123456789";
    let scope = scope_from_captures(
        input,
        vec![range(4, 8), range(0, 2), range(2, 3), range(6, 9)],
        Some(vec![range(5, 6), range(1, 2), range(8, 20)]),
    );
    assert_eq!(scope, Ranges::from_vec(vec![range(0, 1), range(2, 3), range(4, 5), range(6, 8)]));
    let scope = scope_from_captures(input, vec![range(4, 8), range(0, 2), range(2, 3)], None);
    assert_eq!(scope, Ranges::from_vec(vec![range(0, 3), range(4, 8)]));
}

#[test]
fn captures_that_are_no_slices_of_the_input_are_left_out() {
    let scope = scope_from_captures("aäb", vec![range(0, 1), range(2, 3), range(3, 9)], None);
    assert_eq!(scope, Ranges::from_vec(vec![range(0, 1)]));
}

#[test]
fn a_language_scoper_narrows_a_view() {
    let scoper = Rust::new(RustQuery::Prepared(PreparedRustQuery::Strings)).unwrap();
    let input = "let s = \"str\"; // str";
    assert!(scoper.scope_raw(input).is_scope_of(input));
    let mut builder = ScopedViewBuilder::new(input);
    builder.explode(&scoper).unwrap();
    let mut view = builder.build();
    view.map(&UpperStage::default()).unwrap();
    assert_eq!(view.to_string(), "let s = \"STR\"; // str");
    view.map(&Replacement::try_from("!".to_owned()).unwrap()).unwrap();
    assert_eq!(view.to_string(), "let s = \"!\"; // str");
}

#[test]
fn languages_know_the_extensions_of_their_files() {
    let rust = Rust::new(RustQuery::Prepared(PreparedRustQuery::Comments)).unwrap();
    let csharp = CSharp::new(CSharpQuery::Prepared(PreparedCSharpQuery::Comments)).unwrap();
    let typescript =
        TypeScript::new(TypeScriptQuery::Prepared(PreparedTypeScriptQuery::Comments)).unwrap();
    assert_eq!(rust.extensions(), &["rs"]);
    assert_eq!(csharp.extensions(), &["cs"]);
    assert_eq!(typescript.extensions(), &["ts", "tsx"]);
    assert_eq!(Rust::grammar(), Grammar::Rust);
    assert_eq!(CSharp::grammar(), Grammar::CSharp);
    assert_eq!(TypeScript::grammar(), Grammar::TypeScript);
}

#[test]
fn a_refusal_holds_the_error_that_was_given() {
    let source = "(comment";
    let error = || compile(Grammar::Rust, source).unwrap_err();
    assert_eq!(
        InvalidQuery::new(Grammar::Rust, source, error()),
        InvalidQuery { grammar: Grammar::Rust, query: source.to_owned(), cause: error() }
    );
    assert_eq!(validated(Grammar::CSharp, source, Err(error())).unwrap_err().cause, error());
    assert_eq!(validated(Grammar::CSharp, source, compile(Grammar::CSharp, "(comment) @c")), Ok(()));
    assert_eq!(CustomRustQuery::from_compiled(source, Err(error())).unwrap_err().cause, error());
    assert_eq!(CustomCSharpQuery::from_compiled(source, Err(error())).unwrap_err().cause, error());
    assert_eq!(
        CustomTypeScriptQuery::from_compiled(source, Err(error())).unwrap_err().cause,
        error()
    );
    assert_eq!(
        CustomRustQuery::from_compiled("(line_comment) @c", compile(Grammar::Rust, "(line_comment) @c"))
            .unwrap()
            .source(),
        "(line_comment) @c"
    );
    assert_eq!(CustomRustQuery::from_str(source).unwrap_err().cause, error());
}

#[test]
fn two_queries_are_made_of_a_query_compiled_twice() {
    let source = format!("((identifier) @{IGNORE}) @all");
    let compiled = || compile(Grammar::Rust, &source);
    let refused = || compile(Grammar::Rust, "(");
    let made = Frobulator::from_compiled(Grammar::Rust, &source, compiled(), compiled()).ok().unwrap();
    assert_eq!(made.pos_query.capture_names(), made.neg_query.unwrap().capture_names());
    let made = Frobulator::from_compiled(Grammar::Rust, "(", compiled(), refused());
    assert_eq!(made.err().unwrap().cause, refused().unwrap_err());
    let made = Frobulator::from_compiled(Grammar::Rust, "(", refused(), compiled());
    assert_eq!(made.err().unwrap().query, "(");
}

#[test]
fn a_query_may_hold_more_than_ascii() {
    let source = "((string_content) @s (#match? @s \"ä\"))";
    let scoper = Rust::new(RustQuery::Custom(CustomRustQuery::from_str(source).unwrap())).unwrap();
    assert_eq!(scoped(&scoper, "let a = \"a\"; let b = \"bäb\";"), vec!["bäb"]);
}

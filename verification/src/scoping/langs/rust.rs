//! Scoping Rust code.

use tree_sitter::{Query, QueryError};
use vstd::prelude::*;
use vstd::utf8::is_ascii_chars;

use crate::find::Find;

use super::{
    compile, compiled_captures, queries_of, scopes_by, validated, Frobulator, Grammar,
    InvalidQuery, LanguageScoper,
};

verus! {

/// The Rust language, scoped by a query.
pub struct Rust {
    q: Query,
    nq: Option<Query>,
}

impl Rust {
    /// Makes the scoper for Rust that scopes by `q`. The query is compiled against the Rust
    /// grammar, once as it is and once negated; where it does not compile, there is no
    /// scoper.
    pub fn new(q: RustQuery) -> (made: Result<Rust, InvalidQuery>)
        ensures
            is_ascii_chars(q.text()) ==> match compiled_captures(Grammar::Rust, q.text()) {
                Some(names) => made matches Ok(scoper) && scopes_by(&scoper, names),
                None => made is Err,
            },
            made matches Ok(scoper) ==> queries_of(&scoper).is_well_made(),
            made matches Err(error) ==> error.grammar == Grammar::Rust && error.query@ == q.text(),
    {
        match Frobulator::new(Grammar::Rust, q.source()) {
            Ok(queries) => {
                let scoper = Rust { q: queries.pos_query, nq: queries.neg_query };
                assert(scoper.positive() == queries.pos_query);
                assert(scoper.negative() == queries.neg_query);
                Ok(scoper)
            },
            Err(error) => Err(error),
        }
    }
}

/// A query for Rust: one of the prepared ones, or one of the user's own.
#[derive(Debug, Clone, PartialEq, Eq, Hash)]
pub enum RustQuery {
    /// A query that the user wrote.
    Custom(CustomRustQuery),
    /// A query that comes with the library.
    Prepared(PreparedRustQuery),
}

impl RustQuery {
    /// The source of the query.
    pub open spec fn text(self) -> Seq<char> {
        match self {
            RustQuery::Custom(query) => query@,
            RustQuery::Prepared(query) => query.text(),
        }
    }

    /// The source of the query.
    pub fn source(&self) -> (source: &str)
        ensures
            source@ == self.text(),
    {
        match self {
            RustQuery::Custom(query) => query.source(),
            RustQuery::Prepared(query) => query.source(),
        }
    }
}

/// Prepared tree-sitter queries for Rust.
#[derive(Debug, Clone, Copy, PartialEq, Eq, Hash)]
pub enum PreparedRustQuery {
    /// Comments (line and block styles; excluding doc comments; comment chars incl.).
    Comments,
    /// Doc comments (comment chars included).
    DocComments,
    /// Use statements (paths only; excl. `use`/`as`/`*`).
    Uses,
    /// Strings (regular, raw, byte; includes interpolation parts in format strings!).
    ///
    /// There is no node for an interpolation in the Rust grammar, so they stay in scope.
    Strings,
}

/// The query for comments that are not doc comments.
pub const COMMENTS: &'static str = r#"
                    [
                        (line_comment)+ @line
                        (block_comment)
                        (#not-match? @line "^///")
                    ]
                    @comment
                    "#;

/// The query for doc comments.
pub const DOC_COMMENTS: &'static str = r#"
                    (
                        (line_comment)+ @line
                        (#match? @line "^///")
                    )
                    "#;

/// The query for what a `use` declaration brings in: any argument of it, be it a path, a
/// list, a wildcard or a renaming.
pub const USES: &'static str = r"
                    [
                        (use_declaration
                            argument: (_) @use
                        )
                    ]
                    ";

/// The query for what is inside string literals.
pub const STRINGS: &'static str = "(string_content) @string";

impl PreparedRustQuery {
    /// The source of the query.
    pub open spec fn text(self) -> Seq<char> {
        match self {
            PreparedRustQuery::Comments => COMMENTS@,
            PreparedRustQuery::DocComments => DOC_COMMENTS@,
            PreparedRustQuery::Uses => USES@,
            PreparedRustQuery::Strings => STRINGS@,
        }
    }

    /// The source of the query.
    pub fn source(&self) -> (source: &'static str)
        ensures
            source@ == self.text(),
    {
        match self {
            PreparedRustQuery::Comments => COMMENTS,
            PreparedRustQuery::DocComments => DOC_COMMENTS,
            PreparedRustQuery::Uses => USES,
            PreparedRustQuery::Strings => STRINGS,
        }
    }
}

/// A custom tree-sitter query for Rust. It can only be made of a source that compiles.
#[derive(Debug, Clone, PartialEq, Eq, Hash)]
pub struct CustomRustQuery(String);

impl View for CustomRustQuery {
    type V = Seq<char>;

    closed spec fn view(&self) -> Seq<char> {
        self.0@
    }
}

impl CustomRustQuery {
    /// Takes `s` for a query where `compiled`, which is what compiling it against the grammar
    /// has given, is a query, and refuses it for the error that tree-sitter gave where it is
    /// none.
    pub fn from_compiled(s: &str, compiled: Result<Query, QueryError>) -> (made: Result<
        CustomRustQuery,
        InvalidQuery,
    >)
        ensures
            match compiled {
                Ok(_) => made matches Ok(query) && query@ == s@,
                Err(cause) => made matches Err(error) && error.is_refusal_of(
                    Grammar::Rust,
                    s@,
                    cause,
                ),
            },
    {
        match validated(Grammar::Rust, s, compiled) {
            Ok(_) => Ok(CustomRustQuery(s.to_owned())),
            Err(error) => Err(error),
        }
    }

    /// The source of the query.
    pub fn source(&self) -> (source: &str)
        ensures
            source@ == self@,
    {
        self.0.as_str()
    }
}

impl std::str::FromStr for CustomRustQuery {
    type Err = InvalidQuery;

    /// Takes `s` for a query where it compiles against the Rust grammar, and says what is
    /// wrong with it where it does not.
    fn from_str(s: &str) -> (made: Result<Self, Self::Err>)
        ensures
            is_ascii_chars(s@) ==> (made is Ok <==> compiled_captures(Grammar::Rust, s@) is Some),
            made matches Ok(query) ==> query@ == s@,
            made matches Err(error) ==> error.grammar == Grammar::Rust && error.query@ == s@,
    {
        CustomRustQuery::from_compiled(s, compile(Grammar::Rust, s))
    }
}

impl LanguageScoper for Rust {
    open spec fn language() -> Grammar {
        Grammar::Rust
    }

    closed spec fn positive(&self) -> Query {
        self.q
    }

    closed spec fn negative(&self) -> Option<Query> {
        self.nq
    }

    fn grammar() -> (grammar: Grammar) {
        assert(Self::language() == Grammar::Rust);
        Grammar::Rust
    }

    fn query(&self) -> &Query {
        assert(self.positive() == self.q);
        &self.q
    }

    fn neg_query(&self) -> Option<&Query> {
        assert(self.negative() == self.nq);
        match &self.nq {
            Some(query) => Some(query),
            None => None,
        }
    }
}

impl Find for Rust {
    fn extensions(&self) -> (extensions: &'static [&'static str])
        ensures
            extensions@.len() == 1,
            extensions@[0]@ == "rs"@,
    {
        &["rs"]
    }
}

} // verus!

//! Scoping TypeScript code.

use tree_sitter::{Query, QueryError};
use vstd::prelude::*;
use vstd::utf8::is_ascii_chars;

use crate::find::Find;

use super::{
    compile, compiled_captures, queries_of, scopes_by, validated, Frobulator, Grammar,
    InvalidQuery, LanguageScoper,
};

verus! {

/// The TypeScript language, scoped by a query.
pub struct TypeScript {
    q: Query,
    nq: Option<Query>,
}

impl TypeScript {
    /// Makes the scoper for TypeScript that scopes by `q`. The query is compiled against the TypeScript
    /// grammar, once as it is and once negated; where it does not compile, there is no
    /// scoper.
    pub fn new(q: TypeScriptQuery) -> (made: Result<TypeScript, InvalidQuery>)
        ensures
            is_ascii_chars(q.text()) ==> match compiled_captures(Grammar::TypeScript, q.text()) {
                Some(names) => made matches Ok(scoper) && scopes_by(&scoper, names),
                None => made is Err,
            },
            made matches Ok(scoper) ==> queries_of(&scoper).is_well_made(),
            made matches Err(error) ==> error.grammar == Grammar::TypeScript && error.query@ == q.text(),
    {
        match Frobulator::new(Grammar::TypeScript, q.source()) {
            Ok(queries) => {
                let scoper = TypeScript { q: queries.pos_query, nq: queries.neg_query };
                assert(scoper.positive() == queries.pos_query);
                assert(scoper.negative() == queries.neg_query);
                Ok(scoper)
            },
            Err(error) => Err(error),
        }
    }
}

/// A query for TypeScript: one of the prepared ones, or one of the user's own.
#[derive(Debug, Clone, PartialEq, Eq, Hash)]
pub enum TypeScriptQuery {
    /// A query that the user wrote.
    Custom(CustomTypeScriptQuery),
    /// A query that comes with the library.
    Prepared(PreparedTypeScriptQuery),
}

impl TypeScriptQuery {
    /// The source of the query.
    pub open spec fn text(self) -> Seq<char> {
        match self {
            TypeScriptQuery::Custom(query) => query@,
            TypeScriptQuery::Prepared(query) => query.text(),
        }
    }

    /// The source of the query.
    pub fn source(&self) -> (source: &str)
        ensures
            source@ == self.text(),
    {
        match self {
            TypeScriptQuery::Custom(query) => query.source(),
            TypeScriptQuery::Prepared(query) => query.source(),
        }
    }
}

/// Prepared tree-sitter queries for TypeScript.
#[derive(Debug, Clone, Copy, PartialEq, Eq, Hash)]
pub enum PreparedTypeScriptQuery {
    /// Comments.
    Comments,
    /// Strings (literal, template).
    Strings,
    /// Imports (module specifiers).
    Imports,
}

/// The query for comments.
pub const COMMENTS: &'static str = "(comment) @comment";

/// The query for what is inside string literals and templates.
pub const STRINGS: &'static str = "(string_fragment) @string";

/// The query for the module specifiers of imports.
pub const IMPORTS: &'static str = r"(import_statement source: (string (string_fragment) @sf))";

impl PreparedTypeScriptQuery {
    /// The source of the query.
    pub open spec fn text(self) -> Seq<char> {
        match self {
            PreparedTypeScriptQuery::Comments => COMMENTS@,
            PreparedTypeScriptQuery::Strings => STRINGS@,
            PreparedTypeScriptQuery::Imports => IMPORTS@,
        }
    }

    /// The source of the query.
    pub fn source(&self) -> (source: &'static str)
        ensures
            source@ == self.text(),
    {
        match self {
            PreparedTypeScriptQuery::Comments => COMMENTS,
            PreparedTypeScriptQuery::Strings => STRINGS,
            PreparedTypeScriptQuery::Imports => IMPORTS,
        }
    }
}

/// A custom tree-sitter query for TypeScript. It can only be made of a source that compiles.
#[derive(Debug, Clone, PartialEq, Eq, Hash)]
pub struct CustomTypeScriptQuery(String);

impl View for CustomTypeScriptQuery {
    type V = Seq<char>;

    closed spec fn view(&self) -> Seq<char> {
        self.0@
    }
}

impl CustomTypeScriptQuery {
    /// Takes `s` for a query where `compiled`, which is what compiling it against the grammar
    /// has given, is a query, and refuses it for the error that tree-sitter gave where it is
    /// none.
    pub fn from_compiled(s: &str, compiled: Result<Query, QueryError>) -> (made: Result<
        CustomTypeScriptQuery,
        InvalidQuery,
    >)
        ensures
            match compiled {
                Ok(_) => made matches Ok(query) && query@ == s@,
                Err(cause) => made matches Err(error) && error.is_refusal_of(
                    Grammar::TypeScript,
                    s@,
                    cause,
                ),
            },
    {
        match validated(Grammar::TypeScript, s, compiled) {
            Ok(_) => Ok(CustomTypeScriptQuery(s.to_owned())),
            Err(error) => Err(error),
        }
    }

    /// The source of the query.
    pub fn source(&self) -> (source: &str)
        ensures
            source@ == self@,
    {
        self.0.as_str()
    }
}

impl std::str::FromStr for CustomTypeScriptQuery {
    type Err = InvalidQuery;

    /// Takes `s` for a query where it compiles against the TypeScript grammar, and says what is
    /// wrong with it where it does not.
    fn from_str(s: &str) -> (made: Result<Self, Self::Err>)
        ensures
            is_ascii_chars(s@) ==> (made is Ok <==> compiled_captures(Grammar::TypeScript, s@) is Some),
            made matches Ok(query) ==> query@ == s@,
            made matches Err(error) ==> error.grammar == Grammar::TypeScript && error.query@ == s@,
    {
        CustomTypeScriptQuery::from_compiled(s, compile(Grammar::TypeScript, s))
    }
}

impl LanguageScoper for TypeScript {
    open spec fn language() -> Grammar {
        Grammar::TypeScript
    }

    closed spec fn positive(&self) -> Query {
        self.q
    }

    closed spec fn negative(&self) -> Option<Query> {
        self.nq
    }

    fn grammar() -> (grammar: Grammar) {
        assert(Self::language() == Grammar::TypeScript);
        Grammar::TypeScript
    }

    fn query(&self) -> &Query {
        assert(self.positive() == self.q);
        &self.q
    }

    fn neg_query(&self) -> Option<&Query> {
        assert(self.negative() == self.nq);
        match &self.nq {
            Some(query) => Some(query),
            None => None,
        }
    }
}

impl Find for TypeScript {
    fn extensions(&self) -> (extensions: &'static [&'static str])
        ensures
            extensions@.len() == 2,
            extensions@[0]@ == "ts"@,
            extensions@[1]@ == "tsx"@,
    {
        &["ts", "tsx"]
    }
}

} // verus!

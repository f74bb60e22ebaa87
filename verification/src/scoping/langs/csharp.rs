//! Scoping C# code.

use tree_sitter::{Query, QueryError};
use vstd::prelude::*;
use vstd::utf8::is_ascii_chars;

use crate::find::Find;

use super::{
    compile, compiled_captures, queries_of, scopes_by, validated, Frobulator, Grammar,
    InvalidQuery, LanguageScoper,
};

verus! {

/// The C# language, scoped by a query.
pub struct CSharp {
    q: Query,
    nq: Option<Query>,
}

impl CSharp {
    /// Makes the scoper for C# that scopes by `q`. The query is compiled against the C#
    /// grammar, once as it is and once negated; where it does not compile, there is no
    /// scoper.
    pub fn new(q: CSharpQuery) -> (made: Result<CSharp, InvalidQuery>)
        ensures
            is_ascii_chars(q.text()) ==> match compiled_captures(Grammar::CSharp, q.text()) {
                Some(names) => made matches Ok(scoper) && scopes_by(&scoper, names),
                None => made is Err,
            },
            made matches Ok(scoper) ==> queries_of(&scoper).is_well_made(),
            made matches Err(error) ==> error.grammar == Grammar::CSharp && error.query@ == q.text(),
    {
        match Frobulator::new(Grammar::CSharp, q.source()) {
            Ok(queries) => {
                let scoper = CSharp { q: queries.pos_query, nq: queries.neg_query };
                assert(scoper.positive() == queries.pos_query);
                assert(scoper.negative() == queries.neg_query);
                Ok(scoper)
            },
            Err(error) => Err(error),
        }
    }
}

/// A query for C#: one of the prepared ones, or one of the user's own.
#[derive(Debug, Clone, PartialEq, Eq, Hash)]
pub enum CSharpQuery {
    /// A query that the user wrote.
    Custom(CustomCSharpQuery),
    /// A query that comes with the library.
    Prepared(PreparedCSharpQuery),
}

impl CSharpQuery {
    /// The source of the query.
    pub open spec fn text(self) -> Seq<char> {
        match self {
            CSharpQuery::Custom(query) => query@,
            CSharpQuery::Prepared(query) => query.text(),
        }
    }

    /// The source of the query.
    pub fn source(&self) -> (source: &str)
        ensures
            source@ == self.text(),
    {
        match self {
            CSharpQuery::Custom(query) => query.source(),
            CSharpQuery::Prepared(query) => query.source(),
        }
    }
}

/// Prepared tree-sitter queries for C#.
#[derive(Debug, Clone, Copy, PartialEq, Eq, Hash)]
pub enum PreparedCSharpQuery {
    /// Comments (including XML, inline, doc comments).
    Comments,
    /// Strings (incl. verbatim, interpolated; incl. quotes, except for interpolated).
    Strings,
    /// `using` directives (including periods).
    Usings,
}

/// The query for comments.
pub const COMMENTS: &'static str = "(comment) @comment";

/// The query for strings. What is interpolated into a string is code, not string, and is
/// taken out again.
pub const STRINGS: &'static str = r"
                            [
                                (interpolated_string_expression (interpolation) @_SRGN_IGNORE)
                                (string_literal)
                                (raw_string_literal)
                                (verbatim_string_literal)
                            ]
                            @string
                    ";

/// The query for the names that `using` directives bring in.
pub const USINGS: &'static str = r"(using_directive [(identifier) (qualified_name)] @import)";

impl PreparedCSharpQuery {
    /// The source of the query.
    pub open spec fn text(self) -> Seq<char> {
        match self {
            PreparedCSharpQuery::Comments => COMMENTS@,
            PreparedCSharpQuery::Strings => STRINGS@,
            PreparedCSharpQuery::Usings => USINGS@,
        }
    }

    /// The source of the query.
    pub fn source(&self) -> (source: &'static str)
        ensures
            source@ == self.text(),
    {
        match self {
            PreparedCSharpQuery::Comments => COMMENTS,
            PreparedCSharpQuery::Strings => STRINGS,
            PreparedCSharpQuery::Usings => USINGS,
        }
    }
}

/// A custom tree-sitter query for C#. It can only be made of a source that compiles.
#[derive(Debug, Clone, PartialEq, Eq, Hash)]
pub struct CustomCSharpQuery(String);

impl View for CustomCSharpQuery {
    type V = Seq<char>;

    closed spec fn view(&self) -> Seq<char> {
        self.0@
    }
}

impl CustomCSharpQuery {
    /// Takes `s` for a query where `compiled`, which is what compiling it against the grammar
    /// has given, is a query, and refuses it for the error that tree-sitter gave where it is
    /// none.
    pub fn from_compiled(s: &str, compiled: Result<Query, QueryError>) -> (made: Result<
        CustomCSharpQuery,
        InvalidQuery,
    >)
        ensures
            match compiled {
                Ok(_) => made matches Ok(query) && query@ == s@,
                Err(cause) => made matches Err(error) && error.is_refusal_of(
                    Grammar::CSharp,
                    s@,
                    cause,
                ),
            },
    {
        match validated(Grammar::CSharp, s, compiled) {
            Ok(_) => Ok(CustomCSharpQuery(s.to_owned())),
            Err(error) => Err(error),
        }
    }

    /// The source of the query.
    pub fn source(&self) -> (source: &str)
        ensures
            source@ == self@,
    {
        self.0.as_str()
    }
}

impl std::str::FromStr for CustomCSharpQuery {
    type Err = InvalidQuery;

    /// Takes `s` for a query where it compiles against the C# grammar, and says what is
    /// wrong with it where it does not.
    fn from_str(s: &str) -> (made: Result<Self, Self::Err>)
        ensures
            is_ascii_chars(s@) ==> (made is Ok <==> compiled_captures(Grammar::CSharp, s@) is Some),
            made matches Ok(query) ==> query@ == s@,
            made matches Err(error) ==> error.grammar == Grammar::CSharp && error.query@ == s@,
    {
        CustomCSharpQuery::from_compiled(s, compile(Grammar::CSharp, s))
    }
}

impl LanguageScoper for CSharp {
    open spec fn language() -> Grammar {
        Grammar::CSharp
    }

    closed spec fn positive(&self) -> Query {
        self.q
    }

    closed spec fn negative(&self) -> Option<Query> {
        self.nq
    }

    fn grammar() -> (grammar: Grammar) {
        assert(Self::language() == Grammar::CSharp);
        Grammar::CSharp
    }

    fn query(&self) -> &Query {
        assert(self.positive() == self.q);
        &self.q
    }

    fn neg_query(&self) -> Option<&Query> {
        assert(self.negative() == self.nq);
        match &self.nq {
            Some(query) => Some(query),
            None => None,
        }
    }
}

impl Find for CSharp {
    fn extensions(&self) -> (extensions: &'static [&'static str])
        ensures
            extensions@.len() == 1,
            extensions@[0]@ == "cs"@,
    {
        &["cs"]
    }
}

} // verus!

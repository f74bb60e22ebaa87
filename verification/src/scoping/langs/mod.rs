//! Scoping by grammar: what a tree-sitter query captures in the syntax tree of a text is in
//! scope.

use tree_sitter::{Parser, Query, QueryCursor, QueryError, Tree};
use vstd::prelude::*;
use vstd::string::*;
use vstd::utf8::is_ascii_chars;

pub mod csharp;
pub mod rust;
pub mod typescript;

use crate::find::Find;
use crate::ranges::{
    covered, edges, is_normalized, lemma_covered_bounded, lemma_left_edges, lemma_merged_edges,
    lemma_normal_form, merged, subtracted, ByteRange, Ranges,
};
use crate::scoping::scope::{
    brings_context, is_scope_of, ranges_of, RangeWithContextView, RangesWithContext, Scoper,
};
use crate::text::{
    bytes_of, delimit_slices, is_slice_of, keep_slices, lemma_slices_among_all, slices_among,
    starts_with,
};

verus! {

/// A compiled tree-sitter query. Of what is in it, the library sees its capture names
/// ([`capture_names`]) and which of them are disabled ([`disabled_captures`]).
#[verifier::external_type_specification]
#[verifier::external_body]
pub struct ExQuery(Query);

/// Why tree-sitter refused a query.
#[verifier::external_type_specification]
#[verifier::external_body]
pub struct ExQueryError(QueryError);

/// A syntax tree that tree-sitter has parsed. Of what is in it, the library sees the text it
/// is the tree of ([`parsed_text`]) and what a query captures in it ([`captures_of`]).
#[verifier::external_type_specification]
#[verifier::external_body]
pub struct ExTree(Tree);

/// The grammars by which a text can be scoped.
#[derive(Clone, Copy, Debug, PartialEq, Eq, Hash, Structural)]
pub enum Grammar {
    CSharp,
    Rust,
    TypeScript,
}

/// The capture names of a compiled query, in the order in which the query declares them.
pub uninterp spec fn capture_names(query: Query) -> Seq<Seq<char>>;

/// The capture names that have been disabled on a compiled query.
pub uninterp spec fn disabled_captures(query: Query) -> Set<Seq<char>>;

/// What compiling `source` against `grammar` gives, for a source that is all ASCII: the
/// capture names of the compiled query, or nothing where the query is refused.
///
/// Of a source with a character beyond ASCII this says nothing: how tree-sitter reads such a
/// character outside a string depends on the locale of the process.
pub uninterp spec fn compiled_captures(grammar: Grammar, source: Seq<char>) -> Option<
    Seq<Seq<char>>,
>;

/// Whether `compiled` can be what compiling `source` against `grammar` has given: a query
/// that is compiled has no capture disabled, and for a source that is all ASCII the outcome
/// is the one that [`compiled_captures`] names.
pub open spec fn is_compiled(
    compiled: Result<Query, QueryError>,
    grammar: Grammar,
    source: Seq<char>,
) -> bool {
    &&& compiled matches Ok(query) ==> disabled_captures(query) == Set::<Seq<char>>::empty()
    &&& is_ascii_chars(source) ==> match compiled {
        Ok(query) => compiled_captures(grammar, source) == Some(capture_names(query)),
        Err(_) => compiled_captures(grammar, source) is None,
    }
}

/// Compiles a query against the C# grammar: `tree_sitter::Query::new` with the language of
/// `tree_sitter_c_sharp::language`. Trusted: a fresh query has no capture disabled, and for a
/// source that is all ASCII the outcome depends on the source alone.
#[verifier::external_body]
fn compile_csharp(source: &str) -> (compiled: Result<Query, QueryError>)
    ensures
        compiled matches Ok(query) ==> disabled_captures(query) == Set::<Seq<char>>::empty(),
        is_ascii_chars(source@) ==> (compiled matches Ok(query) ==> compiled_captures(
            Grammar::CSharp,
            source@,
        ) == Some(capture_names(query))),
        is_ascii_chars(source@) ==> (compiled is Err ==> compiled_captures(
            Grammar::CSharp,
            source@,
        ) is None),
{
    Query::new(&tree_sitter_c_sharp::language(), source)
}

/// Compiles a query against the Rust grammar: `tree_sitter::Query::new` with the language of
/// `tree_sitter_rust::language`. Trusted: a fresh query has no capture disabled, and for a
/// source that is all ASCII the outcome depends on the source alone.
#[verifier::external_body]
fn compile_rust(source: &str) -> (compiled: Result<Query, QueryError>)
    ensures
        compiled matches Ok(query) ==> disabled_captures(query) == Set::<Seq<char>>::empty(),
        is_ascii_chars(source@) ==> (compiled matches Ok(query) ==> compiled_captures(
            Grammar::Rust,
            source@,
        ) == Some(capture_names(query))),
        is_ascii_chars(source@) ==> (compiled is Err ==> compiled_captures(
            Grammar::Rust,
            source@,
        ) is None),
{
    Query::new(&tree_sitter_rust::language(), source)
}

/// Compiles a query against the TypeScript grammar: `tree_sitter::Query::new` with the
/// language of `tree_sitter_typescript::language_typescript`. Trusted: a fresh query has no
/// capture disabled, and for a source that is all ASCII the outcome depends on the source
/// alone.
#[verifier::external_body]
fn compile_typescript(source: &str) -> (compiled: Result<Query, QueryError>)
    ensures
        compiled matches Ok(query) ==> disabled_captures(query) == Set::<Seq<char>>::empty(),
        is_ascii_chars(source@) ==> (compiled matches Ok(query) ==> compiled_captures(
            Grammar::TypeScript,
            source@,
        ) == Some(capture_names(query))),
        is_ascii_chars(source@) ==> (compiled is Err ==> compiled_captures(
            Grammar::TypeScript,
            source@,
        ) is None),
{
    Query::new(&tree_sitter_typescript::language_typescript(), source)
}

/// Compiles the query `source` against `grammar`. Whether a source that is all ASCII compiles,
/// and with which capture names, depends on the grammar and the source alone.
pub fn compile(grammar: Grammar, source: &str) -> (compiled: Result<Query, QueryError>)
    ensures
        is_compiled(compiled, grammar, source@),
{
    match grammar {
        Grammar::CSharp => compile_csharp(source),
        Grammar::Rust => compile_rust(source),
        Grammar::TypeScript => compile_typescript(source),
    }
}

/// The capture names of a query: `tree_sitter::Query::capture_names`, each name copied into a
/// `String`. Trusted: these are the names that [`capture_names`] stands for.
#[verifier::external_body]
fn names_of(query: &Query) -> (names: Vec<String>)
    ensures
        names@.len() == capture_names(*query).len(),
        forall|i: int| 0 <= i < names@.len() ==> (#[trigger] names@[i])@ == capture_names(*query)[i],
{
    query.capture_names().iter().map(|name| String::from(*name)).collect()
}

/// Disables a capture of a query: `tree_sitter::Query::disable_capture`. Trusted: the query
/// keeps its capture names, and `name` is added to those that are disabled.
#[verifier::external_body]
fn disable_capture(query: &mut Query, name: &str)
    ensures
        capture_names(*final(query)) == capture_names(*old(query)),
        disabled_captures(*final(query)) == disabled_captures(*old(query)).insert(name@),
{
    query.disable_capture(name);
}

/// In a query, a capture whose name starts with this is one to ignore: what it captures is
/// taken out of what the other captures of the query capture.
pub const IGNORE: &'static str = "_SRGN_IGNORE";

/// Whether a capture of this name is one to ignore.
pub open spec fn is_ignored(name: Seq<char>) -> bool {
    IGNORE@.is_prefix_of(name)
}

/// Whether any of the capture names is one to ignore.
pub open spec fn has_ignored(names: Seq<Seq<char>>) -> bool {
    exists|i: int| 0 <= i < names.len() && is_ignored(#[trigger] names[i])
}

/// The capture names among `names` that are not to be ignored.
pub open spec fn acknowledged(names: Seq<Seq<char>>) -> Set<Seq<char>> {
    Set::new(|name: Seq<char>| names.contains(name) && !is_ignored(name))
}

/// Tells whether any of the capture names is one to ignore.
fn any_ignored(names: &Vec<String>) -> (any: bool)
    ensures
        any == exists|i: int| 0 <= i < names@.len() && is_ignored(#[trigger] names@[i]@),
{
    let mut index: usize = 0;
    while index < names.len()
        invariant
            index <= names@.len(),
            forall|i: int| 0 <= i < index ==> !is_ignored(#[trigger] names@[i]@),
        decreases names@.len() - index,
    {
        if starts_with(names[index].as_str(), IGNORE) {
            return true;
        }
        index += 1;
    }
    false
}

/// What negating `query` gives: the capture names and the disabled captures of the negated
/// query, where the query has a capture to ignore.
pub open spec fn negate_spec(query: Query) -> Option<(Seq<Seq<char>>, Set<Seq<char>>)> {
    if has_ignored(capture_names(query)) {
        Some(
            (
                capture_names(query),
                disabled_captures(query).union(acknowledged(capture_names(query))),
            ),
        )
    } else {
        None
    }
}

/// Turns a query into the one that captures only what is to be ignored: every capture that is
/// not to be ignored is disabled. Where the query has no capture to ignore, there is no such
/// query.
pub fn negate(query: Query) -> (negated: Option<Query>)
    ensures
        match negate_spec(query) {
            Some((names, disabled)) => negated matches Some(negative) && capture_names(negative)
                == names && disabled_captures(negative) == disabled,
            None => negated is None,
        },
{
    let names = names_of(&query);
    let ghost all = capture_names(query);
    if !any_ignored(&names) {
        assert forall|i: int| 0 <= i < all.len() implies !is_ignored(#[trigger] all[i]) by {
            assert(!is_ignored(names@[i]@));
        }
        return None;
    }
    assert(has_ignored(all)) by {
        let i = choose|i: int| 0 <= i < names@.len() && is_ignored(#[trigger] names@[i]@);
        assert(is_ignored(all[i]));
    }
    let mut query = query;
    let ghost before = disabled_captures(query);
    let mut index: usize = 0;
    while index < names.len()
        invariant
            index <= names@.len(),
            names@.len() == all.len(),
            forall|i: int| 0 <= i < names@.len() ==> (#[trigger] names@[i])@ == all[i],
            capture_names(query) == all,
            disabled_captures(query) =~= before.union(acknowledged(all.take(index as int))),
        decreases names@.len() - index,
    {
        let name = names[index].as_str();
        let ghost seen = all.take(index as int);
        let ghost next = all.take(index + 1);
        proof {
            assert(next =~= seen.push(all[index as int]));
            assert forall|other: Seq<char>| next.contains(other) <==> (seen.contains(other)
                || other == all[index as int]) by {
                if next.contains(other) {
                    let k = choose|k: int| 0 <= k < next.len() && next[k] == other;
                    if k < index {
                        assert(seen[k] == other);
                    }
                }
                if seen.contains(other) {
                    let k = choose|k: int| 0 <= k < seen.len() && seen[k] == other;
                    assert(next[k] == other);
                }
                if other == all[index as int] {
                    assert(next[index as int] == other);
                }
            }
        }
        if !starts_with(name, IGNORE) {
            disable_capture(&mut query, name);
            assert(acknowledged(next) =~= acknowledged(seen).insert(all[index as int]));
        } else {
            assert(acknowledged(next) =~= acknowledged(seen));
        }
        index += 1;
    }
    assert(all.take(index as int) =~= all);
    Some(query)
}

/// Whether parsing `input` by `grammar` gives a tree at all.
pub uninterp spec fn has_tree(grammar: Grammar, input: Seq<char>) -> bool;

/// The text of which a tree is the syntax tree: the text that was parsed to get it.
pub uninterp spec fn parsed_text(tree: Tree) -> Seq<char>;

/// What a query captures in the syntax tree of `input`: the ranges of the nodes that its
/// captures capture, match after match, in the order in which they come.
pub uninterp spec fn captures_of(query: Query, tree: Tree, input: Seq<char>) -> Seq<ByteRange>;

/// Parses a text as C#: a fresh `tree_sitter::Parser`, `Parser::set_language` with the
/// language of `tree_sitter_c_sharp::language`, then `Parser::parse`. There is no tree where
/// the parser does not take the language or gives none. Trusted: whether there is a tree
/// depends on the text alone, and a tree is the tree of the text that was parsed.
#[verifier::external_body]
fn parse_csharp(input: &str) -> (tree: Option<Tree>)
    ensures
        tree is Some <==> has_tree(Grammar::CSharp, input@),
        tree matches Some(parsed) ==> parsed_text(parsed) == input@,
{
    let mut parser = Parser::new();
    parser.set_language(&tree_sitter_c_sharp::language()).ok()?;
    parser.parse(input, None)
}

/// Parses a text as Rust: a fresh `tree_sitter::Parser`, `Parser::set_language` with the
/// language of `tree_sitter_rust::language`, then `Parser::parse`. There is no tree where the
/// parser does not take the language or gives none. Trusted: whether there is a tree depends
/// on the text alone, and a tree is the tree of the text that was parsed.
#[verifier::external_body]
fn parse_rust(input: &str) -> (tree: Option<Tree>)
    ensures
        tree is Some <==> has_tree(Grammar::Rust, input@),
        tree matches Some(parsed) ==> parsed_text(parsed) == input@,
{
    let mut parser = Parser::new();
    parser.set_language(&tree_sitter_rust::language()).ok()?;
    parser.parse(input, None)
}

/// Parses a text as TypeScript: a fresh `tree_sitter::Parser`, `Parser::set_language` with the
/// language of `tree_sitter_typescript::language_typescript`, then `Parser::parse`. There is
/// no tree where the parser does not take the language or gives none. Trusted: whether there
/// is a tree depends on the text alone, and a tree is the tree of the text that was parsed.
#[verifier::external_body]
fn parse_typescript(input: &str) -> (tree: Option<Tree>)
    ensures
        tree is Some <==> has_tree(Grammar::TypeScript, input@),
        tree matches Some(parsed) ==> parsed_text(parsed) == input@,
{
    let mut parser = Parser::new();
    parser.set_language(&tree_sitter_typescript::language_typescript()).ok()?;
    parser.parse(input, None)
}

/// Parses `input` by `grammar`. A text that the grammar does not fully describe still gives a
/// tree, of what could be made of it. Whether there is a tree is for the parser of the grammar
/// to say, and depends on the grammar and the text alone.
pub(crate) fn parse(grammar: Grammar, input: &str) -> (tree: Option<Tree>)
    ensures
        tree is Some <==> has_tree(grammar, input@),
        tree matches Some(parsed) ==> parsed_text(parsed) == input@,
{
    match grammar {
        Grammar::CSharp => parse_csharp(input),
        Grammar::Rust => parse_rust(input),
        Grammar::TypeScript => parse_typescript(input),
    }
}

/// Runs a query over a whole tree: `tree_sitter::QueryCursor::matches` from `Tree::root_node`,
/// and of every capture of every match the bytes of its node (`Node::start_byte`,
/// `Node::end_byte`), in the order in which they come. The tree must be that of `input`: the
/// query reads the text at the ranges of the nodes. Trusted: what is captured depends on the
/// query, the tree and the text alone, and [`captures_of`] is the name for it.
#[verifier::external_body]
fn captured(query: &Query, tree: &Tree, input: &str) -> (ranges: Vec<ByteRange>)
    requires
        parsed_text(*tree) == input@,
    ensures
        ranges@ == captures_of(*query, *tree, input@),
{
    let mut cursor = QueryCursor::new();
    cursor
        .matches(query, tree.root_node(), input.as_bytes())
        .flat_map(|found| found.captures)
        .map(|capture| ByteRange { start: capture.node.start_byte(), end: capture.node.end_byte() })
        .collect()
}

/// The ranges that are in scope where a query has captured `positive` and its negation, if it
/// has one, has captured `negative`, before any that is no slice of the text is left out:
/// what `positive` covers without what `negative` covers.
pub open spec fn scope_of(positive: Seq<ByteRange>, negative: Option<Seq<ByteRange>>) -> Seq<
    ByteRange,
> {
    match negative {
        Some(negative) => subtracted(merged(positive), merged(negative)),
        None => merged(positive),
    }
}

/// What is in scope in `input`, whose syntax tree is `tree`, by the query `positive` and its
/// negation `negative`: what the one captures without what the other does, as far as it
/// delimits slices of `input`.
pub open spec fn scope_in(
    positive: Query,
    negative: Option<Query>,
    tree: Tree,
    input: Seq<char>,
) -> Seq<ByteRange> {
    slices_among(
        scope_of(
            captures_of(positive, tree, input),
            match negative {
                Some(query) => Some(captures_of(query, tree, input)),
                None => None,
            },
        ),
        bytes_of(input),
    )
}

/// Whether every range that was captured delimits a slice of the text `bytes`.
pub open spec fn are_captured_slices(
    positive: Seq<ByteRange>,
    negative: Option<Seq<ByteRange>>,
    bytes: Seq<u8>,
) -> bool {
    &&& delimit_slices(positive, bytes)
    &&& negative matches Some(negative) ==> delimit_slices(negative, bytes)
}

/// Every range of ranges that delimit slices starts and ends between characters.
proof fn lemma_edges_are_boundaries(ranges: Seq<ByteRange>, bytes: Seq<u8>, point: int)
    requires
        delimit_slices(ranges, bytes),
        edges(ranges).contains(point),
    ensures
        vstd::utf8::is_char_boundary(bytes, point),
{
    let i = choose|i: int|
        0 <= i < ranges.len() && ((#[trigger] ranges[i]).start == point || ranges[i].end == point);
    assert(is_slice_of(ranges[i], bytes));
}

/// Where every range that was captured delimits a slice of the text, so does every range
/// that is in scope, and none is left out: the scope is what the query has captured, merged,
/// without what its negation has. Between them, the scope and what both have captured cover
/// what the query has captured, and the scope covers nothing that the negation has.
pub proof fn law_scope_is_what_is_left(
    positive: Seq<ByteRange>,
    negative: Option<Seq<ByteRange>>,
    bytes: Seq<u8>,
)
    requires
        are_captured_slices(positive, negative, bytes),
    ensures
        slices_among(scope_of(positive, negative), bytes) == scope_of(positive, negative),
        negative matches Some(taken) ==> {
            &&& scope_of(positive, negative) == subtracted(merged(positive), merged(taken))
            &&& covered(scope_of(positive, negative)).union(
                covered(positive).intersect(covered(taken)),
            ) == covered(positive)
            &&& covered(scope_of(positive, negative)).intersect(covered(taken)) == Set::<
                int,
            >::empty()
        },
        negative is None ==> scope_of(positive, negative) == merged(positive),
{
    let scope = scope_of(positive, negative);
    lemma_covered_bounded(positive);
    lemma_normal_form(covered(positive));
    lemma_merged_edges(positive);
    match negative {
        Some(taken) => {
            lemma_covered_bounded(taken);
            lemma_normal_form(covered(taken));
            lemma_merged_edges(taken);
            lemma_covered_bounded(merged(positive));
            lemma_normal_form(covered(merged(positive)).difference(covered(merged(taken))));
            lemma_left_edges(scope, merged(positive), merged(taken));
            assert(covered(scope).union(covered(positive).intersect(covered(taken)))
                =~= covered(positive));
            assert(covered(scope).intersect(covered(taken)) =~= Set::<int>::empty());
            assert forall|i: int| 0 <= i < scope.len() implies is_slice_of(
                #[trigger] scope[i],
                bytes,
            ) by {
                let start = scope[i].start as int;
                let end = scope[i].end as int;
                assert(edges(scope).contains(start));
                assert(edges(scope).contains(end));
                if edges(positive).contains(start) {
                    lemma_edges_are_boundaries(positive, bytes, start);
                } else {
                    lemma_edges_are_boundaries(taken, bytes, start);
                }
                if edges(positive).contains(end) {
                    lemma_edges_are_boundaries(positive, bytes, end);
                } else {
                    lemma_edges_are_boundaries(taken, bytes, end);
                }
            }
        },
        None => {
            assert forall|i: int| 0 <= i < scope.len() implies is_slice_of(
                #[trigger] scope[i],
                bytes,
            ) by {
                let start = scope[i].start as int;
                let end = scope[i].end as int;
                assert(edges(scope).contains(start));
                assert(edges(scope).contains(end));
                lemma_edges_are_boundaries(positive, bytes, start);
                lemma_edges_are_boundaries(positive, bytes, end);
            }
        },
    }
    lemma_slices_among_all(scope, bytes);
}

/// What was captured, as contracts see it.
pub open spec fn captured_view(captured: Option<Vec<ByteRange>>) -> Option<Seq<ByteRange>> {
    match captured {
        Some(captured) => Some(captured@),
        None => None,
    }
}

/// Makes the scope of `input` out of what a query has captured in it, and what its negation
/// has, if it has one: merges each, takes the second from the first, and keeps what delimits a
/// slice of `input`. Where every range that was captured delimits a slice of `input`, nothing
/// is left out: the scope is what the query has captured without what its negation has.
pub fn scope_from_captures(
    input: &str,
    positive: Vec<ByteRange>,
    negative: Option<Vec<ByteRange>>,
) -> (scope: Ranges)
    ensures
        scope@ == slices_among(scope_of(positive@, captured_view(negative)), bytes_of(input@)),
        are_captured_slices(positive@, captured_view(negative), bytes_of(input@)) ==> scope@
            == scope_of(positive@, captured_view(negative)),
        is_normalized(scope@),
        forall|i: int| 0 <= i < scope@.len() ==> is_slice_of(#[trigger] scope@[i], bytes_of(input@)),
{
    proof {
        if are_captured_slices(positive@, captured_view(negative), bytes_of(input@)) {
            law_scope_is_what_is_left(positive@, captured_view(negative), bytes_of(input@));
        }
    }
    let mut wanted = Ranges::from_vec(positive);
    wanted.merge();
    let scope = match negative {
        Some(negative) => {
            let mut unwanted = Ranges::from_vec(negative);
            unwanted.merge();
            wanted.subtract(&unwanted)
        },
        None => wanted,
    };
    keep_slices(input, &scope)
}

/// A query that did not compile against the grammar it was meant for.
#[derive(Debug, PartialEq, Eq)]
pub struct InvalidQuery {
    /// The grammar that refused the query.
    pub grammar: Grammar,
    /// The source of the query.
    pub query: String,
    /// What tree-sitter found wrong with it.
    pub cause: QueryError,
}

/// Whether `negative` is the negation of a query with the capture names `names`: the same
/// query with every capture disabled that is not to be ignored, where there is one to ignore,
/// and no query at all where there is none.
pub open spec fn is_negation(negative: Option<Query>, names: Seq<Seq<char>>) -> bool {
    match negative {
        Some(query) => {
            &&& has_ignored(names)
            &&& capture_names(query) == names
            &&& disabled_captures(query) == acknowledged(names)
        },
        None => !has_ignored(names),
    }
}

/// The two queries by which a language is scoped: one that captures what is wanted, and its
/// negation, which captures what is to be taken out of that again.
pub struct Frobulator {
    pub pos_query: Query,
    pub neg_query: Option<Query>,
}

impl InvalidQuery {
    /// The refusal of the query `source` by `grammar`, for the reason that tree-sitter gave.
    pub fn new(grammar: Grammar, source: &str, cause: QueryError) -> (refused: InvalidQuery)
        ensures
            refused.is_refusal_of(grammar, source@, cause),
    {
        InvalidQuery { grammar, query: source.to_owned(), cause }
    }

    /// Whether this is the refusal of the query `source` by `grammar` for the reason `cause`.
    pub open spec fn is_refusal_of(self, grammar: Grammar, source: Seq<char>, cause: QueryError) -> bool {
        &&& self.grammar == grammar
        &&& self.query@ == source
        &&& self.cause == cause
    }
}

impl Frobulator {
    /// Whether these are the two queries that the query source with the capture names `names`
    /// compiles to.
    pub open spec fn is_made_of(self, names: Seq<Seq<char>>) -> bool {
        &&& capture_names(self.pos_query) == names
        &&& disabled_captures(self.pos_query) == Set::<Seq<char>>::empty()
        &&& is_negation(self.neg_query, names)
    }

    /// Whether these can be the two queries that a query source compiles to, whatever the
    /// source: the first has no capture disabled, and the second, where there is one, has a
    /// capture to ignore and every other capture disabled.
    pub open spec fn is_well_made(self) -> bool {
        &&& disabled_captures(self.pos_query) == Set::<Seq<char>>::empty()
        &&& self.neg_query matches Some(negative) ==> has_ignored(capture_names(negative))
            && disabled_captures(negative) == acknowledged(capture_names(negative))
    }

    /// Makes the two queries of `compiled` and `again`, which are what compiling the query
    /// `source` against `grammar` twice has given: keeps the first as it is and negates the
    /// second. Where either is an error, the query is refused for the first error there is.
    pub fn from_compiled(
        grammar: Grammar,
        source: &str,
        compiled: Result<Query, QueryError>,
        again: Result<Query, QueryError>,
    ) -> (made: Result<Frobulator, InvalidQuery>)
        ensures
            match (compiled, again) {
                (Ok(first), Ok(second)) => made matches Ok(queries) && queries.pos_query == first
                    && match negate_spec(second) {
                    Some((names, disabled)) => queries.neg_query matches Some(negative)
                        && capture_names(negative) == names && disabled_captures(negative)
                        == disabled,
                    None => queries.neg_query is None,
                },
                (Err(error), _) => made matches Err(refused) && refused.is_refusal_of(
                    grammar,
                    source@,
                    error,
                ),
                (Ok(_), Err(error)) => made matches Err(refused) && refused.is_refusal_of(
                    grammar,
                    source@,
                    error,
                ),
            },
    {
        match compiled {
            Ok(pos_query) => match again {
                Ok(second) => Ok(Frobulator { pos_query, neg_query: negate(second) }),
                Err(error) => Err(InvalidQuery::new(grammar, source, error)),
            },
            Err(error) => Err(InvalidQuery::new(grammar, source, error)),
        }
    }

    /// Compiles the query `source` against `grammar`, once as it is and once negated.
    ///
    /// For a source that is all ASCII, whether it compiles and to what depends on the grammar
    /// and the source alone. For any other source, the two queries are well made where there
    /// are any, and the refusal names the grammar and the source.
    pub fn new(grammar: Grammar, source: &str) -> (made: Result<Frobulator, InvalidQuery>)
        ensures
            is_ascii_chars(source@) ==> match compiled_captures(grammar, source@) {
                Some(names) => made matches Ok(queries) && queries.is_made_of(names),
                None => made is Err,
            },
            made matches Ok(queries) ==> queries.is_well_made(),
            made matches Err(error) ==> error.grammar == grammar && error.query@ == source@,
    {
        let compiled = compile(grammar, source);
        let again = compile(grammar, source);
        proof {
            if again is Ok {
                let names = capture_names(again->Ok_0);
                assert(Set::<Seq<char>>::empty().union(acknowledged(names)) =~= acknowledged(
                    names,
                ));
            }
        }
        Frobulator::from_compiled(grammar, source, compiled, again)
    }
}

/// Checks `compiled`, which is what compiling the query `source` against `grammar` has given:
/// a query that is compiled is in order, and an error refuses the query.
pub fn validated(grammar: Grammar, source: &str, compiled: Result<Query, QueryError>) -> (checked:
    Result<(), InvalidQuery>)
    ensures
        match compiled {
            Ok(_) => checked is Ok,
            Err(cause) => checked matches Err(error) && error.is_refusal_of(
                grammar,
                source@,
                cause,
            ),
        },
{
    match compiled {
        Ok(_) => Ok(()),
        Err(cause) => Err(InvalidQuery::new(grammar, source, cause)),
    }
}

/// Checks that the query `source` compiles against `grammar`. Whether a source that is all
/// ASCII does depends on the grammar and the source alone.
pub fn validate(grammar: Grammar, source: &str) -> (checked: Result<(), InvalidQuery>)
    ensures
        is_ascii_chars(source@) ==> (checked is Ok <==> compiled_captures(grammar, source@) is Some),
        checked matches Err(error) ==> error.grammar == grammar && error.query@ == source@,
{
    validated(grammar, source, compile(grammar, source))
}

/// The two queries by which `scoper` scopes.
pub open spec fn queries_of<S: LanguageScoper>(scoper: &S) -> Frobulator {
    Frobulator { pos_query: scoper.positive(), neg_query: scoper.negative() }
}

/// Whether `scoper` scopes by the two queries that a query source with the capture names
/// `names` compiles to: the query itself, with no capture disabled, and its negation.
pub open spec fn scopes_by<S: LanguageScoper>(scoper: &S, names: Seq<Seq<char>>) -> bool {
    queries_of(scoper).is_made_of(names)
}

/// A scoper for a language: it holds a query over the grammar of the language, and what the
/// query captures in a text is in scope.
pub trait LanguageScoper: Find + Send + Sync {
    /// The grammar of the language, in contracts.
    spec fn language() -> Grammar;

    /// The query of the scoper, in contracts.
    spec fn positive(&self) -> Query;

    /// The negation of the query of the scoper, in contracts.
    spec fn negative(&self) -> Option<Query>;

    /// The grammar of the language.
    fn grammar() -> (grammar: Grammar)
        ensures
            grammar == Self::language(),
    ;

    /// The query of the scoper.
    fn query(&self) -> (query: &Query)
        ensures
            *query == self.positive(),
    ;

    /// The query that captures what is to be taken out of what [`Self::query`] captures, if
    /// there is anything to take out.
    fn neg_query(&self) -> (query: Option<&Query>)
        ensures
            match query {
                Some(query) => self.negative() == Some(*query),
                None => self.negative() is None,
            },
    ;

    /// Scopes `input` by the query of the scoper: parses it, runs the query and its negation
    /// over the tree, and makes the scope of what they capture: what the query captures
    /// without what its negation does, as far as it delimits slices of `input`. Where there is
    /// no tree, nothing is in scope. Whatever the grammar makes of the text, the scope is in
    /// normal form and each of its ranges delimits a slice of `input`.
    fn scope_via_query(&self, input: &str) -> (scope: Ranges)
        ensures
            is_normalized(scope@),
            forall|i: int|
                0 <= i < scope@.len() ==> is_slice_of(#[trigger] scope@[i], bytes_of(input@)),
            !has_tree(Self::language(), input@) ==> scope@ == Seq::<ByteRange>::empty(),
            has_tree(Self::language(), input@) ==> exists|tree: Tree|
                parsed_text(tree) == input@ && scope@ == #[trigger] scope_in(
                    self.positive(),
                    self.negative(),
                    tree,
                    input@,
                ),
    {
        match parse(Self::grammar(), input) {
            Some(tree) => {
                let positive = captured(self.query(), &tree, input);
                let negative = match self.neg_query() {
                    Some(query) => Some(captured(query, &tree, input)),
                    None => None,
                };
                let scope = scope_from_captures(input, positive, negative);
                assert(scope@ == scope_in(self.positive(), self.negative(), tree, input@));
                scope
            },
            None => Ranges::new(),
        }
    }
}

/// Every scoper for a language is a scoper: what its query captures is in scope, and brings
/// nothing with it.
impl<T: LanguageScoper> Scoper for T {
    /// Finds what the query of the scoper captures in `input`, as
    /// [`LanguageScoper::scope_via_query`] does: the ranges of what is found are its scope.
    /// What is found brings nothing with it and is in normal form, and where parsing gives no
    /// tree it is nothing.
    fn scope_raw(&self, input: &str) -> (found: RangesWithContext)
        ensures
            !brings_context(found@),
            is_normalized(ranges_of(found@)),
            !has_tree(T::language(), input@) ==> found@ == Seq::<RangeWithContextView>::empty(),
            has_tree(T::language(), input@) ==> exists|tree: Tree|
                parsed_text(tree) == input@ && ranges_of(found@) == #[trigger] scope_in(
                    self.positive(),
                    self.negative(),
                    tree,
                    input@,
                ),
    {
        let scope = self.scope_via_query(input);
        let found = RangesWithContext::from_ranges(&scope);
        assert(is_scope_of(found@, bytes_of(input@)));
        assert(scope@.len() == 0 ==> found@ =~= Seq::<RangeWithContextView>::empty());
        found
    }
}

} // verus!

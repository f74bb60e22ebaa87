//! Scoping by pattern: what a regular expression matches is in scope, and brings with it
//! what the capture groups of the pattern have captured.

use vstd::prelude::*;

use crate::ranges::ByteRange;
use crate::scoping::scope::{
    is_scope_of, CaptureBindingView, CaptureBindings, RangeWithContextView, RangesWithContext,
    ScopeContext, Scoper,
};
use crate::text::{bytes_of, delimits_slice, is_slice_of, slice, slice_of};

verus! {

/// The identity of a capture group: its name, or its position among the groups.
#[derive(Debug, PartialEq, Eq, Hash)]
pub enum CaptureGroup {
    /// A group referred to by name, as in `(?<name>...)`.
    Named(String),
    /// A group referred to by position, where 0 is the whole match.
    Numbered(usize),
}

/// What a [`CaptureGroup`] stands for in contracts.
pub enum CaptureGroupView {
    Named(Seq<char>),
    Numbered(nat),
}

impl View for CaptureGroup {
    type V = CaptureGroupView;

    open spec fn view(&self) -> CaptureGroupView {
        match self {
            CaptureGroup::Named(name) => CaptureGroupView::Named(name@),
            CaptureGroup::Numbered(number) => CaptureGroupView::Numbered(*number as nat),
        }
    }
}

impl Clone for CaptureGroup {
    fn clone(&self) -> (copy: Self)
        ensures
            copy@ == self@,
    {
        match self {
            CaptureGroup::Named(name) => CaptureGroup::Named(name.clone()),
            CaptureGroup::Numbered(number) => CaptureGroup::Numbered(*number),
        }
    }
}

impl CaptureGroup {
    /// Whether two groups are the same: of the same kind, with the same name or number.
    pub fn same_as(&self, other: &CaptureGroup) -> (same: bool)
        ensures
            same == (self@ == other@),
    {
        match (self, other) {
            (CaptureGroup::Named(a), CaptureGroup::Named(b)) => *a == *b,
            (CaptureGroup::Numbered(a), CaptureGroup::Numbered(b)) => *a == *b,
            _ => false,
        }
    }
}

/// A compiled regular expression.
#[verifier::external_type_specification]
#[verifier::external_body]
pub struct ExRegex(regex::Regex);

/// Why a pattern is no regular expression.
#[verifier::external_type_specification]
#[verifier::external_body]
pub struct ExRegexError(regex::Error);

/// Whether a pattern compiles to a regular expression.
pub uninterp spec fn is_pattern(pattern: Seq<char>) -> bool;

/// The pattern that a regular expression holds: the one it was compiled from.
pub uninterp spec fn pattern_of(regex: regex::Regex) -> Seq<char>;

/// Compiles a pattern: `regex::Regex::new`. Trusted: whether a pattern compiles depends on the
/// pattern alone, and [`is_pattern`] is the name for it; the regular expression holds the
/// pattern it was compiled from.
#[verifier::external_body]
fn compile(pattern: &str) -> (compiled: Result<regex::Regex, regex::Error>)
    ensures
        compiled is Ok <==> is_pattern(pattern@),
        compiled matches Ok(regex) ==> pattern_of(regex) == pattern@,
{
    regex::Regex::new(pattern)
}

/// What one capture group of a pattern has to do with one match: the name of the group, if it
/// has one, and where in the input it has captured, if it took part in the match.
#[derive(Debug, Clone, PartialEq, Eq)]
pub struct FoundGroup {
    pub name: Option<String>,
    pub range: Option<ByteRange>,
}

/// What a [`FoundGroup`] stands for in contracts.
pub struct FoundGroupView {
    pub name: Option<Seq<char>>,
    pub range: Option<ByteRange>,
}

impl View for FoundGroup {
    type V = FoundGroupView;

    open spec fn view(&self) -> FoundGroupView {
        FoundGroupView {
            name: match self.name {
                Some(name) => Some(name@),
                None => None,
            },
            range: self.range,
        }
    }
}

/// The matches of a regular expression in a text, one after another, and of each match, for
/// each capture group of the pattern in their order, the name of the group and where it has
/// captured.
pub uninterp spec fn matches_of(pattern: regex::Regex, input: Seq<char>) -> Seq<
    Seq<FoundGroupView>,
>;

/// Finds the matches of a pattern in a text, one after another: `regex::Regex::captures_iter`,
/// and of each match, for each capture group of the pattern in the order of
/// `regex::Regex::capture_names`, the name of the group and what `regex::Captures::get` gives
/// for it: the start and the end of what it captured. Trusted: what is found depends on the
/// regular expression and the text alone, and [`matches_of`] is the name for it.
#[verifier::external_body]
fn find(pattern: &regex::Regex, input: &str) -> (found: Vec<Vec<FoundGroup>>)
    ensures
        matches_view(found@) == matches_of(*pattern, input@),
{
    pattern
        .captures_iter(input)
        .map(|found| {
            pattern
                .capture_names()
                .enumerate()
                .map(|(index, name)| FoundGroup {
                    name: name.map(String::from),
                    range: found
                        .get(index)
                        .map(|group| ByteRange { start: group.start(), end: group.end() }),
                })
                .collect()
        })
        .collect()
}

/// The capture group that the group at place `index` of a pattern is: the one of its name,
/// or else the one of its number.
pub open spec fn group_at(index: int, group: FoundGroupView) -> CaptureGroupView {
    match group.name {
        Some(name) => CaptureGroupView::Named(name),
        None => CaptureGroupView::Numbered(index as nat),
    }
}

/// Whether the group has captured a slice of the text `bytes`.
pub open spec fn has_captured(group: FoundGroupView, bytes: Seq<u8>) -> bool {
    group.range matches Some(range) && is_slice_of(range, bytes)
}

/// What the first `count` groups of a match have captured in `input`: for each group that has
/// captured a slice of `input`, the slice and where it stands.
pub open spec fn captured(input: Seq<char>, groups: Seq<FoundGroupView>, count: nat) -> Seq<
    CaptureBindingView,
>
    decreases count,
{
    if count == 0 {
        Seq::empty()
    } else {
        let before = captured(input, groups, (count - 1) as nat);
        let group = groups[count - 1];
        if has_captured(group, bytes_of(input)) {
            before.push(
                CaptureBindingView {
                    group: group_at(count - 1, group),
                    text: slice_of(input, group.range->Some_0),
                    range: group.range->Some_0,
                },
            )
        } else {
            before
        }
    }
}

/// What a match puts in scope: what the pattern as a whole has matched, where that is a slice
/// of `input` that is not empty, and, where the pattern has capture groups of its own, what
/// they and the pattern as a whole have captured.
pub open spec fn matched(input: Seq<char>, groups: Seq<FoundGroupView>) -> Option<
    RangeWithContextView,
> {
    if groups.len() > 0 && has_captured(groups[0], bytes_of(input)) && groups[0].range->Some_0.start
        < groups[0].range->Some_0.end {
        Some(
            RangeWithContextView {
                range: groups[0].range->Some_0,
                context: if groups.len() > 1 {
                    Some(captured(input, groups, groups.len()))
                } else {
                    None
                },
            },
        )
    } else {
        None
    }
}

/// What the first `count` matches put in scope, in order. A match that starts before the end
/// of the last one that was taken is left out.
pub open spec fn scope_of_matches(
    input: Seq<char>,
    matches: Seq<Seq<FoundGroupView>>,
    count: nat,
) -> Seq<RangeWithContextView>
    decreases count,
{
    if count == 0 {
        Seq::empty()
    } else {
        let before = scope_of_matches(input, matches, (count - 1) as nat);
        match matched(input, matches[count - 1]) {
            Some(found) => if before.len() == 0 || before.last().range.end <= found.range.start {
                before.push(found)
            } else {
                before
            },
            None => before,
        }
    }
}

/// Whether each of `bindings` holds what stands at its range in `input`.
pub open spec fn are_slices_of(bindings: Seq<CaptureBindingView>, input: Seq<char>) -> bool {
    forall|k: int|
        0 <= k < bindings.len() ==> is_slice_of((#[trigger] bindings[k]).range, bytes_of(input))
            && bindings[k].text == slice_of(input, bindings[k].range)
}

/// Whether what `entry` brings with it, where it brings anything, is what a match brings:
/// first what the pattern as a whole has matched, which is the range of `entry`, and for
/// every group what stands at its range in `input`.
pub open spec fn brings_its_match(entry: RangeWithContextView, input: Seq<char>) -> bool {
    entry.context matches Some(bindings) ==> {
        &&& bindings.len() > 0
        &&& bindings[0].range == entry.range
        &&& are_slices_of(bindings, input)
    }
}

/// What groups have captured is what stands at their ranges in the input, and where the
/// first group has captured anything, that comes first.
pub proof fn lemma_captured(input: Seq<char>, groups: Seq<FoundGroupView>, count: nat)
    ensures
        are_slices_of(captured(input, groups, count), input),
        count > 0 && has_captured(groups[0], bytes_of(input)) ==> captured(
            input,
            groups,
            count,
        ).len() > 0 && captured(input, groups, count)[0].range == groups[0].range->Some_0,
    decreases count,
{
    if count > 0 {
        lemma_captured(input, groups, (count - 1) as nat);
    }
}

/// Whatever the matches are: each range that they put in scope and that brings anything
/// with it brings its match.
pub proof fn lemma_matches_bring_their_match(
    input: Seq<char>,
    matches: Seq<Seq<FoundGroupView>>,
    count: nat,
)
    ensures
        forall|i: int|
            0 <= i < scope_of_matches(input, matches, count).len() ==> brings_its_match(
                #[trigger] scope_of_matches(input, matches, count)[i],
                input,
            ),
    decreases count,
{
    if count > 0 {
        lemma_matches_bring_their_match(input, matches, (count - 1) as nat);
        let before = scope_of_matches(input, matches, (count - 1) as nat);
        let after = scope_of_matches(input, matches, count);
        let groups = matches[count - 1];
        lemma_captured(input, groups, groups.len());
        assert forall|i: int| 0 <= i < after.len() implies brings_its_match(
            #[trigger] after[i],
            input,
        ) by {
            if i < before.len() {
                assert(after[i] == before[i]);
            } else {
                assert(matched(input, groups) == Some(after[i]));
            }
        }
    }
}

/// The views of the groups of a match.
pub open spec fn groups_view(groups: Seq<FoundGroup>) -> Seq<FoundGroupView> {
    Seq::new(groups.len(), |i: int| groups[i]@)
}

/// The views of the groups of matches.
pub open spec fn matches_view(matches: Seq<Vec<FoundGroup>>) -> Seq<Seq<FoundGroupView>> {
    Seq::new(matches.len(), |i: int| groups_view(matches[i]@))
}

/// Gathers what the groups of a match have captured in `input`.
pub fn bind(input: &str, groups: &Vec<FoundGroup>) -> (bindings: CaptureBindings)
    ensures
        bindings@ == captured(input@, groups_view(groups@), groups@.len()),
{
    let ghost all = groups_view(groups@);
    let mut bindings = CaptureBindings::new();
    let mut index: usize = 0;
    while index < groups.len()
        invariant
            all == groups_view(groups@),
            index <= groups@.len(),
            bindings@ == captured(input@, all, index as nat),
        decreases groups@.len() - index,
    {
        let group = &groups[index];
        assert(all[index as int] == group@);
        if let Some(range) = group.range {
            if delimits_slice(input, range) {
                let key = match &group.name {
                    Some(name) => CaptureGroup::Named(name.clone()),
                    None => CaptureGroup::Numbered(index),
                };
                bindings.insert(key, slice(input, range).to_owned(), range);
            }
        }
        index += 1;
    }
    bindings
}

/// Makes the scope of `input` out of the matches of a pattern in it.
pub fn scope_from_matches(input: &str, matches: &Vec<Vec<FoundGroup>>) -> (found: RangesWithContext)
    ensures
        found@ == scope_of_matches(input@, matches_view(matches@), matches@.len()),
        is_scope_of(found@, bytes_of(input@)),
        forall|i: int| 0 <= i < found@.len() ==> brings_its_match(#[trigger] found@[i], input@),
{
    proof {
        lemma_matches_bring_their_match(input@, matches_view(matches@), matches@.len());
    }
    let ghost all = matches_view(matches@);
    let ghost bytes = bytes_of(input@);
    let mut found = RangesWithContext::new();
    let mut end: usize = 0;
    let mut index: usize = 0;
    while index < matches.len()
        invariant
            all == matches_view(matches@),
            bytes == bytes_of(input@),
            index <= matches@.len(),
            found@ == scope_of_matches(input@, all, index as nat),
            is_scope_of(found@, bytes),
            found@.len() > 0 ==> end == found@.last().range.end,
        decreases matches@.len() - index,
    {
        let groups = &matches[index];
        let ghost before = found@;
        assert(all[index as int] == groups_view(groups@));
        if groups.len() > 0 {
            assert(groups_view(groups@)[0] == groups@[0]@);
            if let Some(range) = groups[0].range {
                if range.start < range.end && delimits_slice(input, range) && (found.len() == 0
                    || end <= range.start) {
                    let context = if groups.len() > 1 {
                        Some(ScopeContext::CaptureGroups(bind(input, groups)))
                    } else {
                        None
                    };
                    found.push(range, context);
                    end = range.end;
                    proof {
                        let after = found@;
                        assert forall|i: int, j: int| 0 <= i < j < after.len() implies (
                        #[trigger] after[i]).range.end <= (#[trigger] after[j]).range.start by {
                            if j == before.len() {
                                if i < before.len() - 1 {
                                    assert(before[i].range.end <= before[before.len()
                                        - 1].range.start);
                                    assert(before[before.len() - 1].range.start < before[before.len()
                                        - 1].range.end);
                                }
                            } else {
                                assert(before[i].range.end <= before[j].range.start);
                            }
                        }
                        assert forall|i: int| 0 <= i < after.len() implies (
                        #[trigger] after[i]).range.start < after[i].range.end && is_slice_of(
                            after[i].range,
                            bytes,
                        ) by {
                            if i < before.len() {
                                assert(before[i].range.start < before[i].range.end);
                            }
                        }
                    }
                }
            }
        }
        index += 1;
    }
    found
}

/// A pattern that did not compile to a regular expression.
#[derive(Debug, PartialEq)]
pub struct InvalidPattern {
    /// The pattern.
    pub pattern: String,
    /// What is wrong with it.
    pub cause: regex::Error,
}

/// A scoper by pattern: what the regular expression matches is in scope.
///
/// Where the pattern has capture groups of its own, each match brings with it what they have
/// captured, and what the whole pattern has matched as group 0.
#[derive(Debug)]
pub struct PatternScoper {
    pattern: regex::Regex,
}

impl PatternScoper {
    /// Makes the scoper of `compiled`, which is what compiling `pattern` has given.
    pub fn from_compiled(pattern: &str, compiled: Result<regex::Regex, regex::Error>) -> (made:
        Result<PatternScoper, InvalidPattern>)
        ensures
            match compiled {
                Ok(regex) => made matches Ok(scoper) && scoper.compiled() == regex,
                Err(error) => made matches Err(refused) && refused.pattern@ == pattern@
                    && refused.cause == error,
            },
    {
        match compiled {
            Ok(pattern) => Ok(PatternScoper { pattern }),
            Err(cause) => Err(InvalidPattern { pattern: pattern.to_owned(), cause }),
        }
    }

    /// Makes the scoper by `pattern`, which holds the regular expression that the pattern
    /// compiles to. A pattern that is no regular expression is refused.
    pub fn new(pattern: &str) -> (made: Result<PatternScoper, InvalidPattern>)
        ensures
            made is Ok <==> is_pattern(pattern@),
            made matches Ok(scoper) ==> pattern_of(scoper.compiled()) == pattern@,
            made matches Err(refused) ==> refused.pattern@ == pattern@,
    {
        PatternScoper::from_compiled(pattern, compile(pattern))
    }

    /// The regular expression of the scoper.
    pub closed spec fn compiled(self) -> regex::Regex {
        self.pattern
    }
}

impl Scoper for PatternScoper {
    /// Finds what the pattern matches in `input`: has the regular expression find its
    /// matches, and makes the scope of them as [`scope_from_matches`] does.
    fn scope_raw(&self, input: &str) -> (found: RangesWithContext)
        ensures
            found@ == scope_of_matches(
                input@,
                matches_of(self.compiled(), input@),
                matches_of(self.compiled(), input@).len(),
            ),
            forall|i: int| 0 <= i < found@.len() ==> brings_its_match(#[trigger] found@[i], input@),
    {
        let matches = find(&self.pattern, input);
        assert(matches_view(matches@).len() == matches@.len());
        scope_from_matches(input, &matches)
    }
}

} // verus!

//! What travels with a part of a text that is in scope: the capture groups of the match that
//! put it there.

use vstd::prelude::*;

use crate::ranges::{ByteRange, Ranges};
use crate::scoping::regex::{CaptureGroup, CaptureGroupView};
use crate::text::{bytes_of, delimits_slice, is_slice_of};

verus! {

/// What one capture group of one match has captured: its text, and where in the input the
/// text stands.
#[derive(Debug, PartialEq, Eq)]
pub struct CaptureBinding {
    pub group: CaptureGroup,
    pub text: String,
    pub range: ByteRange,
}

/// What a [`CaptureBinding`] stands for in contracts.
pub struct CaptureBindingView {
    pub group: CaptureGroupView,
    pub text: Seq<char>,
    pub range: ByteRange,
}

impl View for CaptureBinding {
    type V = CaptureBindingView;

    open spec fn view(&self) -> CaptureBindingView {
        CaptureBindingView { group: self.group@, text: self.text@, range: self.range }
    }
}

impl Clone for CaptureBinding {
    fn clone(&self) -> (copy: Self)
        ensures
            copy@ == self@,
    {
        CaptureBinding { group: self.group.clone(), text: self.text.clone(), range: self.range }
    }
}

/// What `bindings` hold for `group`: of the bindings for it, the one that was added last.
pub open spec fn bound(bindings: Seq<CaptureBindingView>, group: CaptureGroupView) -> Option<
    CaptureBindingView,
>
    decreases bindings.len(),
{
    if bindings.len() == 0 {
        None
    } else if bindings.last().group == group {
        Some(bindings.last())
    } else {
        bound(bindings.drop_last(), group)
    }
}

/// The capture groups of `bindings`, one for each binding, in the order they were added.
pub open spec fn groups_of(bindings: Seq<CaptureBindingView>) -> Seq<CaptureGroupView> {
    Seq::new(bindings.len(), |i: int| bindings[i].group)
}

/// The capture groups of one match, each with what it has captured.
#[derive(Debug, PartialEq, Eq)]
pub struct CaptureBindings {
    entries: Vec<CaptureBinding>,
}

impl View for CaptureBindings {
    type V = Seq<CaptureBindingView>;

    closed spec fn view(&self) -> Seq<CaptureBindingView> {
        Seq::new(self.entries@.len(), |i: int| self.entries@[i]@)
    }
}

impl Clone for CaptureBindings {
    fn clone(&self) -> (copy: Self)
        ensures
            copy@ == self@,
    {
        let mut entries: Vec<CaptureBinding> = Vec::new();
        let mut index: usize = 0;
        while index < self.entries.len()
            invariant
                index <= self.entries@.len(),
                entries@.len() == index,
                forall|i: int| 0 <= i < index ==> (#[trigger] entries@[i])@ == self.entries@[i]@,
            decreases self.entries@.len() - index,
        {
            entries.push(self.entries[index].clone());
            index += 1;
        }
        let copy = CaptureBindings { entries };
        assert(copy@ =~= self@);
        copy
    }
}

impl CaptureBindings {
    /// No bindings.
    pub fn new() -> (bindings: CaptureBindings)
        ensures
            bindings@ == Seq::<CaptureBindingView>::empty(),
    {
        let bindings = CaptureBindings { entries: Vec::new() };
        assert(bindings@ =~= Seq::<CaptureBindingView>::empty());
        bindings
    }

    /// Binds `group` to `text`, which stands at `range` in the input. A group that was bound
    /// before is bound anew.
    pub fn insert(&mut self, group: CaptureGroup, text: String, range: ByteRange)
        ensures
            final(self)@ == old(self)@.push(
                CaptureBindingView { group: group@, text: text@, range },
            ),
            bound(final(self)@, group@) == Some(
                CaptureBindingView { group: group@, text: text@, range },
            ),
            forall|other: CaptureGroupView|
                other != group@ ==> bound(final(self)@, other) == bound(old(self)@, other),
    {
        let ghost added = CaptureBindingView { group: group@, text: text@, range };
        self.entries.push(CaptureBinding { group, text, range });
        assert(self@ =~= old(self)@.push(added));
        assert(self@.drop_last() =~= old(self)@);
    }

    /// The number of bindings.
    pub fn len(&self) -> (len: usize)
        ensures
            len == self@.len(),
    {
        self.entries.len()
    }

    /// What is bound to `group`, if anything is.
    pub fn get(&self, group: &CaptureGroup) -> (found: Option<&CaptureBinding>)
        ensures
            match bound(self@, group@) {
                Some(binding) => found matches Some(entry) && entry@ == binding,
                None => found is None,
            },
    {
        let mut index: usize = self.entries.len();
        assert(self@.take(index as int) =~= self@);
        while index > 0
            invariant
                index <= self.entries@.len(),
                bound(self@, group@) == bound(self@.take(index as int), group@),
            decreases index,
        {
            let entry = &self.entries[index - 1];
            proof {
                let seen = self@.take(index as int);
                assert(seen.last() == entry@);
                assert(seen.drop_last() =~= self@.take(index - 1));
            }
            if entry.group.same_as(group) {
                return Some(entry);
            }
            index -= 1;
        }
        None
    }

    /// The capture groups that are bound, one for each binding, in the order they were added.
    pub fn groups(&self) -> (groups: Vec<CaptureGroup>)
        ensures
            groups@.len() == self@.len(),
            forall|i: int| 0 <= i < groups@.len() ==> (#[trigger] groups@[i])@ == self@[i].group,
    {
        let mut groups: Vec<CaptureGroup> = Vec::new();
        let mut index: usize = 0;
        while index < self.entries.len()
            invariant
                index <= self.entries@.len(),
                groups@.len() == index,
                forall|i: int| 0 <= i < index ==> (#[trigger] groups@[i])@ == self@[i].group,
            decreases self.entries@.len() - index,
        {
            groups.push(self.entries[index].group.clone());
            index += 1;
        }
        groups
    }
}

/// What a part of a text that is in scope brings with it.
#[derive(Debug, PartialEq, Eq)]
pub enum ScopeContext {
    /// The capture groups of the match that put the part in scope.
    CaptureGroups(CaptureBindings),
}

impl View for ScopeContext {
    type V = Seq<CaptureBindingView>;

    open spec fn view(&self) -> Seq<CaptureBindingView> {
        match self {
            ScopeContext::CaptureGroups(bindings) => bindings@,
        }
    }
}

impl Clone for ScopeContext {
    fn clone(&self) -> (copy: Self)
        ensures
            copy@ == self@,
    {
        match self {
            ScopeContext::CaptureGroups(bindings) => ScopeContext::CaptureGroups(bindings.clone()),
        }
    }
}

/// A range of a text that a scoper has found, with what the match brings with it.
#[derive(Debug, PartialEq, Eq)]
pub struct RangeWithContext {
    pub range: ByteRange,
    pub context: Option<ScopeContext>,
}

/// What a [`RangeWithContext`] stands for in contracts.
pub struct RangeWithContextView {
    pub range: ByteRange,
    pub context: Option<Seq<CaptureBindingView>>,
}

impl View for RangeWithContext {
    type V = RangeWithContextView;

    open spec fn view(&self) -> RangeWithContextView {
        RangeWithContextView {
            range: self.range,
            context: match self.context {
                Some(context) => Some(context@),
                None => None,
            },
        }
    }
}

/// The ranges of what a scoper has found.
pub open spec fn ranges_of(found: Seq<RangeWithContextView>) -> Seq<ByteRange> {
    Seq::new(found.len(), |i: int| found[i].range)
}

/// Whether any of what a scoper has found brings a context with it.
pub open spec fn brings_context(found: Seq<RangeWithContextView>) -> bool {
    exists|i: int| 0 <= i < found.len() && (#[trigger] found[i]).context is Some
}

/// Whether `found` is a scope of the text `bytes`: ranges that are not empty and delimit
/// slices of the text, each at or after the end of the one before it.
pub open spec fn is_scope_of(found: Seq<RangeWithContextView>, bytes: Seq<u8>) -> bool {
    &&& forall|i: int|
        0 <= i < found.len() ==> (#[trigger] found[i]).range.start < found[i].range.end
            && is_slice_of(found[i].range, bytes)
    &&& forall|i: int, j: int|
        0 <= i < j < found.len() ==> (#[trigger] found[i]).range.end <= (
        #[trigger] found[j]).range.start
}

/// What brings `point` into scope brings with it, where `found` is a scope and one of its
/// ranges covers `point`.
pub open spec fn context_at(found: Seq<RangeWithContextView>, point: int) -> Option<
    Seq<CaptureBindingView>,
>
    decreases found.len(),
{
    if found.len() == 0 {
        None
    } else if found.last().range.covers(point) {
        found.last().context
    } else {
        context_at(found.drop_last(), point)
    }
}

/// In a scope, the range that covers an offset says what is brought with it.
pub proof fn lemma_context_at(found: Seq<RangeWithContextView>, index: int, point: int)
    requires
        forall|i: int, j: int|
            0 <= i < j < found.len() ==> (#[trigger] found[i]).range.end <= (
            #[trigger] found[j]).range.start,
        0 <= index < found.len(),
        found[index].range.covers(point),
    ensures
        context_at(found, point) == found[index].context,
    decreases found.len(),
{
    if index < found.len() - 1 {
        assert(found[index].range.end <= found[found.len() - 1].range.start);
        lemma_context_at(found.drop_last(), index, point);
    }
}

/// Where no range covers an offset, nothing is brought with it.
pub proof fn lemma_no_context_at(found: Seq<RangeWithContextView>, point: int)
    requires
        forall|i: int| 0 <= i < found.len() ==> !(#[trigger] found[i]).range.covers(point),
    ensures
        context_at(found, point) is None,
    decreases found.len(),
{
    if found.len() > 0 {
        assert(!found[found.len() - 1].range.covers(point));
        lemma_no_context_at(found.drop_last(), point);
    }
}

/// What a scoper has found in a text: ranges, each with what its match brings with it.
#[derive(Debug, PartialEq, Eq)]
pub struct RangesWithContext {
    entries: Vec<RangeWithContext>,
}

impl View for RangesWithContext {
    type V = Seq<RangeWithContextView>;

    closed spec fn view(&self) -> Seq<RangeWithContextView> {
        Seq::new(self.entries@.len(), |i: int| self.entries@[i]@)
    }
}

impl RangesWithContext {
    /// Nothing found.
    pub fn new() -> (found: RangesWithContext)
        ensures
            found@ == Seq::<RangeWithContextView>::empty(),
    {
        let found = RangesWithContext { entries: Vec::new() };
        assert(found@ =~= Seq::<RangeWithContextView>::empty());
        found
    }

    /// Adds a range at the end, with what it brings with it.
    pub fn push(&mut self, range: ByteRange, context: Option<ScopeContext>)
        ensures
            final(self)@ == old(self)@.push((RangeWithContext { range, context })@),
    {
        let ghost added = (RangeWithContext { range, context })@;
        self.entries.push(RangeWithContext { range, context });
        assert(self@ =~= old(self)@.push(added));
    }

    /// These ranges, none of which brings anything with it.
    pub fn from_ranges(ranges: &Ranges) -> (found: RangesWithContext)
        ensures
            found@ == Seq::new(
                ranges@.len(),
                |i: int| RangeWithContextView { range: ranges@[i], context: None },
            ),
            ranges_of(found@) == ranges@,
            !brings_context(found@),
    {
        let mut entries: Vec<RangeWithContext> = Vec::new();
        let mut index: usize = 0;
        while index < ranges.len()
            invariant
                index <= ranges@.len(),
                entries@.len() == index,
                forall|i: int|
                    0 <= i < index ==> (#[trigger] entries@[i])@ == (RangeWithContextView {
                        range: ranges@[i],
                        context: None,
                    }),
            decreases ranges@.len() - index,
        {
            entries.push(RangeWithContext { range: ranges.get(index), context: None });
            index += 1;
        }
        let found = RangesWithContext { entries };
        assert(found@ =~= Seq::new(
            ranges@.len(),
            |i: int| RangeWithContextView { range: ranges@[i], context: None },
        ));
        assert(ranges_of(found@) =~= ranges@);
        found
    }

    /// The number of ranges.
    pub fn len(&self) -> (len: usize)
        ensures
            len == self@.len(),
    {
        self.entries.len()
    }

    /// The range at place `index`, with what it brings with it.
    pub fn get(&self, index: usize) -> (entry: &RangeWithContext)
        requires
            index < self@.len(),
        ensures
            entry@ == self@[index as int],
    {
        &self.entries[index]
    }

    /// The ranges alone.
    pub fn ranges(&self) -> (ranges: Ranges)
        ensures
            ranges@ == ranges_of(self@),
    {
        let mut ranges: Vec<ByteRange> = Vec::new();
        let mut index: usize = 0;
        while index < self.entries.len()
            invariant
                index <= self.entries@.len(),
                ranges@.len() == index,
                forall|i: int| 0 <= i < index ==> ranges@[i] == self@[i].range,
            decreases self.entries@.len() - index,
        {
            ranges.push(self.entries[index].range);
            index += 1;
        }
        assert(ranges@ =~= ranges_of(self@));
        Ranges::from_vec(ranges)
    }

    /// Tells whether any of the ranges brings a context with it.
    pub fn brings_context(&self) -> (any: bool)
        ensures
            any == brings_context(self@),
    {
        let mut index: usize = 0;
        while index < self.entries.len()
            invariant
                index <= self.entries@.len(),
                forall|i: int| 0 <= i < index ==> (#[trigger] self@[i]).context is None,
            decreases self.entries@.len() - index,
        {
            if self.entries[index].context.is_some() {
                assert(self@[index as int].context is Some);
                return true;
            }
            index += 1;
        }
        false
    }

    /// Tells whether this is a scope of `input`: whether the ranges are not empty, delimit
    /// slices of `input`, and come one after another.
    pub fn is_scope_of(&self, input: &str) -> (valid: bool)
        ensures
            valid == is_scope_of(self@, bytes_of(input@)),
    {
        let ghost bytes = bytes_of(input@);
        let mut index: usize = 0;
        while index < self.entries.len()
            invariant
                bytes == bytes_of(input@),
                index <= self.entries@.len(),
                is_scope_of(self@.take(index as int), bytes),
            decreases self.entries@.len() - index,
        {
            let range = self.entries[index].range;
            let ghost seen = self@.take(index as int);
            let ghost next = self@.take(index + 1);
            assert(self@[index as int].range == range);
            if range.start >= range.end || !delimits_slice(input, range) {
                return false;
            }
            if index > 0 && self.entries[index - 1].range.end > range.start {
                assert(self@[index - 1].range.end > self@[index as int].range.start);
                return false;
            }
            proof {
                assert forall|i: int, j: int| 0 <= i < j < next.len() implies (
                #[trigger] next[i]).range.end <= (#[trigger] next[j]).range.start by {
                    if j == index {
                        if i < index - 1 {
                            assert(seen[i].range.end <= seen[index - 1].range.start);
                            assert(seen[index - 1].range.start < seen[index - 1].range.end);
                        }
                    } else {
                        assert(seen[i].range.end <= seen[j].range.start);
                    }
                }
                assert forall|i: int| 0 <= i < next.len() implies (#[trigger] next[i]).range.start
                    < next[i].range.end && is_slice_of(next[i].range, bytes) by {
                    if i < index {
                        assert(seen[i].range.start < seen[i].range.end);
                    }
                }
            }
            index += 1;
        }
        assert(self@.take(index as int) =~= self@);
        true
    }
}

/// A scoper: it finds what is in scope in a text.
pub trait Scoper {
    /// Finds what is in scope in `input`. Whatever the scoper goes by, what it finds is a
    /// scope of `input`.
    fn scope_raw(&self, input: &str) -> (found: RangesWithContext)
        ensures
            is_scope_of(found@, bytes_of(input@)),
    ;
}

} // verus!

//! The view of a text as parts in scope and parts out of scope, which can be built from what
//! scopers find, changed by actions where it is in scope, and read out again.

use vstd::prelude::*;
use vstd::string::*;
use vstd::utf8::*;

use crate::actions::{Action, ActionError, ActionErrorView};
use crate::ranges::{
    all_below, covered, edges, is_normalized, lemma_merged_edges, lemma_shared_edges, ByteRange,
    Ranges,
};
use crate::scoping::scope::{
    brings_context, context_at, is_scope_of, lemma_context_at, lemma_no_context_at, ranges_of,
    CaptureBindingView, RangeWithContextView, RangesWithContext, ScopeContext, Scoper,
};
use crate::text::{
    bytes_of, is_slice_of, lemma_boundary_in_bounds, lemma_slice_whole, lemma_slices_join, slice,
    slice_of,
};

verus! {

/// The offsets that `offsets` holds.
pub open spec fn points(offsets: Seq<usize>) -> Set<int> {
    Set::new(|point: int| exists|i: int| 0 <= i < offsets.len() && #[trigger] offsets[i] == point)
}

/// Whether each offset is greater than the one before it.
pub open spec fn is_ascending(offsets: Seq<usize>) -> bool {
    forall|i: int, j: int| 0 <= i < j < offsets.len() ==> #[trigger] offsets[i] < #[trigger] offsets[j]
}

/// Whether no offset is less than one before it.
pub open spec fn is_ordered(offsets: Seq<usize>) -> bool {
    forall|i: int, j: int| 0 <= i <= j < offsets.len() ==> #[trigger] offsets[i] <= #[trigger] offsets[j]
}

/// Adding an offset to a sequence adds it to what the sequence holds.
proof fn lemma_points_push(offsets: Seq<usize>, offset: usize)
    ensures
        points(offsets.push(offset)) =~= points(offsets).insert(offset as int),
{
    let more = offsets.push(offset);
    assert forall|point: int| points(more).contains(point) implies points(offsets).insert(
        offset as int,
    ).contains(point) by {
        let i = choose|i: int| 0 <= i < more.len() && #[trigger] more[i] == point;
        if i < offsets.len() {
            assert(offsets[i] == point);
        }
    }
    assert forall|point: int| points(offsets).insert(offset as int).contains(
        point,
    ) implies points(more).contains(point) by {
        if points(offsets).contains(point) {
            let i = choose|i: int| 0 <= i < offsets.len() && #[trigger] offsets[i] == point;
            assert(more[i] == point);
        } else {
            assert(more[offsets.len() as int] == point);
        }
    }
}

/// Joins two sequences of offsets that are in order into one in which each offset is there
/// once, in ascending order.
fn unite(left: &Vec<usize>, right: &Vec<usize>) -> (united: Vec<usize>)
    requires
        is_ordered(left@),
        is_ordered(right@),
    ensures
        is_ascending(united@),
        points(united@) == points(left@).union(points(right@)),
{
    let mut united: Vec<usize> = Vec::new();
    let mut i: usize = 0;
    let mut j: usize = 0;
    proof {
        assert(left@.take(0) =~= Seq::<usize>::empty());
        assert(right@.take(0) =~= Seq::<usize>::empty());
        assert(points(Seq::<usize>::empty()) =~= Set::<int>::empty());
    }
    while i < left.len() || j < right.len()
        invariant
            is_ordered(left@),
            is_ordered(right@),
            i <= left@.len(),
            j <= right@.len(),
            is_ascending(united@),
            points(united@) =~= points(left@.take(i as int)).union(points(right@.take(j as int))),
            forall|k: int|
                0 <= k < united@.len() && i < left@.len() ==> #[trigger] united@[k]
                    <= left@[i as int],
            forall|k: int|
                0 <= k < united@.len() && j < right@.len() ==> #[trigger] united@[k]
                    <= right@[j as int],
        decreases left@.len() - i + right@.len() - j,
    {
        let from_left = if i >= left.len() {
            false
        } else if j >= right.len() {
            true
        } else {
            left[i] <= right[j]
        };
        let ghost before = united@;
        let ghost i0 = i;
        let ghost j0 = j;
        let next = if from_left {
            let next = left[i];
            proof {
                lemma_points_push(left@.take(i as int), next);
                assert(left@.take(i + 1) =~= left@.take(i as int).push(next));
            }
            i += 1;
            next
        } else {
            let next = right[j];
            proof {
                lemma_points_push(right@.take(j as int), next);
                assert(right@.take(j + 1) =~= right@.take(j as int).push(next));
            }
            j += 1;
            next
        };
        let fresh = united.len() == 0 || united[united.len() - 1] < next;
        if fresh {
            proof {
                lemma_points_push(before, next);
                assert forall|a: int, b: int| 0 <= a < b < before.len() + 1 implies (
                #[trigger] before.push(next)[a]) < (#[trigger] before.push(next)[b]) by {
                    if b == before.len() {
                        if a < before.len() - 1 {
                            assert(before[a] < before[before.len() - 1]);
                        }
                    } else {
                        assert(before[a] < before[b]);
                    }
                }
            }
            united.push(next);
        } else {
            assert(before[before.len() - 1] == next);
            assert(points(before).contains(next as int));
        }
        proof {
            assert forall|k: int| 0 <= k < united@.len() && i < left@.len() implies #[trigger] united@[k]
                <= left@[i as int] by {
                if i > i0 {
                    assert(left@[i0 as int] <= left@[i as int]);
                }
                if k < before.len() {
                    assert(before[k] == united@[k]);
                }
            }
            assert forall|k: int| 0 <= k < united@.len() && j < right@.len() implies #[trigger] united@[k]
                <= right@[j as int] by {
                if j > j0 {
                    assert(right@[j0 as int] <= right@[j as int]);
                }
                if k < before.len() {
                    assert(before[k] == united@[k]);
                }
            }
        }
    }
    proof {
        assert(left@.take(i as int) =~= left@);
        assert(right@.take(j as int) =~= right@);
    }
    united
}

/// The offsets at which the ranges of `found` start and end, in order.
fn endpoints(found: &RangesWithContext) -> (offsets: Vec<usize>)
    requires
        forall|i: int|
            0 <= i < found@.len() ==> (#[trigger] found@[i]).range.start < found@[i].range.end,
        forall|i: int, j: int|
            0 <= i < j < found@.len() ==> (#[trigger] found@[i]).range.end <= (
            #[trigger] found@[j]).range.start,
    ensures
        is_ordered(offsets@),
        points(offsets@) == edges(ranges_of(found@)),
{
    let mut offsets: Vec<usize> = Vec::new();
    let mut index: usize = 0;
    let ghost ranges = ranges_of(found@);
    proof {
        assert(points(Seq::<usize>::empty()) =~= Set::<int>::empty());
        assert(edges(ranges.take(0)) =~= Set::<int>::empty());
    }
    while index < found.len()
        invariant
            ranges == ranges_of(found@),
            forall|i: int|
                0 <= i < found@.len() ==> (#[trigger] found@[i]).range.start
                    < found@[i].range.end,
            forall|i: int, j: int|
                0 <= i < j < found@.len() ==> (#[trigger] found@[i]).range.end <= (
                #[trigger] found@[j]).range.start,
            index <= found@.len(),
            is_ordered(offsets@),
            points(offsets@) =~= edges(ranges.take(index as int)),
            forall|k: int|
                0 <= k < offsets@.len() && index < found@.len() ==> #[trigger] offsets@[k]
                    <= found@[index as int].range.start,
        decreases found@.len() - index,
    {
        let range = found.get(index).range;
        let ghost before = offsets@;
        proof {
            assert(range == found@[index as int].range);
            lemma_points_push(before, range.start);
            lemma_points_push(before.push(range.start), range.end);
            let seen = ranges.take(index as int);
            let next = ranges.take(index + 1);
            assert(next =~= seen.push(range));
            assert forall|point: int| edges(next).contains(point) <==> (edges(seen).contains(point)
                || point == range.start || point == range.end) by {
                if edges(next).contains(point) {
                    let i = choose|i: int|
                        0 <= i < next.len() && ((#[trigger] next[i]).start == point || next[i].end
                            == point);
                    if i < index {
                        assert(seen[i] == next[i]);
                    }
                }
                if edges(seen).contains(point) {
                    let i = choose|i: int|
                        0 <= i < seen.len() && ((#[trigger] seen[i]).start == point || seen[i].end
                            == point);
                    assert(next[i] == seen[i]);
                }
                if point == range.start || point == range.end {
                    assert(next[index as int] == range);
                }
            }
        }
        offsets.push(range.start);
        offsets.push(range.end);
        proof {
            assert forall|a: int, b: int| 0 <= a <= b < offsets@.len() implies #[trigger] offsets@[a]
                <= #[trigger] offsets@[b] by {
                if b < before.len() {
                    assert(before[a] <= before[b]);
                } else if a < before.len() {
                    assert(before[a] <= found@[index as int].range.start);
                }
            }
            if index + 1 < found@.len() {
                assert(found@[index as int].range.end <= found@[index + 1].range.start);
            }
        }
        index += 1;
    }
    assert(ranges.take(index as int) =~= ranges);
    offsets
}

/// Whether a part of a text is open to change.
#[derive(Clone, Copy, Debug, PartialEq, Eq, Hash, Structural)]
pub enum Status {
    /// The part is in scope: actions apply to it.
    InScope,
    /// The part is out of scope: it stays as it is.
    OutOfScope,
}

/// Two scopers that both bring a context with what they find were applied to one view. What
/// the parts in scope would have to bring with them is then not settled, and the second is
/// refused.
#[derive(Clone, Copy, Debug, PartialEq, Eq, Structural)]
pub struct ContextConflict;

/// Builds the view of a text: starts from the whole text, in scope, and narrows what is in
/// scope by each scoper that is applied.
pub struct ScopedViewBuilder<'viewee> {
    viewee: &'viewee str,
    boundaries: Vec<usize>,
    in_scope: Ranges,
    contexts: RangesWithContext,
}

impl<'viewee> ScopedViewBuilder<'viewee> {
    /// The text that is viewed, as it is held.
    pub closed spec fn text(&self) -> &'viewee str {
        self.viewee
    }

    /// The text that is viewed.
    pub closed spec fn input(&self) -> Seq<char> {
        self.viewee@
    }

    /// The offsets at which the text is cut into parts, in ascending order.
    pub closed spec fn boundaries(&self) -> Seq<usize> {
        self.boundaries@
    }

    /// What is in scope, in normal form.
    pub closed spec fn scope(&self) -> Seq<ByteRange> {
        self.in_scope@
    }

    /// What a scoper has found that brings contexts with it, if one was applied.
    pub closed spec fn contexts(&self) -> Seq<RangeWithContextView> {
        self.contexts@
    }

    /// Whether the builder is in order: the boundaries ascend, lie between characters, and
    /// the start and the end of the text are among them; what is in scope is in normal form;
    /// and both what is in scope and what brings a context starts and ends at boundaries.
    pub open spec fn wf(&self) -> bool {
        let bytes = bytes_of(self.input());
        &&& bytes.len() <= usize::MAX
        &&& is_ascending(self.boundaries())
        &&& points(self.boundaries()).contains(0)
        &&& points(self.boundaries()).contains(bytes.len() as int)
        &&& forall|i: int|
            0 <= i < self.boundaries().len() ==> is_char_boundary(
                bytes,
                #[trigger] self.boundaries()[i] as int,
            )
        &&& is_normalized(self.scope())
        &&& edges(self.scope()).subset_of(points(self.boundaries()))
        &&& is_scope_of(self.contexts(), bytes)
        &&& edges(ranges_of(self.contexts())).subset_of(points(self.boundaries()))
    }

    /// Starts the view of `input`: the whole text is one part, and in scope.
    pub fn new(input: &'viewee str) -> (builder: Self)
        ensures
            builder.wf(),
            builder.input() == input@,
            points(builder.boundaries()) == Set::<int>::empty().insert(0).insert(
                bytes_of(input@).len() as int,
            ),
            covered(builder.scope()) == all_below(bytes_of(input@).len() as int),
            builder.contexts() == Seq::<RangeWithContextView>::empty(),
    {
        let len = input.as_bytes().len();
        let mut boundaries: Vec<usize> = Vec::new();
        let mut in_scope = Ranges::new();
        boundaries.push(0);
        if len > 0 {
            boundaries.push(len);
            in_scope.push(ByteRange { start: 0, end: len });
        }
        let builder = ScopedViewBuilder {
            viewee: input,
            boundaries,
            in_scope,
            contexts: RangesWithContext::new(),
        };
        proof {
            let bytes = bytes_of(input@);
            encode_utf8_valid_utf8(input@);
            is_char_boundary_start_end_of_seq(bytes);
            assert(builder.boundaries()[0] == 0);
            if len > 0 {
                assert(builder.boundaries()[1] == len);
                assert(builder.scope()[0].covers(0));
            }
            assert(points(builder.boundaries()) =~= Set::<int>::empty().insert(0).insert(
                len as int,
            ));
            assert(covered(builder.scope()) =~= all_below(len as int)) by {
                assert forall|point: int| all_below(len as int).contains(point) implies covered(
                    builder.scope(),
                ).contains(point) by {
                    assert(builder.scope()[0].covers(point));
                }
            }
            assert(edges(builder.scope()).subset_of(points(builder.boundaries())));
            assert(ranges_of(builder.contexts()) =~= Seq::<ByteRange>::empty());
            assert(edges(ranges_of(builder.contexts())) =~= Set::<int>::empty());
        }
        builder
    }
}

impl<'viewee> ScopedViewBuilder<'viewee> {
    /// Whether `after` is what exploding by the scope `found` makes of this builder, and
    /// `done` how that ends.
    ///
    /// Where `found` brings contexts and the builder holds some already, it is refused, and
    /// the builder stays as it is. Else the text is cut, besides where it was, where a range of
    /// `found` starts or ends; in scope is what was in scope and what `found` covers, both;
    /// and what `found` brings with it is kept, where it brings anything.
    pub open spec fn is_exploded_by(
        self,
        found: Seq<RangeWithContextView>,
        after: Self,
        done: Result<(), ContextConflict>,
    ) -> bool {
        &&& after.input() == self.input()
        &&& if brings_context(found) && self.contexts().len() > 0 {
            &&& done is Err
            &&& after.boundaries() == self.boundaries()
            &&& after.scope() == self.scope()
            &&& after.contexts() == self.contexts()
        } else {
            &&& done is Ok
            &&& points(after.boundaries()) == points(self.boundaries()).union(
                edges(ranges_of(found)),
            )
            &&& covered(after.scope()) == covered(self.scope()).intersect(covered(ranges_of(found)))
            &&& after.contexts() == if brings_context(found) {
                found
            } else {
                self.contexts()
            }
        }
    }

    /// Narrows what is in scope to what `found` covers of it, and cuts the text where a range
    /// of `found` starts or ends. What was out of scope stays so; what `found` brings with it
    /// is kept for the parts that it puts in scope.
    ///
    /// Only one of the scopes that are applied to a view may bring contexts: a second one is
    /// refused, and the builder stays as it was.
    pub fn explode_with(&mut self, found: RangesWithContext) -> (done: Result<(), ContextConflict>)
        requires
            old(self).wf(),
            is_scope_of(found@, bytes_of(old(self).input())),
        ensures
            final(self).wf(),
            old(self).is_exploded_by(found@, *final(self), done),
    {
        let with_context = found.brings_context();
        if with_context && self.contexts.len() > 0 {
            return Err(ContextConflict);
        }
        let ghost bytes = bytes_of(self.input());
        let ghost before = self.boundaries@;
        let ghost scope = self.in_scope@;
        let mut ranges = found.ranges();
        ranges.merge();
        let narrowed = self.in_scope.intersect(&ranges);
        let ends = endpoints(&found);
        let united = unite(&self.boundaries, &ends);
        proof {
            lemma_merged_edges(ranges_of(found@));
            lemma_shared_edges(narrowed@, scope, ranges@);
            assert forall|i: int| 0 <= i < united@.len() implies is_char_boundary(
                bytes,
                #[trigger] united@[i] as int,
            ) by {
                let point = united@[i] as int;
                assert(points(united@).contains(point));
                if points(before).contains(point) {
                    let k = choose|k: int| 0 <= k < before.len() && #[trigger] before[k] == point;
                } else {
                    let k = choose|k: int|
                        0 <= k < ranges_of(found@).len() && ((#[trigger] ranges_of(
                            found@,
                        )[k]).start == point || ranges_of(found@)[k].end == point);
                    assert(is_slice_of(found@[k].range, bytes));
                }
            }
        }
        self.in_scope = narrowed;
        self.boundaries = united;
        if with_context {
            self.contexts = found;
        }
        Ok(())
    }

    /// Applies a scoper: has it find its scope in the text that is viewed, and explodes the
    /// builder by what it has found there, as [`Self::explode_with`] does.
    ///
    /// So whatever the scoper finds: nothing comes into scope that was not in scope, no
    /// boundary is lost, contexts that are held stay, and the scoper is refused only where it
    /// brings contexts and another one did so before it, in which case the builder stays as
    /// it was.
    pub fn explode<S: Scoper + ?Sized>(&mut self, scoper: &S) -> (done: Result<
        (),
        ContextConflict,
    >)
        requires
            old(self).wf(),
        ensures
            final(self).wf(),
            final(self).input() == old(self).input(),
            old(self).text()@ == old(self).input(),
            exists|found: RangesWithContext|
                call_ensures(S::scope_raw, (scoper, old(self).text()), found) && #[trigger] old(
                    self,
                ).is_exploded_by(found@, *final(self), done),
            old(self).contexts().len() == 0 ==> done is Ok,
            old(self).contexts().len() > 0 ==> final(self).contexts() == old(self).contexts(),
            done is Err ==> {
                &&& final(self).boundaries() == old(self).boundaries()
                &&& final(self).scope() == old(self).scope()
                &&& final(self).contexts() == old(self).contexts()
            },
            done is Ok ==> covered(final(self).scope()).subset_of(covered(old(self).scope())),
            points(old(self).boundaries()).subset_of(points(final(self).boundaries())),
    {
        let found = scoper.scope_raw(self.viewee);
        let ghost scope = found;
        let done = self.explode_with(found);
        assert(call_ensures(S::scope_raw, (scoper, old(self).text()), scope));
        assert(old(self).is_exploded_by(scope@, *self, done));
        done
    }
}

/// One part of a view: a range of the text that was viewed, what stands in its place now,
/// whether it is in scope, and what it brings with it.
#[derive(Debug, PartialEq, Eq)]
pub struct Fragment {
    pub range: ByteRange,
    pub content: String,
    pub status: Status,
    pub context: Option<ScopeContext>,
}

/// What a [`Fragment`] stands for in contracts.
pub struct FragmentView {
    pub range: ByteRange,
    pub content: Seq<char>,
    pub status: Status,
    pub context: Option<Seq<CaptureBindingView>>,
}

impl View for Fragment {
    type V = FragmentView;

    open spec fn view(&self) -> FragmentView {
        FragmentView {
            range: self.range,
            content: self.content@,
            status: self.status,
            context: match self.context {
                Some(context) => Some(context@),
                None => None,
            },
        }
    }
}

/// The part of `input` from `start` to `end`, as it stands in the text: in scope where
/// `scope` covers its start, and then with what `contexts` bring with it.
pub open spec fn cell(
    input: Seq<char>,
    start: usize,
    end: usize,
    scope: Seq<ByteRange>,
    contexts: Seq<RangeWithContextView>,
) -> FragmentView {
    let range = ByteRange { start, end };
    if covered(scope).contains(start as int) {
        FragmentView {
            range,
            content: slice_of(input, range),
            status: Status::InScope,
            context: context_at(contexts, start as int),
        }
    } else {
        FragmentView {
            range,
            content: slice_of(input, range),
            status: Status::OutOfScope,
            context: None,
        }
    }
}

/// The parts into which `boundaries` cut `input`, from each boundary to the next.
pub open spec fn cells(
    input: Seq<char>,
    boundaries: Seq<usize>,
    scope: Seq<ByteRange>,
    contexts: Seq<RangeWithContextView>,
) -> Seq<FragmentView> {
    Seq::new(
        (boundaries.len() - 1) as nat,
        |k: int| cell(input, boundaries[k], boundaries[k + 1], scope, contexts),
    )
}

/// Whether the parts tile the text `bytes`: none is empty, each delimits a slice of the text,
/// the first starts where the text starts, each next one where the one before it ends, and
/// the last ends where the text ends. An empty text has no parts.
pub open spec fn tiles(fragments: Seq<FragmentView>, bytes: Seq<u8>) -> bool {
    &&& forall|k: int|
        0 <= k < fragments.len() ==> (#[trigger] fragments[k]).range.start
            < fragments[k].range.end && is_slice_of(fragments[k].range, bytes)
    &&& forall|k: int, next: int|
        0 <= k && next == k + 1 && next < fragments.len() ==> (#[trigger] fragments[k]).range.end
            == (#[trigger] fragments[next]).range.start
    &&& if fragments.len() == 0 {
        bytes.len() == 0
    } else {
        fragments[0].range.start == 0 && fragments.last().range.end == bytes.len()
    }
}

/// Whether the part holds what stands at its range in `input`.
pub open spec fn is_untouched(fragment: FragmentView, input: Seq<char>) -> bool {
    fragment.content == slice_of(input, fragment.range)
}

/// The contents of the first `count` parts, one after another.
pub open spec fn joined(fragments: Seq<FragmentView>, count: nat) -> Seq<char>
    decreases count,
{
    if count == 0 {
        Seq::empty()
    } else {
        joined(fragments, (count - 1) as nat) + fragments[count - 1].content
    }
}

/// Parts that tile a text and hold what stands at their ranges make up the text, read one
/// after another.
pub proof fn lemma_untouched_parts_make_up_the_text(
    fragments: Seq<FragmentView>,
    input: Seq<char>,
    count: nat,
)
    requires
        bytes_of(input).len() <= usize::MAX,
        tiles(fragments, bytes_of(input)),
        forall|k: int| 0 <= k < fragments.len() ==> is_untouched(#[trigger] fragments[k], input),
        count <= fragments.len(),
    ensures
        count > 0 ==> joined(fragments, count) == slice_of(
            input,
            ByteRange { start: 0, end: fragments[count - 1].range.end },
        ),
        count == fragments.len() ==> joined(fragments, count) == input,
    decreases count,
{
    let bytes = bytes_of(input);
    lemma_slice_whole(input);
    if count == 0 {
        if fragments.len() == 0 {
            assert(bytes.subrange(0, 0) =~= bytes);
            assert(decode_utf8(bytes) =~= Seq::<char>::empty());
        }
    } else if count == 1 {
        assert(is_untouched(fragments[0], input));
        assert(joined(fragments, 0) + fragments[0].content =~= fragments[0].content);
    } else {
        lemma_untouched_parts_make_up_the_text(fragments, input, (count - 1) as nat);
        let before = fragments[count - 2];
        let last = fragments[count - 1];
        assert(is_untouched(last, input));
        assert(before.range.end == last.range.start);
        assert(is_slice_of(before.range, bytes));
        assert(is_slice_of(last.range, bytes));
        assert(is_slice_of(fragments[0].range, bytes));
        lemma_slices_join(input, 0, last.range.start, last.range.end);
    }
}

/// The view of a text: its parts, in the order in which they stand in the text.
pub struct ScopedView<'viewee> {
    viewee: &'viewee str,
    fragments: Vec<Fragment>,
}

impl<'viewee> View for ScopedView<'viewee> {
    type V = Seq<FragmentView>;

    closed spec fn view(&self) -> Seq<FragmentView> {
        Seq::new(self.fragments@.len(), |k: int| self.fragments@[k]@)
    }
}

impl<'viewee> ScopedView<'viewee> {
    /// The text that is viewed.
    pub closed spec fn input(&self) -> Seq<char> {
        self.viewee@
    }

    /// Whether the view is in order: its parts tile the text that is viewed, and each part
    /// that is out of scope holds what stands at its range in the text, and brings nothing
    /// with it.
    pub open spec fn wf(&self) -> bool {
        &&& bytes_of(self.input()).len() <= usize::MAX
        &&& tiles(self@, bytes_of(self.input()))
        &&& forall|k: int|
            0 <= k < self@.len() && (#[trigger] self@[k]).status == Status::OutOfScope
                ==> is_untouched(self@[k], self.input()) && self@[k].context is None
    }
}

/// Moves on in normalized ranges to the first one that ends after `point`, and so finds out
/// whether the ranges cover `point`.
fn seek(ranges: &Ranges, from: usize, point: usize) -> (to: usize)
    requires
        is_normalized(ranges@),
        from <= ranges@.len(),
        forall|n: int| 0 <= n < from ==> (#[trigger] ranges@[n]).end <= point,
    ensures
        from <= to <= ranges@.len(),
        forall|n: int| 0 <= n < to ==> (#[trigger] ranges@[n]).end <= point,
        covered(ranges@).contains(point as int) <==> (to < ranges@.len() && ranges@[to as int].start
            <= point),
{
    let mut to = from;
    while to < ranges.len() && ranges.get(to).end <= point
        invariant
            from <= to <= ranges@.len(),
            forall|n: int| 0 <= n < to ==> (#[trigger] ranges@[n]).end <= point,
        decreases ranges@.len() - to,
    {
        to += 1;
    }
    proof {
        if to < ranges@.len() && ranges@[to as int].start <= point {
            assert(ranges@[to as int].covers(point as int));
        } else if covered(ranges@).contains(point as int) {
            let n = choose|n: int| 0 <= n < ranges@.len() && (#[trigger] ranges@[n]).covers(point as int);
            if n > to {
                assert(ranges@[to as int].end < ranges@[n].start);
                assert(ranges@[to as int].start < ranges@[to as int].end);
            }
        }
    }
    to
}

/// Moves on in a scope to the first range that ends after `point`, and so finds what is
/// brought with `point`.
fn seek_context(contexts: &RangesWithContext, from: usize, point: usize) -> (found: (
    usize,
    Option<ScopeContext>,
))
    requires
        forall|n: int|
            0 <= n < contexts@.len() ==> (#[trigger] contexts@[n]).range.start
                < contexts@[n].range.end,
        forall|n: int, m: int|
            0 <= n < m < contexts@.len() ==> (#[trigger] contexts@[n]).range.end <= (
            #[trigger] contexts@[m]).range.start,
        from <= contexts@.len(),
        forall|n: int| 0 <= n < from ==> (#[trigger] contexts@[n]).range.end <= point,
    ensures
        from <= found.0 <= contexts@.len(),
        forall|n: int| 0 <= n < found.0 ==> (#[trigger] contexts@[n]).range.end <= point,
        match (found.1, context_at(contexts@, point as int)) {
            (Some(given), Some(context)) => given@ == context,
            (None, None) => true,
            _ => false,
        },
{
    let mut to = from;
    while to < contexts.len() && contexts.get(to).range.end <= point
        invariant
            from <= to <= contexts@.len(),
            forall|n: int| 0 <= n < to ==> (#[trigger] contexts@[n]).range.end <= point,
        decreases contexts@.len() - to,
    {
        to += 1;
    }
    if to < contexts.len() && contexts.get(to).range.start <= point {
        proof {
            lemma_context_at(contexts@, to as int, point as int);
        }
        let context = match &contexts.get(to).context {
            Some(context) => Some(context.clone()),
            None => None,
        };
        (to, context)
    } else {
        proof {
            assert forall|n: int| 0 <= n < contexts@.len() implies !(
            #[trigger] contexts@[n]).range.covers(point as int) by {
                if n > to {
                    assert(contexts@[to as int].range.end <= contexts@[n].range.start);
                    assert(contexts@[to as int].range.start < contexts@[to as int].range.end);
                }
            }
            lemma_no_context_at(contexts@, point as int);
        }
        (to, None)
    }
}

/// Whatever scopers were applied: the parts into which ascending boundaries cut a text from
/// its start to its end tile the text, each holds what stands at its range, and read one after
/// another they are the text again, byte for byte.
pub proof fn law_view_reconstruction(
    input: Seq<char>,
    boundaries: Seq<usize>,
    scope: Seq<ByteRange>,
    contexts: Seq<RangeWithContextView>,
)
    requires
        bytes_of(input).len() <= usize::MAX,
        is_ascending(boundaries),
        points(boundaries).contains(0),
        points(boundaries).contains(bytes_of(input).len() as int),
        forall|i: int|
            0 <= i < boundaries.len() ==> is_char_boundary(
                bytes_of(input),
                #[trigger] boundaries[i] as int,
            ),
    ensures
        tiles(cells(input, boundaries, scope, contexts), bytes_of(input)),
        forall|k: int|
            0 <= k < cells(input, boundaries, scope, contexts).len() ==> is_untouched(
                #[trigger] cells(input, boundaries, scope, contexts)[k],
                input,
            ),
        forall|k: int|
            0 <= k < cells(input, boundaries, scope, contexts).len() && (#[trigger] cells(
                input,
                boundaries,
                scope,
                contexts,
            )[k]).status == Status::OutOfScope ==> cells(
                input,
                boundaries,
                scope,
                contexts,
            )[k].context is None,
        joined(
            cells(input, boundaries, scope, contexts),
            cells(input, boundaries, scope, contexts).len(),
        ) == input,
{
    let bytes = bytes_of(input);
    let all = cells(input, boundaries, scope, contexts);
    let count = boundaries.len();
    let zero = choose|z: int| 0 <= z < boundaries.len() && #[trigger] boundaries[z] == 0;
    let last = choose|z: int| 0 <= z < boundaries.len() && #[trigger] boundaries[z] == bytes.len();
    encode_utf8_valid_utf8(input);
    assert(boundaries[0] == 0) by {
        if zero > 0 {
            assert(boundaries[0] < boundaries[zero]);
        }
    }
    assert(boundaries[count - 1] == bytes.len()) by {
        if last < count - 1 {
            assert(boundaries[last] < boundaries[count - 1]);
            lemma_boundary_in_bounds(bytes, boundaries[count - 1] as int);
        }
    }
    assert forall|n: int| 0 <= n < all.len() implies (#[trigger] all[n]).range.start
        < all[n].range.end && is_slice_of(all[n].range, bytes) by {
        assert(boundaries[n] < boundaries[n + 1]);
    }
    assert(tiles(all, bytes));
    lemma_untouched_parts_make_up_the_text(all, input, all.len());
}

/// No boundary lies strictly between two boundaries that follow one another.
proof fn lemma_next_boundary(boundaries: Seq<usize>, index: int, other: int)
    requires
        is_ascending(boundaries),
        0 <= index < boundaries.len() - 1,
        points(boundaries).contains(other),
        boundaries[index] < other,
    ensures
        boundaries[index + 1] <= other,
{
    let m = choose|m: int| 0 <= m < boundaries.len() && #[trigger] boundaries[m] == other;
    if m < index {
        assert(boundaries[m] < boundaries[index]);
    } else if m > index + 1 {
        assert(boundaries[index + 1] < boundaries[m]);
    }
}

/// Between two boundaries that follow one another, everything is in scope or nothing is,
/// where what is in scope starts and ends at boundaries only.
pub proof fn lemma_cells_are_whole(
    boundaries: Seq<usize>,
    scope: Seq<ByteRange>,
    index: int,
    point: int,
)
    requires
        is_ascending(boundaries),
        edges(scope).subset_of(points(boundaries)),
        0 <= index < boundaries.len() - 1,
        boundaries[index] <= point < boundaries[index + 1],
    ensures
        covered(scope).contains(point) == covered(scope).contains(boundaries[index] as int),
{
    let start = boundaries[index] as int;
    if covered(scope).contains(point) {
        let n = choose|n: int| 0 <= n < scope.len() && (#[trigger] scope[n]).covers(point);
        if start < scope[n].start {
            assert(edges(scope).contains(scope[n].start as int));
            lemma_next_boundary(boundaries, index, scope[n].start as int);
        }
        assert(scope[n].covers(start));
    }
    if covered(scope).contains(start) {
        let n = choose|n: int| 0 <= n < scope.len() && (#[trigger] scope[n]).covers(start);
        if scope[n].end <= point {
            assert(edges(scope).contains(scope[n].end as int));
            lemma_next_boundary(boundaries, index, scope[n].end as int);
        }
        assert(scope[n].covers(point));
    }
}

impl<'viewee> ScopedViewBuilder<'viewee> {
    /// Builds the view: one part from each boundary to the next. A part is in scope where
    /// what is in scope covers it, and then brings with it what the scoper that found it gave.
    /// Read one after another, the parts make up the text.
    pub fn build(self) -> (view: ScopedView<'viewee>)
        requires
            self.wf(),
        ensures
            view.wf(),
            view.input() == self.input(),
            view@ == cells(self.input(), self.boundaries(), self.scope(), self.contexts()),
            forall|k: int| 0 <= k < view@.len() ==> is_untouched(#[trigger] view@[k], view.input()),
            joined(view@, view@.len()) == view.input(),
            forall|k: int, point: int|
                0 <= k < view@.len() && (#[trigger] view@[k]).range.covers(point) ==> (
                #[trigger] covered(self.scope()).contains(point) <==> view@[k].status
                    == Status::InScope),
    {
        let ghost input = self.input();
        let ghost bytes = bytes_of(input);
        let ghost boundaries = self.boundaries@;
        let ghost scope = self.in_scope@;
        let ghost contexts = self.contexts@;
        let ghost all = cells(input, boundaries, scope, contexts);
        let count = self.boundaries.len();
        let mut fragments: Vec<Fragment> = Vec::new();
        let mut i: usize = 0;
        let mut j: usize = 0;
        let mut k: usize = 0;
        proof {
            let zero = choose|z: int| 0 <= z < boundaries.len() && #[trigger] boundaries[z] == 0;
            assert(count > 0);
        }
        while k + 1 < count
            invariant
                self.wf(),
                input == self.input(),
                bytes == bytes_of(input),
                boundaries == self.boundaries@,
                scope == self.in_scope@,
                contexts == self.contexts@,
                all == cells(input, boundaries, scope, contexts),
                count == boundaries.len(),
                count > 0,
                k < count,
                i <= scope.len(),
                j <= contexts.len(),
                forall|n: int| 0 <= n < i ==> (#[trigger] scope[n]).end <= boundaries[k as int],
                forall|n: int|
                    0 <= n < j ==> (#[trigger] contexts[n]).range.end <= boundaries[k as int],
                fragments@.len() == k,
                forall|n: int| 0 <= n < k ==> (#[trigger] fragments@[n])@ == all[n],
            decreases count - k,
        {
            let start = self.boundaries[k];
            let end = self.boundaries[k + 1];
            proof {
                assert(boundaries[k as int] < boundaries[k + 1]);
                assert(is_char_boundary(bytes, boundaries[k as int] as int));
                assert(is_char_boundary(bytes, boundaries[k + 1] as int));
            }
            i = seek(&self.in_scope, i, start);
            let in_scope = i < self.in_scope.len() && self.in_scope.get(i).start <= start;
            let (status, context) = if in_scope {
                let (next, context) = seek_context(&self.contexts, j, start);
                j = next;
                (Status::InScope, context)
            } else {
                (Status::OutOfScope, None)
            };
            let range = ByteRange { start, end };
            let content = slice(self.viewee, range).to_owned();
            fragments.push(Fragment { range, content, status, context });
            assert(fragments@[k as int]@ == all[k as int]);
            k += 1;
        }
        let view = ScopedView { viewee: self.viewee, fragments };
        proof {
            assert(view@ =~= all);
            law_view_reconstruction(input, boundaries, scope, contexts);
            assert forall|n: int, point: int|
                0 <= n < view@.len() && (#[trigger] view@[n]).range.covers(point) implies (
            #[trigger] covered(scope).contains(point) <==> view@[n].status
                == Status::InScope) by {
                lemma_cells_are_whole(boundaries, scope, n, point);
            }
        }
        view
    }
}

/// An action could not be applied to a part of a view.
#[derive(Debug, PartialEq, Eq)]
pub struct ApplyError {
    /// The place of the action among those that were to be applied.
    pub action: usize,
    /// The place of the part in the view.
    pub fragment: usize,
    /// Why the action could not be applied to the part.
    pub cause: ActionError,
}

/// What an [`ApplyError`] stands for in contracts.
pub struct ApplyErrorView {
    pub action: int,
    pub fragment: int,
    pub cause: ActionErrorView,
}

impl View for ApplyError {
    type V = ApplyErrorView;

    open spec fn view(&self) -> ApplyErrorView {
        ApplyErrorView {
            action: self.action as int,
            fragment: self.fragment as int,
            cause: self.cause@,
        }
    }
}

/// What `action` makes of a part: nothing new where the part is out of scope, and else the
/// same part with what the action makes of its content, given what the part brings with it.
pub open spec fn acted<A: Action + ?Sized>(action: &A, fragment: FragmentView) -> Result<
    FragmentView,
    ActionErrorView,
> {
    match fragment.status {
        Status::OutOfScope => Ok(fragment),
        Status::InScope => match fragment.context {
            Some(context) => match action.spec_act_with_context(fragment.content, context) {
                Ok(content) => Ok(FragmentView { content, ..fragment }),
                Err(error) => Err(error),
            },
            None => Ok(FragmentView { content: action.spec_act(fragment.content), ..fragment }),
        },
    }
}

/// What `action` makes of the first `count` parts, taken in order, or the place of the first
/// part to which it could not be applied, and why.
pub open spec fn mapped<A: Action + ?Sized>(
    action: &A,
    fragments: Seq<FragmentView>,
    count: nat,
) -> Result<Seq<FragmentView>, (int, ActionErrorView)>
    decreases count,
{
    if count == 0 {
        Ok(Seq::empty())
    } else {
        match mapped(action, fragments, (count - 1) as nat) {
            Ok(done) => match acted(action, fragments[count - 1]) {
                Ok(fragment) => Ok(done.push(fragment)),
                Err(error) => Err((count - 1, error)),
            },
            Err(error) => Err(error),
        }
    }
}

/// Whether `after` is `before` with, at most, another content.
pub open spec fn is_rewritten(before: FragmentView, after: FragmentView) -> bool {
    &&& after.range == before.range
    &&& after.status == before.status
    &&& after.context == before.context
    &&& before.status == Status::OutOfScope ==> after.content == before.content
}

/// An action changes nothing but the content of parts that are in scope.
pub proof fn lemma_mapped_rewrites<A: Action + ?Sized>(
    action: &A,
    fragments: Seq<FragmentView>,
    count: nat,
)
    requires
        count <= fragments.len(),
    ensures
        mapped(action, fragments, count) matches Ok(done) ==> done.len() == count && forall|
            k: int,
        |
            0 <= k < count ==> is_rewritten(fragments[k], #[trigger] done[k]) && acted(
                action,
                fragments[k],
            ) == Ok::<FragmentView, ActionErrorView>(done[k]),
        mapped(action, fragments, count) matches Err(error) ==> 0 <= error.0 < count && acted(
            action,
            fragments[error.0],
        ) == Err::<FragmentView, ActionErrorView>(error.1),
    decreases count,
{
    if count > 0 {
        lemma_mapped_rewrites(action, fragments, (count - 1) as nat);
    }
}

/// Once an action could not be applied to a part, that stays the first such part however
/// many more are looked at.
pub proof fn lemma_mapped_fails<A: Action + ?Sized>(
    action: &A,
    fragments: Seq<FragmentView>,
    count: nat,
    more: nat,
)
    requires
        count <= more,
        mapped(action, fragments, count) is Err,
    ensures
        mapped(action, fragments, more) == mapped(action, fragments, count),
    decreases more,
{
    if count < more {
        lemma_mapped_fails(action, fragments, count, (more - 1) as nat);
    }
}

impl<'viewee> ScopedView<'viewee> {
    /// The number of parts.
    pub fn len(&self) -> (len: usize)
        ensures
            len == self@.len(),
    {
        self.fragments.len()
    }

    /// The part at place `index`.
    pub fn get(&self, index: usize) -> (fragment: &Fragment)
        requires
            index < self@.len(),
        ensures
            fragment@ == self@[index as int],
    {
        &self.fragments[index]
    }

    /// Tells whether any part is in scope.
    pub fn has_any_in_scope(&self) -> (any: bool)
        ensures
            any == exists|k: int| 0 <= k < self@.len() && (#[trigger] self@[k]).status == Status::InScope,
    {
        let mut index: usize = 0;
        while index < self.fragments.len()
            invariant
                index <= self.fragments@.len(),
                forall|k: int| 0 <= k < index ==> (#[trigger] self@[k]).status != Status::InScope,
            decreases self.fragments@.len() - index,
        {
            match self.fragments[index].status {
                Status::InScope => {
                    assert(self@[index as int].status == Status::InScope);
                    return true;
                },
                Status::OutOfScope => {},
            }
            index += 1;
        }
        false
    }

    /// Reads the view out: the contents of its parts, one after another.
    pub fn to_string(&self) -> (text: String)
        ensures
            text@ == joined(self@, self@.len()),
    {
        let mut text = String::new();
        let mut index: usize = 0;
        while index < self.fragments.len()
            invariant
                index <= self.fragments@.len(),
                text@ == joined(self@, index as nat),
            decreases self.fragments@.len() - index,
        {
            text.append(self.fragments[index].content.as_str());
            assert(self@[index as int].content == self.fragments@[index as int].content@);
            index += 1;
        }
        text
    }
}

impl<'viewee> ScopedView<'viewee> {
    /// What `action` makes of each part, in order: the new content of each part that is in
    /// scope, and nothing for one that is out of scope.
    fn contents<A: Action + ?Sized>(&self, action: &A) -> (made: Result<
        Vec<Option<String>>,
        ApplyError,
    >)
        ensures
            match mapped(action, self@, self@.len()) {
                Ok(fragments) => made matches Ok(contents) && contents@.len() == self@.len()
                    && forall|k: int|
                    0 <= k < self@.len() ==> match #[trigger] contents@[k] {
                        Some(content) => content@ == fragments[k].content,
                        None => self@[k].content == fragments[k].content,
                    },
                Err((fragment, cause)) => made matches Err(error) && error@ == (ApplyErrorView {
                    action: 0,
                    fragment,
                    cause,
                }),
            },
    {
        let mut contents: Vec<Option<String>> = Vec::new();
        let mut index: usize = 0;
        while index < self.fragments.len()
            invariant
                index <= self.fragments@.len(),
                contents@.len() == index,
                mapped(action, self@, index as nat) matches Ok(fragments) && forall|k: int|
                    0 <= k < index ==> match #[trigger] contents@[k] {
                        Some(content) => content@ == fragments[k].content,
                        None => self@[k].content == fragments[k].content,
                    },
            decreases self.fragments@.len() - index,
        {
            let fragment = &self.fragments[index];
            proof {
                assert(fragment@ == self@[index as int]);
                lemma_mapped_rewrites(action, self@, index as nat);
            }
            let content = match fragment.status {
                Status::OutOfScope => None,
                Status::InScope => match &fragment.context {
                    Some(context) => match action.act_with_context(
                        fragment.content.as_str(),
                        context,
                    ) {
                        Ok(content) => Some(content),
                        Err(cause) => {
                            proof {
                                lemma_mapped_fails(action, self@, (index + 1) as nat, self@.len());
                            }
                            return Err(ApplyError { action: 0, fragment: index, cause });
                        },
                    },
                    None => Some(action.act(fragment.content.as_str())),
                },
            };
            contents.push(content);
            index += 1;
        }
        Ok(contents)
    }

    /// Applies `action` to every part that is in scope, in order, and puts what it makes of
    /// each in its place. Where the action cannot be applied to a part, the view stays as it
    /// was. Parts that are out of scope are never touched.
    pub fn map<A: Action + ?Sized>(&mut self, action: &A) -> (done: Result<(), ApplyError>)
        ensures
            final(self).input() == old(self).input(),
            match mapped(action, old(self)@, old(self)@.len()) {
                Ok(fragments) => done is Ok && final(self)@ == fragments,
                Err((fragment, cause)) => done matches Err(error) && error@ == (ApplyErrorView {
                    action: 0,
                    fragment,
                    cause,
                }) && final(self)@ == old(self)@,
            },
            final(self)@.len() == old(self)@.len(),
            forall|k: int|
                0 <= k < old(self)@.len() ==> is_rewritten(old(self)@[k], #[trigger] final(self)@[k]),
            old(self).wf() ==> final(self).wf(),
    {
        let ghost before = self@;
        proof {
            lemma_mapped_rewrites(action, before, before.len());
        }
        let mut contents = match self.contents(action) {
            Ok(contents) => contents,
            Err(error) => {
                return Err(error);
            },
        };
        let ghost after = mapped(action, before, before.len())->Ok_0;
        let mut index: usize = contents.len();
        while index > 0
            invariant
                self.input() == old(self).input(),
                before == old(self)@,
                mapped(action, before, before.len()) == Ok::<
                    Seq<FragmentView>,
                    (int, ActionErrorView),
                >(after),
                after.len() == before.len(),
                self@.len() == before.len(),
                index <= before.len(),
                contents@.len() == index,
                forall|k: int| 0 <= k < index ==> #[trigger] self@[k] == before[k],
                forall|k: int| index <= k < before.len() ==> #[trigger] self@[k] == after[k],
                forall|k: int|
                    0 <= k < index ==> match #[trigger] contents@[k] {
                        Some(content) => content@ == after[k].content,
                        None => before[k].content == after[k].content,
                    },
                forall|k: int| 0 <= k < before.len() ==> is_rewritten(before[k], #[trigger] after[k]),
            decreases index,
        {
            index -= 1;
            let ghost held = self@;
            let ghost pending = contents@;
            let content = contents.pop().unwrap();
            assert(content == pending[index as int]);
            assert(held[index as int] == before[index as int]);
            assert(is_rewritten(before[index as int], after[index as int]));
            if let Some(content) = content {
                self.fragments[index].content = content;
                assert(self@[index as int].content == after[index as int].content);
            }
            proof {
                assert(self@[index as int] == after[index as int]);
                assert forall|k: int| 0 <= k < index implies #[trigger] self@[k] == before[k] by {
                    assert(self@[k] == held[k]);
                }
                assert forall|k: int| index < k < before.len() implies #[trigger] self@[k]
                    == after[k] by {
                    assert(self@[k] == held[k]);
                }
            }
        }
        assert(self@ =~= after);
        proof {
            if old(self).wf() {
                assert forall|k: int|
                    0 <= k < self@.len() && (#[trigger] self@[k]).status == Status::OutOfScope
                    implies is_untouched(self@[k], self.input()) && self@[k].context is None by {
                    assert(is_rewritten(before[k], after[k]));
                }
                assert(tiles(self@, bytes_of(self.input()))) by {
                    assert forall|k: int| 0 <= k < self@.len() implies (#[trigger] self@[k]).range.start
                        < self@[k].range.end && is_slice_of(
                        self@[k].range,
                        bytes_of(self.input()),
                    ) by {
                        assert(is_rewritten(before[k], after[k]));
                    }
                    assert forall|k: int, next: int|
                        0 <= k && next == k + 1 && next < self@.len() implies (
                    #[trigger] self@[k]).range.end == (#[trigger] self@[next]).range.start by {
                        assert(is_rewritten(before[k], after[k]));
                        assert(is_rewritten(before[next], after[next]));
                    }
                    if self@.len() > 0 {
                        assert(is_rewritten(before[0], after[0]));
                        assert(is_rewritten(before[before.len() - 1], after[before.len() - 1]));
                    }
                }
            }
        }
        Ok(())
    }
}

/// What the first `count` of `actions` make of the parts, each applied to what the one before
/// it has made: the parts as they are after the last action that could be applied to all of
/// them, and, where one could not, which one, to which part, and why.
pub open spec fn applied(
    actions: Seq<Box<dyn Action>>,
    fragments: Seq<FragmentView>,
    count: nat,
) -> (Seq<FragmentView>, Option<ApplyErrorView>)
    decreases count,
{
    if count == 0 {
        (fragments, None)
    } else {
        let (done, failed) = applied(actions, fragments, (count - 1) as nat);
        match failed {
            Some(error) => (done, Some(error)),
            None => match mapped(&actions[count - 1], done, done.len()) {
                Ok(next) => (next, None),
                Err((fragment, cause)) => (
                    done,
                    Some(ApplyErrorView { action: count - 1, fragment, cause }),
                ),
            },
        }
    }
}

/// Once an action could not be applied, the actions after it are not applied either.
pub proof fn lemma_applied_fails(
    actions: Seq<Box<dyn Action>>,
    fragments: Seq<FragmentView>,
    count: nat,
    more: nat,
)
    requires
        count <= more,
        applied(actions, fragments, count).1 is Some,
    ensures
        applied(actions, fragments, more) == applied(actions, fragments, count),
    decreases more,
{
    if count < more {
        lemma_applied_fails(actions, fragments, count, (more - 1) as nat);
    }
}

impl<'viewee> ScopedView<'viewee> {
    /// Applies `actions` to the view, one after another: each to every part that is in scope,
    /// in order, starting from what the action before it has made of the part. Where an
    /// action cannot be applied to a part, it and the actions after it are not applied at all.
    /// Parts that are out of scope are never touched.
    pub fn apply(&mut self, actions: &[Box<dyn Action>]) -> (done: Result<(), ApplyError>)
        ensures
            final(self).input() == old(self).input(),
            final(self)@ == applied(actions@, old(self)@, actions@.len()).0,
            match applied(actions@, old(self)@, actions@.len()).1 {
                Some(failed) => done matches Err(error) && error@ == failed,
                None => done is Ok,
            },
            final(self)@.len() == old(self)@.len(),
            forall|k: int|
                0 <= k < old(self)@.len() ==> is_rewritten(old(self)@[k], #[trigger] final(self)@[k]),
            old(self).wf() ==> final(self).wf(),
    {
        let ghost before = self@;
        let mut index: usize = 0;
        while index < actions.len()
            invariant
                self.input() == old(self).input(),
                before == old(self)@,
                index <= actions@.len(),
                applied(actions@, before, index as nat) == (self@, None::<ApplyErrorView>),
                self@.len() == before.len(),
                forall|k: int| 0 <= k < before.len() ==> is_rewritten(before[k], #[trigger] self@[k]),
                old(self).wf() ==> self.wf(),
            decreases actions@.len() - index,
        {
            let ghost held = self@;
            match self.map(&actions[index]) {
                Ok(()) => {
                    assert forall|k: int| 0 <= k < before.len() implies is_rewritten(
                        before[k],
                        #[trigger] self@[k],
                    ) by {
                        assert(is_rewritten(before[k], held[k]));
                        assert(is_rewritten(held[k], self@[k]));
                    }
                },
                Err(error) => {
                    proof {
                        lemma_applied_fails(actions@, before, (index + 1) as nat, actions@.len());
                    }
                    return Err(
                        ApplyError { action: index, fragment: error.fragment, cause: error.cause },
                    );
                },
            }
            index += 1;
        }
        Ok(())
    }
}

/// Whatever actions are applied to a view, and however many: its parts keep their ranges,
/// their standing and what they bring with them, and a part that is out of scope keeps its
/// content.
pub proof fn law_out_of_scope_is_kept(
    actions: Seq<Box<dyn Action>>,
    fragments: Seq<FragmentView>,
    count: nat,
)
    requires
        count <= actions.len(),
    ensures
        applied(actions, fragments, count).0.len() == fragments.len(),
        forall|k: int|
            0 <= k < fragments.len() ==> is_rewritten(
                fragments[k],
                #[trigger] applied(actions, fragments, count).0[k],
            ),
    decreases count,
{
    if count > 0 {
        law_out_of_scope_is_kept(actions, fragments, (count - 1) as nat);
        let (done, failed) = applied(actions, fragments, (count - 1) as nat);
        if failed is None {
            lemma_mapped_rewrites(&actions[count - 1], done, done.len());
            let after = applied(actions, fragments, count).0;
            assert forall|k: int| 0 <= k < fragments.len() implies is_rewritten(
                fragments[k],
                #[trigger] after[k],
            ) by {
                assert(is_rewritten(fragments[k], done[k]));
                if mapped(&actions[count - 1], done, done.len()) is Ok {
                    assert(is_rewritten(done[k], after[k]));
                }
            }
        }
    }
}

} // verus!

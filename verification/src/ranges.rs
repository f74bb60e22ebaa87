//! Half-open byte ranges, and the algebra on sets of them: merging, subtracting, inverting.
//!
//! A sequence of ranges stands for the set of byte offsets that its ranges cover. Every such
//! set has exactly one normal form: the sequence of non-empty ranges, in ascending order, of
//! which no two overlap or touch, that covers it. The operations here are stated by the set
//! that their result covers, and return it in normal form.

use vstd::prelude::*;

verus! {

/// A half-open span `[start, end)` of byte offsets. It is empty where `end` does not exceed
/// `start`.
#[derive(Clone, Copy, Debug, PartialEq, Eq, Hash, Structural)]
pub struct ByteRange {
    pub start: usize,
    pub end: usize,
}

impl ByteRange {
    /// The range from `start` up to, but not including, `end`.
    pub fn new(start: usize, end: usize) -> (range: ByteRange)
        ensures
            range == (ByteRange { start, end }),
    {
        ByteRange { start, end }
    }

    /// Whether the range covers the offset `point`.
    pub open spec fn covers(self, point: int) -> bool {
        self.start <= point < self.end
    }

    /// The offsets that the range covers.
    pub open spec fn span(self) -> Set<int> {
        Set::new(|point: int| self.covers(point))
    }

    /// The number of bytes in the range.
    pub fn len(&self) -> (len: usize)
        ensures
            len == if self.start <= self.end {
                self.end - self.start
            } else {
                0
            },
    {
        if self.start <= self.end {
            self.end - self.start
        } else {
            0
        }
    }

    /// Whether the range covers no offset.
    pub fn is_empty(&self) -> (empty: bool)
        ensures
            empty == (self.start >= self.end),
            empty == (self.span() =~= Set::<int>::empty()),
    {
        proof {
            if self.start < self.end {
                assert(self.span().contains(self.start as int));
            }
        }
        self.start >= self.end
    }
}

/// The offsets that some range of `ranges` covers.
pub open spec fn covered(ranges: Seq<ByteRange>) -> Set<int> {
    Set::new(|point: int| exists|i: int| 0 <= i < ranges.len() && (#[trigger] ranges[i]).covers(point))
}

/// Whether `ranges` is in normal form: every range is non-empty, and each ends before the next
/// starts, with at least one offset between them.
pub open spec fn is_normalized(ranges: Seq<ByteRange>) -> bool {
    &&& forall|i: int| 0 <= i < ranges.len() ==> (#[trigger] ranges[i]).start < ranges[i].end
    &&& forall|i: int, j: int|
        0 <= i < j < ranges.len() ==> (#[trigger] ranges[i]).end < (#[trigger] ranges[j]).start
}

/// The normal form of the set `points`: the one normalized sequence of ranges that covers
/// exactly `points`. (See [`lemma_normal_form`] for when it exists, and
/// [`lemma_normalized_unique`] for why there is no other.)
pub open spec fn normal_form(points: Set<int>) -> Seq<ByteRange> {
    choose|ranges: Seq<ByteRange>| is_normalized(ranges) && covered(ranges) == points
}

/// The offsets from 0 up to, but not including, `total_len`.
pub open spec fn all_below(total_len: int) -> Set<int> {
    Set::new(|point: int| 0 <= point < total_len)
}

/// What merging makes of `ranges`: the normal form of what they cover.
pub open spec fn merged(ranges: Seq<ByteRange>) -> Seq<ByteRange> {
    normal_form(covered(ranges))
}

/// What subtracting `b` from `a` leaves: the normal form of what `a` covers and `b` does not.
pub open spec fn subtracted(a: Seq<ByteRange>, b: Seq<ByteRange>) -> Seq<ByteRange> {
    normal_form(covered(a).difference(covered(b)))
}

/// What `a` and `b` share: the normal form of what both cover.
pub open spec fn intersected(a: Seq<ByteRange>, b: Seq<ByteRange>) -> Seq<ByteRange> {
    normal_form(covered(a).intersect(covered(b)))
}

/// The complement of `ranges` within `[0, total_len)`: the normal form of the offsets below
/// `total_len` that `ranges` do not cover.
pub open spec fn inverted(ranges: Seq<ByteRange>, total_len: int) -> Seq<ByteRange> {
    normal_form(all_below(total_len).difference(covered(ranges)))
}

/// Two normalized sequences that cover the same offsets are the same sequence.
pub proof fn lemma_normalized_unique(a: Seq<ByteRange>, b: Seq<ByteRange>)
    requires
        is_normalized(a),
        is_normalized(b),
        covered(a) == covered(b),
    ensures
        a == b,
    decreases a.len(),
{
    if a.len() == 0 {
        if b.len() > 0 {
            assert(b[0].covers(b[0].start as int));
            assert(covered(b).contains(b[0].start as int));
            assert(covered(a).contains(b[0].start as int));
        }
        assert(a =~= b);
    } else {
        assert(a[0].covers(a[0].start as int));
        assert(covered(a).contains(a[0].start as int));
        assert(covered(b).contains(a[0].start as int));
        assert(b.len() > 0);
        assert(b[0].covers(b[0].start as int));
        assert(covered(b).contains(b[0].start as int));
        assert(covered(a).contains(b[0].start as int));
        // The first ranges start at the same offset: the least one covered.
        assert(a[0].start == b[0].start) by {
            let ja = choose|j: int| 0 <= j < b.len() && (#[trigger] b[j]).covers(a[0].start as int);
            let jb = choose|j: int| 0 <= j < a.len() && (#[trigger] a[j]).covers(b[0].start as int);
            if ja > 0 {
                assert(b[0].end < b[ja].start);
            }
            if jb > 0 {
                assert(a[0].end < a[jb].start);
            }
        }
        // And they end at the same offset: the first one after it that is not covered.
        lemma_first_end(a, b);
        lemma_first_end(b, a);
        assert(a[0] == b[0]);
        let ta = a.drop_first();
        let tb = b.drop_first();
        lemma_rest_covers(a, b);
        lemma_rest_covers(b, a);
        assert(covered(ta) =~= covered(tb));
        lemma_normalized_unique(ta, tb);
        assert(a =~= seq![a[0]] + ta);
        assert(b =~= seq![b[0]] + tb);
    }
}

/// Of two normalized sequences that cover the same offsets and start alike, the first range of
/// the one ends no later than that of the other.
proof fn lemma_first_end(a: Seq<ByteRange>, b: Seq<ByteRange>)
    requires
        is_normalized(a),
        is_normalized(b),
        covered(a) == covered(b),
        a.len() > 0,
        b.len() > 0,
        a[0].start == b[0].start,
    ensures
        a[0].end >= b[0].end,
{
    if a[0].end < b[0].end {
        let point = a[0].end as int;
        assert(b[0].covers(point));
        assert(covered(b).contains(point));
        assert(covered(a).contains(point));
        let i = choose|i: int| 0 <= i < a.len() && (#[trigger] a[i]).covers(point);
        if i > 0 {
            assert(a[0].end < a[i].start);
        }
    }
}

/// Of two normalized sequences that cover the same offsets and have the same first range, what
/// the rest of the one covers, the rest of the other covers too.
proof fn lemma_rest_covers(a: Seq<ByteRange>, b: Seq<ByteRange>)
    requires
        is_normalized(a),
        is_normalized(b),
        covered(a) == covered(b),
        a.len() > 0,
        b.len() > 0,
        a[0] == b[0],
    ensures
        is_normalized(a.drop_first()),
        covered(a.drop_first()).subset_of(covered(b.drop_first())),
{
    let ta = a.drop_first();
    let tb = b.drop_first();
    assert forall|i: int, j: int| 0 <= i < j < ta.len() implies (#[trigger] ta[i]).end < (
    #[trigger] ta[j]).start by {
        assert(a[i + 1].end < a[j + 1].start);
    }
    assert forall|point: int| covered(ta).contains(point) implies covered(tb).contains(point) by {
        let i = choose|i: int| 0 <= i < ta.len() && (#[trigger] ta[i]).covers(point);
        assert(a[i + 1].covers(point));
        assert(covered(a).contains(point));
        assert(covered(b).contains(point));
        let j = choose|j: int| 0 <= j < b.len() && (#[trigger] b[j]).covers(point);
        assert(a[0].end < a[i + 1].start);
        assert(j > 0);
        assert(tb[j - 1].covers(point));
    }
}

/// A sequence that is normalized and covers `points` is the normal form of `points`.
pub proof fn lemma_is_normal_form(ranges: Seq<ByteRange>, points: Set<int>)
    requires
        is_normalized(ranges),
        covered(ranges) =~= points,
    ensures
        ranges == normal_form(points),
        is_normalized(normal_form(points)),
        covered(normal_form(points)) == points,
{
    lemma_normalized_unique(ranges, normal_form(points));
}

/// Adding a range to a sequence adds what the range covers.
pub proof fn lemma_covered_push(ranges: Seq<ByteRange>, range: ByteRange)
    ensures
        covered(ranges.push(range)) =~= covered(ranges).union(range.span()),
{
    let more = ranges.push(range);
    assert forall|point: int| covered(more).contains(point) implies covered(ranges).union(
        range.span(),
    ).contains(point) by {
        let i = choose|i: int| 0 <= i < more.len() && (#[trigger] more[i]).covers(point);
        if i < ranges.len() {
            assert(ranges[i].covers(point));
        }
    }
    assert forall|point: int| covered(ranges).union(range.span()).contains(
        point,
    ) implies covered(more).contains(point) by {
        if covered(ranges).contains(point) {
            let i = choose|i: int| 0 <= i < ranges.len() && (#[trigger] ranges[i]).covers(point);
            assert(more[i].covers(point));
        } else {
            assert(more[ranges.len() as int].covers(point));
        }
    }
}

/// Two sequences joined cover what either covers.
pub proof fn lemma_covered_concat(a: Seq<ByteRange>, b: Seq<ByteRange>)
    ensures
        covered(a + b) =~= covered(a).union(covered(b)),
    decreases b.len(),
{
    if b.len() == 0 {
        assert(a + b =~= a);
        assert(covered(b) =~= Set::<int>::empty());
    } else {
        let front = b.drop_last();
        lemma_covered_concat(a, front);
        lemma_covered_push(a + front, b.last());
        lemma_covered_push(front, b.last());
        assert(a + b =~= (a + front).push(b.last()));
        assert(b =~= front.push(b.last()));
    }
}

/// The empty sequence covers nothing.
pub proof fn lemma_covered_empty()
    ensures
        covered(Seq::<ByteRange>::empty()) =~= Set::<int>::empty(),
{
}

/// A normalized sequence stays normalized when a non-empty range is added that starts after
/// the last one has ended.
pub proof fn lemma_normalized_push(ranges: Seq<ByteRange>, range: ByteRange)
    requires
        is_normalized(ranges),
        range.start < range.end,
        ranges.len() > 0 ==> ranges.last().end < range.start,
    ensures
        is_normalized(ranges.push(range)),
{
    let more = ranges.push(range);
    assert forall|i: int, j: int| 0 <= i < j < more.len() implies (#[trigger] more[i]).end < (
    #[trigger] more[j]).start by {
        if j == ranges.len() && i < ranges.len() - 1 {
            assert(ranges[i].end < ranges[ranges.len() - 1].start);
        }
    }
}

/// The ranges below `below` that cover exactly the offsets of `points` below it: each run of
/// offsets that follow one another is one range.
pub open spec fn runs(points: Set<int>, below: nat) -> Seq<ByteRange>
    decreases below,
{
    if below == 0 {
        Seq::empty()
    } else {
        let before = runs(points, (below - 1) as nat);
        if !points.contains(below - 1) {
            before
        } else if before.len() > 0 && before.last().end == below - 1 {
            before.drop_last().push(ByteRange { start: before.last().start, end: below as usize })
        } else {
            before.push(ByteRange { start: (below - 1) as usize, end: below as usize })
        }
    }
}

/// The runs of a set are in normal form and cover the set, as far as they go.
pub proof fn lemma_runs(points: Set<int>, below: nat)
    requires
        below <= usize::MAX,
    ensures
        is_normalized(runs(points, below)),
        covered(runs(points, below)) =~= points.intersect(all_below(below as int)),
        forall|i: int|
            0 <= i < runs(points, below).len() ==> (#[trigger] runs(points, below)[i]).end <= below,
    decreases below,
{
    if below > 0 {
        let before = runs(points, (below - 1) as nat);
        let after = runs(points, below);
        let point = below - 1;
        lemma_runs(points, (below - 1) as nat);
        let target = points.intersect(all_below(below as int));
        let earlier = points.intersect(all_below(below - 1));
        if !points.contains(point) {
            assert(target =~= earlier);
        } else if before.len() > 0 && before.last().end == point {
            let front = before.drop_last();
            let last = before.last();
            let longer = ByteRange { start: last.start, end: below as usize };
            assert(before =~= front.push(last));
            lemma_covered_push(front, last);
            lemma_covered_push(front, longer);
            assert(longer.span() =~= last.span().insert(point));
            assert forall|i: int, j: int| 0 <= i < j < front.len() implies (
            #[trigger] front[i]).end < (#[trigger] front[j]).start by {
                assert(before[i].end < before[j].start);
            }
            assert(is_normalized(front));
            if front.len() > 0 {
                assert(before[front.len() - 1].end < before[front.len() as int].start);
            }
            lemma_normalized_push(front, longer);
            assert(target =~= earlier.insert(point));
        } else {
            let single = ByteRange { start: point as usize, end: below as usize };
            lemma_covered_push(before, single);
            assert(single.span() =~= Set::<int>::empty().insert(point));
            lemma_normalized_push(before, single);
            assert(target =~= earlier.insert(point));
        }
    } else {
        assert(points.intersect(all_below(0)) =~= Set::<int>::empty());
    }
}

/// Every set of offsets that byte ranges can cover has a normal form.
pub proof fn lemma_normal_form(points: Set<int>)
    requires
        points.subset_of(all_below(usize::MAX as int)),
    ensures
        is_normalized(normal_form(points)),
        covered(normal_form(points)) == points,
{
    lemma_runs(points, usize::MAX as nat);
    lemma_is_normal_form(runs(points, usize::MAX as nat), points);
}

/// What byte ranges cover lies below the largest offset.
pub proof fn lemma_covered_bounded(ranges: Seq<ByteRange>)
    ensures
        covered(ranges).subset_of(all_below(usize::MAX as int)),
{
    assert forall|point: int| covered(ranges).contains(point) implies all_below(
        usize::MAX as int,
    ).contains(point) by {
        let i = choose|i: int| 0 <= i < ranges.len() && (#[trigger] ranges[i]).covers(point);
    }
}

/// Whether the ranges are in ascending order of their starts.
pub open spec fn is_sorted(ranges: Seq<ByteRange>) -> bool {
    forall|i: int, j: int|
        0 <= i <= j < ranges.len() ==> (#[trigger] ranges[i]).start <= (#[trigger] ranges[j]).start
}

/// Joins two sorted vectors of ranges into one.
fn zip_sorted(left: &Vec<ByteRange>, right: &Vec<ByteRange>) -> (joined: Vec<ByteRange>)
    requires
        is_sorted(left@),
        is_sorted(right@),
        left@.len() + right@.len() <= usize::MAX,
    ensures
        is_sorted(joined@),
        covered(joined@) == covered(left@).union(covered(right@)),
        joined@.len() == left@.len() + right@.len(),
{
    let mut joined: Vec<ByteRange> = Vec::new();
    let mut i: usize = 0;
    let mut j: usize = 0;
    proof {
        lemma_covered_empty();
        assert(left@.take(0) =~= Seq::<ByteRange>::empty());
        assert(right@.take(0) =~= Seq::<ByteRange>::empty());
    }
    while i < left.len() || j < right.len()
        invariant
            is_sorted(left@),
            is_sorted(right@),
            i <= left@.len(),
            j <= right@.len(),
            joined@.len() == i + j,
            is_sorted(joined@),
            covered(joined@) =~= covered(left@.take(i as int)).union(covered(right@.take(j as int))),
            forall|k: int|
                0 <= k < joined@.len() && i < left@.len() ==> (#[trigger] joined@[k]).start
                    <= left@[i as int].start,
            forall|k: int|
                0 <= k < joined@.len() && j < right@.len() ==> (#[trigger] joined@[k]).start
                    <= right@[j as int].start,
        decreases left@.len() - i + right@.len() - j,
    {
        let from_left = if i >= left.len() {
            false
        } else if j >= right.len() {
            true
        } else {
            left[i].start <= right[j].start
        };
        let ghost before = joined@;
        if from_left {
            let range = left[i];
            proof {
                lemma_covered_push(joined@, range);
                lemma_covered_push(left@.take(i as int), range);
                assert(left@.take(i + 1) =~= left@.take(i as int).push(range));
            }
            joined.push(range);
            i += 1;
        } else {
            let range = right[j];
            proof {
                lemma_covered_push(joined@, range);
                lemma_covered_push(right@.take(j as int), range);
                assert(right@.take(j + 1) =~= right@.take(j as int).push(range));
            }
            joined.push(range);
            j += 1;
        }
        proof {
            assert forall|a: int, b: int| 0 <= a <= b < joined@.len() implies (
            #[trigger] joined@[a]).start <= (#[trigger] joined@[b]).start by {
                if b < before.len() {
                    assert(before[a].start <= before[b].start);
                } else if a < before.len() {
                    assert(before[a] == joined@[a]);
                }
            }
        }
    }
    proof {
        assert(left@.take(i as int) =~= left@);
        assert(right@.take(j as int) =~= right@);
    }
    joined
}

/// Sorts the ranges of `ranges` from `from` up to `to` by their starts.
fn sort_span(ranges: &Vec<ByteRange>, from: usize, to: usize) -> (sorted: Vec<ByteRange>)
    requires
        from <= to <= ranges@.len(),
    ensures
        is_sorted(sorted@),
        covered(sorted@) == covered(ranges@.subrange(from as int, to as int)),
        sorted@.len() == to - from,
    decreases to - from,
{
    if to - from <= 1 {
        let mut sorted: Vec<ByteRange> = Vec::new();
        if from < to {
            sorted.push(ranges[from]);
        }
        assert(sorted@ =~= ranges@.subrange(from as int, to as int));
        sorted
    } else {
        let middle = from + (to - from) / 2;
        let left = sort_span(ranges, from, middle);
        let right = sort_span(ranges, middle, to);
        proof {
            lemma_covered_concat(
                ranges@.subrange(from as int, middle as int),
                ranges@.subrange(middle as int, to as int),
            );
            assert(ranges@.subrange(from as int, to as int) =~= ranges@.subrange(
                from as int,
                middle as int,
            ) + ranges@.subrange(middle as int, to as int));
        }
        zip_sorted(&left, &right)
    }
}

/// Sweeps over sorted ranges from left to right and joins those that overlap or touch. Empty
/// ranges are left out.
fn coalesce(sorted: &Vec<ByteRange>) -> (joined: Vec<ByteRange>)
    requires
        is_sorted(sorted@),
    ensures
        is_normalized(joined@),
        covered(joined@) == covered(sorted@),
{
    let mut joined: Vec<ByteRange> = Vec::new();
    let mut current: Option<ByteRange> = None;
    let mut index: usize = 0;
    proof {
        lemma_covered_empty();
        assert(sorted@.take(0) =~= Seq::<ByteRange>::empty());
    }
    while index < sorted.len()
        invariant
            is_sorted(sorted@),
            index <= sorted@.len(),
            is_normalized(joined@),
            match current {
                Some(range) => {
                    &&& range.start < range.end
                    &&& joined@.len() > 0 ==> joined@.last().end < range.start
                    &&& forall|k: int|
                        index <= k < sorted@.len() ==> range.start <= (
                        #[trigger] sorted@[k]).start
                    &&& covered(joined@).union(range.span()) =~= covered(
                        sorted@.take(index as int),
                    )
                },
                None => joined@.len() == 0 && covered(sorted@.take(index as int)) =~= Set::<
                    int,
                >::empty(),
            },
        decreases sorted@.len() - index,
    {
        let next = sorted[index];
        proof {
            lemma_covered_push(sorted@.take(index as int), next);
            assert(sorted@.take(index + 1) =~= sorted@.take(index as int).push(next));
            assert forall|k: int| index + 1 <= k < sorted@.len() implies next.start <= (
            #[trigger] sorted@[k]).start by {
                assert(sorted@[index as int].start <= sorted@[k].start);
            }
        }
        if next.start < next.end {
            match current {
                None => {
                    current = Some(next);
                },
                Some(range) => {
                    assert(range.start <= sorted@[index as int].start);
                    if next.start <= range.end {
                        let end = if range.end >= next.end {
                            range.end
                        } else {
                            next.end
                        };
                        let hull = ByteRange { start: range.start, end };
                        assert(hull.span() =~= range.span().union(next.span()));
                        current = Some(hull);
                    } else {
                        proof {
                            lemma_normalized_push(joined@, range);
                            lemma_covered_push(joined@, range);
                        }
                        joined.push(range);
                        current = Some(next);
                    }
                },
            }
        } else {
            assert(next.span() =~= Set::<int>::empty());
        }
        index += 1;
    }
    assert(sorted@.take(index as int) =~= sorted@);
    match current {
        Some(range) => {
            proof {
                lemma_normalized_push(joined@, range);
                lemma_covered_push(joined@, range);
            }
            joined.push(range);
        },
        None => {},
    }
    joined
}

/// A set of byte ranges.
#[derive(Debug, PartialEq, Eq)]
pub struct Ranges {
    inner: Vec<ByteRange>,
}

impl View for Ranges {
    type V = Seq<ByteRange>;

    closed spec fn view(&self) -> Seq<ByteRange> {
        self.inner@
    }
}

impl Clone for Ranges {
    fn clone(&self) -> (copy: Self)
        ensures
            copy@ == self@,
    {
        Ranges::from_vec(self.to_vec())
    }
}

impl Ranges {
    /// No ranges.
    pub fn new() -> (ranges: Ranges)
        ensures
            ranges@ == Seq::<ByteRange>::empty(),
    {
        Ranges { inner: Vec::new() }
    }

    /// These ranges, as they come.
    pub fn from_vec(ranges: Vec<ByteRange>) -> (set: Ranges)
        ensures
            set@ == ranges@,
    {
        Ranges { inner: ranges }
    }

    /// The ranges, in the order in which they are held.
    pub fn to_vec(&self) -> (ranges: Vec<ByteRange>)
        ensures
            ranges@ == self@,
    {
        let mut ranges: Vec<ByteRange> = Vec::new();
        let mut index: usize = 0;
        while index < self.inner.len()
            invariant
                index <= self.inner@.len(),
                ranges@ == self.inner@.take(index as int),
            decreases self.inner@.len() - index,
        {
            ranges.push(self.inner[index]);
            assert(self.inner@.take(index + 1) =~= self.inner@.take(index as int).push(
                self.inner@[index as int],
            ));
            index += 1;
        }
        assert(self.inner@.take(index as int) =~= self.inner@);
        ranges
    }

    /// Adds a range at the end.
    pub fn push(&mut self, range: ByteRange)
        ensures
            final(self)@ == old(self)@.push(range),
    {
        self.inner.push(range);
    }

    /// The number of ranges held.
    pub fn len(&self) -> (len: usize)
        ensures
            len == self@.len(),
    {
        self.inner.len()
    }

    /// Whether no range is held.
    pub fn is_empty(&self) -> (empty: bool)
        ensures
            empty == (self@.len() == 0),
    {
        self.inner.len() == 0
    }

    /// The range at place `index`.
    pub fn get(&self, index: usize) -> (range: ByteRange)
        requires
            index < self@.len(),
        ensures
            range == self@[index as int],
    {
        self.inner[index]
    }

    /// Tells whether the ranges are in normal form: non-empty, ascending, and no two of them
    /// overlapping or touching.
    pub fn is_normalized(&self) -> (normalized: bool)
        ensures
            normalized == is_normalized(self@),
    {
        let mut index: usize = 0;
        while index < self.inner.len()
            invariant
                index <= self.inner@.len(),
                is_normalized(self.inner@.take(index as int)),
            decreases self.inner@.len() - index,
        {
            let range = self.inner[index];
            let ghost seen = self.inner@.take(index as int);
            if range.start >= range.end {
                return false;
            }
            if index > 0 && self.inner[index - 1].end >= range.start {
                assert(self.inner@[index - 1].end >= self.inner@[index as int].start);
                return false;
            }
            proof {
                if index > 0 {
                    assert(seen.last() == self.inner@[index - 1]);
                }
                lemma_normalized_push(seen, range);
                assert(self.inner@.take(index + 1) =~= seen.push(range));
            }
            index += 1;
        }
        assert(self.inner@.take(index as int) =~= self.inner@);
        true
    }

    /// Merges the ranges: sorts them by their starts, then sweeps from left to right and joins
    /// any two that overlap or touch. What is left is the normal form of what the ranges
    /// covered; ranges that cover nothing are gone.
    pub fn merge(&mut self)
        ensures
            final(self)@ == merged(old(self)@),
            is_normalized(final(self)@),
            covered(final(self)@) == covered(old(self)@),
    {
        let sorted = sort_span(&self.inner, 0, self.inner.len());
        assert(self.inner@.subrange(0, self.inner@.len() as int) =~= self.inner@);
        let joined = coalesce(&sorted);
        proof {
            lemma_is_normal_form(joined@, covered(self@));
        }
        self.inner = joined;
    }
}

/// What the first ranges of a sequence cover, the sequence covers.
proof fn lemma_covered_take(ranges: Seq<ByteRange>, upto: int)
    requires
        0 <= upto <= ranges.len(),
    ensures
        covered(ranges.take(upto)).subset_of(covered(ranges)),
{
    assert forall|point: int| covered(ranges.take(upto)).contains(point) implies covered(
        ranges,
    ).contains(point) by {
        let i = choose|i: int| 0 <= i < upto && (#[trigger] ranges.take(upto)[i]).covers(point);
        assert(ranges[i].covers(point));
    }
}

impl Ranges {
    /// The ranges that `self` and `other` share: what both cover, in normal form.
    pub fn intersect(&self, other: &Ranges) -> (shared: Ranges)
        requires
            is_normalized(self@),
            is_normalized(other@),
        ensures
            shared@ == intersected(self@, other@),
            is_normalized(shared@),
            covered(shared@) == covered(self@).intersect(covered(other@)),
    {
        let mut shared: Vec<ByteRange> = Vec::new();
        let mut i: usize = 0;
        let mut j: usize = 0;
        let ghost a = self@;
        let ghost b = other@;
        let ghost both = covered(a).intersect(covered(b));
        proof {
            lemma_covered_empty();
            assert(a.take(0) =~= Seq::<ByteRange>::empty());
            assert(b.take(0) =~= Seq::<ByteRange>::empty());
        }
        while i < self.inner.len() && j < other.inner.len()
            invariant
                a == self.inner@,
                b == other.inner@,
                both == covered(a).intersect(covered(b)),
                is_normalized(a),
                is_normalized(b),
                i <= a.len(),
                j <= b.len(),
                is_normalized(shared@),
                covered(shared@) =~= both.intersect(
                    covered(a.take(i as int)).union(covered(b.take(j as int))),
                ),
                forall|k: int|
                    0 <= k < shared@.len() && i < a.len() && j < b.len() ==> (
                    #[trigger] shared@[k]).end < a[i as int].start || shared@[k].end
                        < b[j as int].start,
            decreases a.len() - i + b.len() - j,
        {
            let left = self.inner[i];
            let right = other.inner[j];
            let start = if left.start >= right.start {
                left.start
            } else {
                right.start
            };
            let end = if left.end <= right.end {
                left.end
            } else {
                right.end
            };
            let ghost before = shared@;
            let ghost piece = ByteRange { start, end };
            if start < end {
                proof {
                    if before.len() > 0 {
                        assert(before[before.len() - 1].end < a[i as int].start || before[before.len()
                            - 1].end < b[j as int].start);
                    }
                    lemma_normalized_push(before, piece);
                    lemma_covered_push(before, piece);
                }
                shared.push(ByteRange { start, end });
            }
            let ghost i0 = i;
            let ghost j0 = j;
            if left.end < right.end {
                i += 1;
            } else {
                j += 1;
            }
            proof {
                assert(piece.span() =~= left.span().intersect(right.span()));
                lemma_covered_push(a.take(i0 as int), left);
                lemma_covered_push(b.take(j0 as int), right);
                assert(a.take(i0 + 1) =~= a.take(i0 as int).push(left));
                assert(b.take(j0 + 1) =~= b.take(j0 as int).push(right));
                let seen = covered(a.take(i0 as int)).union(covered(b.take(j0 as int)));
                let now = covered(a.take(i as int)).union(covered(b.take(j as int)));
                let target = both.intersect(now);
                let have = covered(shared@);
                assert(have =~= both.intersect(seen).union(piece.span()));
                assert forall|point: int| target.contains(point) implies have.contains(point) by {
                    if !seen.contains(point) {
                        if i > i0 {
                            assert(left.covers(point));
                            let k = choose|k: int| 0 <= k < b.len() && (#[trigger] b[k]).covers(point);
                            if k < j0 {
                                assert(b.take(j0 as int)[k].covers(point));
                            } else if k > j0 {
                                assert(b[j0 as int].end < b[k].start);
                            }
                        } else {
                            assert(right.covers(point));
                            let k = choose|k: int| 0 <= k < a.len() && (#[trigger] a[k]).covers(point);
                            if k < i0 {
                                assert(a.take(i0 as int)[k].covers(point));
                            } else if k > i0 {
                                assert(a[i0 as int].end < a[k].start);
                            }
                        }
                    }
                }
                assert forall|point: int| have.contains(point) implies target.contains(point) by {
                    if piece.span().contains(point) {
                        assert(a[i0 as int].covers(point));
                        assert(b[j0 as int].covers(point));
                    }
                }
                assert(have =~= target);
                assert forall|k: int|
                    0 <= k < shared@.len() && i < a.len() && j < b.len() implies (
                #[trigger] shared@[k]).end < a[i as int].start || shared@[k].end
                    < b[j as int].start by {
                    if i > i0 {
                        assert(a[i0 as int].end < a[i as int].start);
                    } else {
                        assert(b[j0 as int].end < b[j as int].start);
                    }
                    if k < before.len() {
                        assert(before[k].end < a[i0 as int].start || before[k].end
                            < b[j0 as int].start);
                        assert(a[i0 as int].start < a[i0 as int].end);
                        assert(b[j0 as int].start < b[j0 as int].end);
                    }
                }
            }
        }
        proof {
            let seen = covered(a.take(i as int)).union(covered(b.take(j as int)));
            lemma_covered_take(a, i as int);
            lemma_covered_take(b, j as int);
            assert forall|point: int| both.contains(point) implies seen.contains(point) by {
                if i == a.len() {
                    assert(a.take(i as int) =~= a);
                } else {
                    assert(b.take(j as int) =~= b);
                }
            }
            assert(covered(shared@) =~= both);
            lemma_is_normal_form(shared@, both);
        }
        Ranges { inner: shared }
    }
}

/// The gaps that normalized ranges leave within `[0, total_len)`: before the first, between
/// each two, and after the last.
fn gaps(ranges: &Vec<ByteRange>, total_len: usize) -> (gaps: Vec<ByteRange>)
    requires
        is_normalized(ranges@),
    ensures
        is_normalized(gaps@),
        covered(gaps@) == all_below(total_len as int).difference(covered(ranges@)),
{
    let mut gaps: Vec<ByteRange> = Vec::new();
    let mut position: usize = 0;
    let mut index: usize = 0;
    let ghost whole = all_below(total_len as int).difference(covered(ranges@));
    proof {
        lemma_covered_empty();
    }
    while index < ranges.len() && position < total_len
        invariant
            is_normalized(ranges@),
            whole == all_below(total_len as int).difference(covered(ranges@)),
            index <= ranges@.len(),
            is_normalized(gaps@),
            covered(gaps@) =~= whole.intersect(all_below(position as int)),
            index == 0 ==> position == 0,
            index > 0 ==> position == ranges@[index - 1].end,
            gaps@.len() > 0 ==> index > 0 && gaps@.last().end <= ranges@[index - 1].start,
        decreases ranges@.len() - index,
    {
        let range = ranges[index];
        let ghost before = gaps@;
        let ghost from = position;
        proof {
            if index > 0 {
                assert(ranges@[index - 1].end < ranges@[index as int].start);
                assert(ranges@[index - 1].start < ranges@[index - 1].end);
            }
        }
        let end = if range.start <= total_len {
            range.start
        } else {
            total_len
        };
        let ghost gap = ByteRange { start: position, end };
        if position < end {
            proof {
                lemma_normalized_push(before, gap);
                lemma_covered_push(before, gap);
            }
            gaps.push(ByteRange { start: position, end });
        }
        position = range.end;
        index += 1;
        proof {
            let have = covered(gaps@);
            let target = whole.intersect(all_below(position as int));
            assert(have =~= whole.intersect(all_below(from as int)).union(gap.span()));
            assert forall|point: int| have.contains(point) implies target.contains(point) by {
                if gap.span().contains(point) {
                    if covered(ranges@).contains(point) {
                        let k = choose|k: int|
                            0 <= k < ranges@.len() && (#[trigger] ranges@[k]).covers(point);
                        if k < index - 1 {
                            if k < index - 2 {
                                assert(ranges@[k].end < ranges@[index - 2].start);
                            }
                        } else if k > index - 1 {
                            assert(ranges@[index - 1].end < ranges@[k].start);
                        }
                    }
                }
            }
            assert forall|point: int| target.contains(point) implies have.contains(point) by {
                if point >= from {
                    assert(!range.covers(point));
                }
            }
            assert(have =~= target);
        }
    }
    if position < total_len {
        let ghost gap = ByteRange { start: position, end: total_len };
        proof {
            assert(index == ranges@.len());
            lemma_normalized_push(gaps@, gap);
            lemma_covered_push(gaps@, gap);
            assert forall|point: int| gap.span().contains(point) implies whole.contains(point) by {
                if covered(ranges@).contains(point) {
                    let k = choose|k: int|
                        0 <= k < ranges@.len() && (#[trigger] ranges@[k]).covers(point);
                    if k < index - 1 {
                        assert(ranges@[k].end < ranges@[index - 1].start);
                    }
                }
            }
        }
        gaps.push(ByteRange { start: position, end: total_len });
        assert(covered(gaps@) =~= whole);
    } else {
        assert(covered(gaps@) =~= whole);
    }
    gaps
}

impl Ranges {
    /// The complement within `[0, total_len)`: the gaps between the merged ranges, with the gap
    /// before the first and the one after the last, in normal form.
    pub fn invert(&self, total_len: usize) -> (complement: Ranges)
        ensures
            complement@ == inverted(self@, total_len as int),
            is_normalized(complement@),
            covered(complement@) == all_below(total_len as int).difference(covered(self@)),
    {
        let mut merged = self.clone();
        merged.merge();
        let inner = gaps(&merged.inner, total_len);
        proof {
            lemma_is_normal_form(inner@, all_below(total_len as int).difference(covered(self@)));
        }
        Ranges { inner }
    }

    /// What is left of `self` without `other`: what `self` covers and `other` does not, in
    /// normal form.
    pub fn subtract(&self, other: &Ranges) -> (rest: Ranges)
        requires
            is_normalized(self@),
            is_normalized(other@),
        ensures
            rest@ == subtracted(self@, other@),
            is_normalized(rest@),
            covered(rest@) == covered(self@).difference(covered(other@)),
    {
        let outside = Ranges { inner: gaps(&other.inner, usize::MAX) };
        let rest = self.intersect(&outside);
        proof {
            lemma_covered_bounded(self@);
            assert(covered(rest@) =~= covered(self@).difference(covered(other@)));
            lemma_is_normal_form(rest@, covered(self@).difference(covered(other@)));
        }
        rest
    }
}

/// Merging changes nothing that is already in normal form.
pub proof fn lemma_merged_normalized(ranges: Seq<ByteRange>)
    requires
        is_normalized(ranges),
    ensures
        merged(ranges) == ranges,
{
    lemma_is_normal_form(ranges, covered(ranges));
}

/// Merging is idempotent: to merge what was merged changes nothing. And no two ranges of what
/// was merged overlap or touch.
pub proof fn law_merge_idempotent(ranges: Seq<ByteRange>)
    ensures
        merged(merged(ranges)) == merged(ranges),
        is_normalized(merged(ranges)),
        forall|i: int, j: int|
            0 <= i < j < merged(ranges).len() ==> (#[trigger] merged(ranges)[i]).end < (
            #[trigger] merged(ranges)[j]).start,
{
    lemma_covered_bounded(ranges);
    lemma_normal_form(covered(ranges));
}

/// What subtracting leaves of `a`, together with what `a` shares with `b`, is `a` again: the
/// two cover between them exactly what `a` covers, and joined and merged they are `a` merged,
/// which for a normalized `a` is `a` itself.
pub proof fn law_subtract_union(a: Seq<ByteRange>, b: Seq<ByteRange>)
    requires
        is_normalized(a),
        is_normalized(b),
    ensures
        covered(subtracted(a, b)).union(covered(a).intersect(covered(b))) == covered(merged(a)),
        merged(subtracted(a, b) + intersected(a, b)) == merged(a),
        merged(a) == a,
{
    lemma_covered_bounded(a);
    lemma_normal_form(covered(a));
    lemma_normal_form(covered(a).difference(covered(b)));
    lemma_normal_form(covered(a).intersect(covered(b)));
    lemma_merged_normalized(a);
    lemma_covered_concat(subtracted(a, b), intersected(a, b));
    assert(covered(a).difference(covered(b)).union(covered(a).intersect(covered(b))) =~= covered(
        a,
    ));
}

/// Inverting twice within `[0, total_len)` gives back what lay within it, merged: for ranges
/// in normal form, the ranges themselves.
pub proof fn law_invert_involution(ranges: Seq<ByteRange>, total_len: int)
    requires
        0 <= total_len <= usize::MAX,
        forall|i: int| 0 <= i < ranges.len() ==> (#[trigger] ranges[i]).end <= total_len,
    ensures
        inverted(inverted(ranges, total_len), total_len) == merged(ranges),
        is_normalized(ranges) ==> inverted(inverted(ranges, total_len), total_len) == ranges,
{
    let whole = all_below(total_len);
    let outside = whole.difference(covered(ranges));
    lemma_normal_form(outside);
    assert forall|point: int| covered(ranges).contains(point) implies whole.contains(point) by {
        let i = choose|i: int| 0 <= i < ranges.len() && (#[trigger] ranges[i]).covers(point);
    }
    assert(whole.difference(outside) =~= covered(ranges));
    if is_normalized(ranges) {
        lemma_merged_normalized(ranges);
    }
}

/// The offsets at which a range of `ranges` starts or ends.
pub open spec fn edges(ranges: Seq<ByteRange>) -> Set<int> {
    Set::new(
        |point: int|
            exists|i: int|
                0 <= i < ranges.len() && ((#[trigger] ranges[i]).start == point || ranges[i].end
                    == point),
    )
}

/// Where a range of a normalized sequence starts, what the sequence covers starts, and where
/// it ends, what the sequence covers ends.
pub proof fn lemma_normalized_edges(ranges: Seq<ByteRange>, index: int)
    requires
        is_normalized(ranges),
        0 <= index < ranges.len(),
    ensures
        covered(ranges).contains(ranges[index].start as int),
        !covered(ranges).contains(ranges[index].start - 1),
        covered(ranges).contains(ranges[index].end - 1),
        !covered(ranges).contains(ranges[index].end as int),
{
    let range = ranges[index];
    assert(range.covers(range.start as int));
    assert(range.covers(range.end - 1));
    if covered(ranges).contains(range.start - 1) {
        let i = choose|i: int| 0 <= i < ranges.len() && (#[trigger] ranges[i]).covers(range.start - 1);
        if i < index {
            assert(ranges[i].end < ranges[index].start);
        } else if i > index {
            assert(ranges[index].end < ranges[i].start);
        }
    }
    if covered(ranges).contains(range.end as int) {
        let i = choose|i: int| 0 <= i < ranges.len() && (#[trigger] ranges[i]).covers(range.end as int);
        if i < index {
            assert(ranges[i].end < ranges[index].start);
        } else if i > index {
            assert(ranges[index].end < ranges[i].start);
        }
    }
}

/// Where what ranges cover starts, one of the ranges starts, and where it ends, one of them
/// ends.
pub proof fn lemma_covered_edges(ranges: Seq<ByteRange>, point: int)
    ensures
        covered(ranges).contains(point) && !covered(ranges).contains(point - 1) ==> edges(
            ranges,
        ).contains(point),
        covered(ranges).contains(point - 1) && !covered(ranges).contains(point) ==> edges(
            ranges,
        ).contains(point),
{
    if covered(ranges).contains(point) && !covered(ranges).contains(point - 1) {
        let i = choose|i: int| 0 <= i < ranges.len() && (#[trigger] ranges[i]).covers(point);
        if ranges[i].start < point {
            assert(ranges[i].covers(point - 1));
        }
        assert(ranges[i].start == point);
    }
    if covered(ranges).contains(point - 1) && !covered(ranges).contains(point) {
        let i = choose|i: int| 0 <= i < ranges.len() && (#[trigger] ranges[i]).covers(point - 1);
        if ranges[i].end > point {
            assert(ranges[i].covers(point));
        }
        assert(ranges[i].end == point);
    }
}

/// What two sequences of ranges share starts and ends only where a range of either does.
pub proof fn lemma_shared_edges(shared: Seq<ByteRange>, a: Seq<ByteRange>, b: Seq<ByteRange>)
    requires
        is_normalized(shared),
        covered(shared) == covered(a).intersect(covered(b)),
    ensures
        edges(shared).subset_of(edges(a).union(edges(b))),
{
    assert forall|point: int| edges(shared).contains(point) implies edges(a).union(
        edges(b),
    ).contains(point) by {
        let i = choose|i: int|
            0 <= i < shared.len() && ((#[trigger] shared[i]).start == point || shared[i].end
                == point);
        lemma_normalized_edges(shared, i);
        lemma_covered_edges(a, point);
        lemma_covered_edges(b, point);
    }
}

/// What is merged starts and ends only where one of the ranges did.
pub proof fn lemma_merged_edges(ranges: Seq<ByteRange>)
    ensures
        edges(merged(ranges)).subset_of(edges(ranges)),
{
    lemma_covered_bounded(ranges);
    lemma_normal_form(covered(ranges));
    let joined = merged(ranges);
    assert forall|point: int| edges(joined).contains(point) implies edges(ranges).contains(
        point,
    ) by {
        let i = choose|i: int|
            0 <= i < joined.len() && ((#[trigger] joined[i]).start == point || joined[i].end
                == point);
        lemma_normalized_edges(joined, i);
        lemma_covered_edges(ranges, point);
    }
}

/// What is left of ranges without others starts and ends only where a range of either does.
pub proof fn lemma_left_edges(rest: Seq<ByteRange>, a: Seq<ByteRange>, b: Seq<ByteRange>)
    requires
        is_normalized(rest),
        covered(rest) == covered(a).difference(covered(b)),
    ensures
        edges(rest).subset_of(edges(a).union(edges(b))),
{
    assert forall|point: int| edges(rest).contains(point) implies edges(a).union(
        edges(b),
    ).contains(point) by {
        let i = choose|i: int|
            0 <= i < rest.len() && ((#[trigger] rest[i]).start == point || rest[i].end == point);
        lemma_normalized_edges(rest, i);
        lemma_covered_edges(a, point);
        lemma_covered_edges(b, point);
    }
}

} // verus!

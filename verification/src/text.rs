//! Byte offsets into UTF-8 text: which offsets may delimit a slice, and slicing by them.

use vstd::prelude::*;
use vstd::string::*;
use vstd::utf8::*;

use crate::ranges::{is_normalized, lemma_normalized_push, ByteRange, Ranges};

verus! {

/// The UTF-8 bytes of a text.
pub open spec fn bytes_of(text: Seq<char>) -> Seq<u8> {
    encode_utf8(text)
}

/// Whether `range` delimits a slice of the UTF-8 text `bytes`: it lies in the text, and both
/// of its ends fall between two characters.
pub open spec fn is_slice_of(range: ByteRange, bytes: Seq<u8>) -> bool {
    &&& range.start <= range.end
    &&& is_char_boundary(bytes, range.start as int)
    &&& is_char_boundary(bytes, range.end as int)
}

/// A character boundary lies inside the text or at its end.
pub proof fn lemma_boundary_in_bounds(bytes: Seq<u8>, index: int)
    requires
        valid_utf8(bytes),
        is_char_boundary(bytes, index),
    ensures
        0 <= index <= bytes.len(),
    decreases bytes.len(),
{
    if index != 0 && 0 <= index && index <= bytes.len() {
    } else if index != 0 {
        assert(false);
    }
}

/// An ASCII byte of a UTF-8 text is a whole character: there is a boundary before and after it.
pub proof fn lemma_ascii_byte_is_character(bytes: Seq<u8>, index: int)
    requires
        valid_utf8(bytes),
        0 <= index < bytes.len(),
        bytes[index] < 0x80,
    ensures
        is_char_boundary(bytes, index),
        is_char_boundary(bytes, index + 1),
{
    is_char_boundary_iff_not_is_continuation_byte(bytes, index);
    if index + 1 == bytes.len() {
        is_char_boundary_start_end_of_seq(bytes);
    } else {
        valid_utf8_split(bytes, index);
        let tail = bytes.subrange(index, bytes.len() as int);
        assert(tail[0] == bytes[index]);
        assert(valid_first_scalar(tail));
        assert(length_of_first_scalar(tail) == 1);
        let rest = pop_first_scalar(tail);
        assert(rest =~= bytes.subrange(index + 1, bytes.len() as int));
        assert(valid_utf8(rest));
        assert(valid_first_scalar(rest));
        assert(rest[0] == bytes[index + 1]);
        is_char_boundary_iff_not_is_continuation_byte(bytes, index + 1);
    }
}

/// A boundary of a text is a boundary of each prefix of the text that reaches it, provided
/// the prefix itself ends on a boundary.
pub proof fn lemma_boundary_in_prefix(bytes: Seq<u8>, index: int, end: int)
    requires
        valid_utf8(bytes),
        is_char_boundary(bytes, index),
        is_char_boundary(bytes, end),
        index <= end,
    ensures
        valid_utf8(bytes.subrange(0, end)),
        is_char_boundary(bytes.subrange(0, end), index),
{
    lemma_boundary_in_bounds(bytes, index);
    lemma_boundary_in_bounds(bytes, end);
    valid_utf8_split(bytes, end);
    let prefix = bytes.subrange(0, end);
    if index == end {
        is_char_boundary_start_end_of_seq(prefix);
    } else {
        is_char_boundary_iff_not_is_continuation_byte(bytes, index);
        is_char_boundary_iff_not_is_continuation_byte(prefix, index);
    }
}

/// The characters of `text` whose bytes `range` delimits.
pub open spec fn slice_of(text: Seq<char>, range: ByteRange) -> Seq<char> {
    decode_utf8(bytes_of(text).subrange(range.start as int, range.end as int))
}

/// The slice of `text` that `range` delimits.
pub fn slice<'a>(text: &'a str, range: ByteRange) -> (part: &'a str)
    requires
        is_slice_of(range, bytes_of(text@)),
    ensures
        bytes_of(part@) == bytes_of(text@).subrange(range.start as int, range.end as int),
        part@ == slice_of(text@, range),
{
    proof {
        encode_utf8_valid_utf8(text@);
        lemma_boundary_in_prefix(bytes_of(text@), range.start as int, range.end as int);
    }
    let (head, _) = text.split_at(range.end);
    let (_, part) = head.split_at(range.start);
    proof {
        assert(bytes_of(part@) =~= bytes_of(text@).subrange(range.start as int, range.end as int));
        encode_utf8_decode_utf8(part@);
    }
    part
}

/// The bytes between two boundaries of a text are a text themselves, and what is a boundary
/// of the whole between the two is a boundary of the part.
pub proof fn lemma_boundary_in_part(bytes: Seq<u8>, from: int, index: int, to: int)
    requires
        valid_utf8(bytes),
        is_char_boundary(bytes, from),
        is_char_boundary(bytes, index),
        is_char_boundary(bytes, to),
        from <= index <= to,
    ensures
        valid_utf8(bytes.subrange(from, to)),
        is_char_boundary(bytes.subrange(from, to), index - from),
{
    lemma_boundary_in_bounds(bytes, from);
    lemma_boundary_in_bounds(bytes, to);
    lemma_boundary_in_prefix(bytes, from, to);
    let head = bytes.subrange(0, to);
    valid_utf8_split(head, from);
    let part = bytes.subrange(from, to);
    assert(part =~= head.subrange(from, head.len() as int));
    if index == from {
    } else if index == to {
        is_char_boundary_start_end_of_seq(part);
    } else {
        is_char_boundary_iff_not_is_continuation_byte(bytes, index);
        is_char_boundary_iff_not_is_continuation_byte(part, index - from);
    }
}

/// Two slices of a text that follow one another make up the slice that spans both.
pub proof fn lemma_slices_join(text: Seq<char>, from: usize, middle: usize, to: usize)
    requires
        is_slice_of(ByteRange { start: from, end: middle }, bytes_of(text)),
        is_slice_of(ByteRange { start: middle, end: to }, bytes_of(text)),
    ensures
        slice_of(text, ByteRange { start: from, end: middle }) + slice_of(
            text,
            ByteRange { start: middle, end: to },
        ) == slice_of(text, ByteRange { start: from, end: to }),
{
    let bytes = bytes_of(text);
    encode_utf8_valid_utf8(text);
    lemma_boundary_in_part(bytes, from as int, middle as int, to as int);
    lemma_boundary_in_bounds(bytes, to as int);
    let part = bytes.subrange(from as int, to as int);
    decode_utf8_split(part, middle - from);
    assert(part.subrange(0, middle - from) =~= bytes.subrange(from as int, middle as int));
    assert(part.subrange(middle - from, part.len() as int) =~= bytes.subrange(
        middle as int,
        to as int,
    ));
}

/// The slice of a text from its start to its end is the text.
pub proof fn lemma_slice_whole(text: Seq<char>)
    requires
        bytes_of(text).len() <= usize::MAX,
    ensures
        is_slice_of(ByteRange { start: 0, end: bytes_of(text).len() as usize }, bytes_of(text)),
        slice_of(text, ByteRange { start: 0, end: bytes_of(text).len() as usize }) == text,
{
    let bytes = bytes_of(text);
    encode_utf8_valid_utf8(text);
    is_char_boundary_start_end_of_seq(bytes);
    assert(bytes.subrange(0, bytes.len() as int) =~= bytes);
    encode_utf8_decode_utf8(text);
}

/// Tells whether `text` starts with `prefix`.
pub fn starts_with(text: &str, prefix: &str) -> (yes: bool)
    ensures
        yes == prefix@.is_prefix_of(text@),
{
    let len = prefix.unicode_len();
    if text.unicode_len() < len {
        return false;
    }
    let mut index: usize = 0;
    while index < len
        invariant
            len == prefix@.len(),
            len <= text@.len(),
            index <= len,
            forall|k: int| 0 <= k < index ==> text@[k] == prefix@[k],
        decreases len - index,
    {
        if text.get_char(index) != prefix.get_char(index) {
            assert(text@.subrange(0, len as int)[index as int] != prefix@[index as int]);
            return false;
        }
        index += 1;
    }
    assert(prefix@ =~= text@.subrange(0, len as int));
    true
}

/// Those of `ranges` that delimit a slice of the text `bytes`, in the same order.
pub open spec fn slices_among(ranges: Seq<ByteRange>, bytes: Seq<u8>) -> Seq<ByteRange> {
    ranges.filter(|range: ByteRange| is_slice_of(range, bytes))
}

/// Whether each of `ranges` delimits a slice of the text `bytes`.
pub open spec fn delimit_slices(ranges: Seq<ByteRange>, bytes: Seq<u8>) -> bool {
    forall|i: int| 0 <= i < ranges.len() ==> is_slice_of(#[trigger] ranges[i], bytes)
}

/// Where every range delimits a slice of the text, all of them are among those that do.
pub proof fn lemma_slices_among_all(ranges: Seq<ByteRange>, bytes: Seq<u8>)
    requires
        delimit_slices(ranges, bytes),
    ensures
        slices_among(ranges, bytes) == ranges,
    decreases ranges.len(),
{
    reveal(Seq::filter);
    if ranges.len() > 0 {
        let front = ranges.drop_last();
        assert forall|i: int| 0 <= i < front.len() implies is_slice_of(
            #[trigger] front[i],
            bytes,
        ) by {
            assert(front[i] == ranges[i]);
        }
        lemma_slices_among_all(front, bytes);
        assert(is_slice_of(ranges[ranges.len() - 1], bytes));
        assert(ranges =~= front.push(ranges.last()));
    }
}

/// Tells whether `range` delimits a slice of `text`.
pub fn delimits_slice(text: &str, range: ByteRange) -> (yes: bool)
    ensures
        yes == is_slice_of(range, bytes_of(text@)),
{
    range.start <= range.end && text.is_char_boundary(range.start) && text.is_char_boundary(
        range.end,
    )
}

/// Keeps those of `ranges` that delimit a slice of `text`: that lie in it and do not cut a
/// character in two. What is kept of ranges in normal form is in normal form.
pub fn keep_slices(text: &str, ranges: &Ranges) -> (kept: Ranges)
    ensures
        kept@ == slices_among(ranges@, bytes_of(text@)),
        is_normalized(ranges@) ==> is_normalized(kept@),
        forall|i: int| 0 <= i < kept@.len() ==> is_slice_of(#[trigger] kept@[i], bytes_of(text@)),
{
    let ghost bytes = bytes_of(text@);
    let ghost keep = |range: ByteRange| is_slice_of(range, bytes);
    let mut kept = Ranges::new();
    let mut index: usize = 0;
    proof {
        reveal(Seq::filter);
        assert(ranges@.take(0) =~= Seq::<ByteRange>::empty());
    }
    while index < ranges.len()
        invariant
            bytes == bytes_of(text@),
            keep == |range: ByteRange| is_slice_of(range, bytes),
            index <= ranges@.len(),
            kept@ == ranges@.take(index as int).filter(keep),
            is_normalized(ranges@) ==> is_normalized(kept@),
            forall|i: int| 0 <= i < kept@.len() ==> is_slice_of(#[trigger] kept@[i], bytes),
            forall|i: int|
                0 <= i < kept@.len() ==> exists|k: int|
                    0 <= k < index && #[trigger] kept@[i] == #[trigger] ranges@[k],
        decreases ranges@.len() - index,
    {
        let range = ranges.get(index);
        let ghost before = kept@;
        proof {
            reveal(Seq::filter);
            let next = ranges@.take(index + 1);
            assert(next.drop_last() =~= ranges@.take(index as int));
            assert(next.last() == range);
        }
        if delimits_slice(text, range) {
            proof {
                if is_normalized(ranges@) {
                    assert(ranges@[index as int].start < ranges@[index as int].end);
                    if before.len() > 0 {
                        let k = choose|k: int|
                            0 <= k < index && #[trigger] before[before.len() - 1]
                                == #[trigger] ranges@[k];
                        assert(ranges@[k].end < ranges@[index as int].start);
                    }
                    lemma_normalized_push(before, range);
                }
            }
            kept.push(range);
            proof {
                assert forall|i: int| 0 <= i < kept@.len() implies exists|k: int|
                    0 <= k < index + 1 && #[trigger] kept@[i] == #[trigger] ranges@[k] by {
                    if i < before.len() {
                        let k = choose|k: int|
                            0 <= k < index && #[trigger] before[i] == #[trigger] ranges@[k];
                        assert(kept@[i] == ranges@[k]);
                    } else {
                        assert(kept@[i] == ranges@[index as int]);
                    }
                }
            }
        }
        index += 1;
    }
    assert(ranges@.take(index as int) =~= ranges@);
    kept
}

} // verus!

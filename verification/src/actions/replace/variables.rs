//! Finding the variables of a replacement template.
//!
//! A template such as `Hello $var World` refers to capture groups by name (`$var`), by number
//! (`$1`), or by either inside any number of matching braces (`${var}`, `${{1}}`). A dollar sign
//! directly after a dollar sign that started nothing is plain text, and so is the one before it.
//!
//! The template is read byte by byte. Every byte that matters to the syntax is ASCII, and no
//! byte of a longer UTF-8 character is, so reading bytes finds exactly what reading characters
//! would, with byte offsets at hand.

use vstd::prelude::*;

use vstd::string::*;
use vstd::utf8::*;

use crate::ranges::ByteRange;
use crate::scoping::regex::{CaptureGroup, CaptureGroupView};
use crate::text::{bytes_of, is_slice_of, lemma_ascii_byte_is_character, slice};

verus! {

/// The byte that starts a variable: `$`.
pub const DOLLAR: u8 = 0x24;

/// The byte that opens a brace: `{`.
pub const OPENING: u8 = 0x7b;

/// The byte that closes a brace: `}`.
pub const CLOSING: u8 = 0x7d;

/// Whether a name may start with this byte: an ASCII letter or an underscore.
pub open spec fn starts_name(byte: u8) -> bool {
    ||| 0x61 <= byte <= 0x7a
    ||| 0x41 <= byte <= 0x5a
    ||| byte == 0x5f
}

/// Whether this byte is an ASCII digit.
pub open spec fn is_digit(byte: u8) -> bool {
    0x30 <= byte <= 0x39
}

/// Whether a name may go on with this byte: an ASCII letter, a digit or an underscore.
pub open spec fn continues_name(byte: u8) -> bool {
    starts_name(byte) || is_digit(byte)
}

/// The number that a digit stands for.
pub open spec fn digit_value(byte: u8) -> int {
    byte - 0x30
}

/// What a variable refers to, as found in the template.
#[derive(Clone, Copy, Debug, PartialEq, Eq, Structural)]
pub enum Reference {
    /// A name, given by where it stands in the template.
    Named(ByteRange),
    /// A number.
    Numbered(usize),
}

/// One variable of a template: what it refers to, and the bytes it takes up, from its dollar
/// sign to the end of its name, number or last closing brace.
#[derive(Clone, Copy, Debug, PartialEq, Eq, Structural)]
pub struct Occurrence {
    pub reference: Reference,
    pub range: ByteRange,
}

/// Where the reading of a template stands.
#[derive(Clone, Copy, Debug, PartialEq, Eq, Structural)]
pub enum State {
    /// Reading plain text.
    Neutral,
    /// A dollar sign was read; a variable may start here.
    MaybeStart,
    /// A dollar sign and this many opening braces were read.
    WindUpBraces(usize),
    /// The name of a variable is being read. The variable started at `start`, its name at
    /// `name_start`, and `braces` braces are still to be closed.
    BuildingNamed { start: usize, name_start: usize, braces: usize },
    /// The number of a variable is being read.
    BuildingNumbered { magnitude: usize, start: usize, braces: usize },
    /// The name of a variable was read, and closing braces are being read.
    WindDownNamed { start: usize, name: ByteRange, braces: usize },
    /// The number of a variable was read, and closing braces are being read.
    WindDownNumbered { magnitude: usize, start: usize, braces: usize },
}

/// Why a template is refused.
#[derive(Clone, Copy, Debug, PartialEq, Eq, Structural)]
pub enum Failure {
    /// A variable in braces is not followed by as many closing braces as opened it.
    MismatchedBraces,
    /// The number of a variable does not fit the machine's word.
    NumberTooLarge,
}

/// What reading one byte leads to.
#[derive(Clone, Copy, Debug, PartialEq, Eq, Structural)]
pub enum Transition {
    /// The reading goes on in this state.
    Move(State),
    /// A variable ended before this byte, and the reading goes on in this state.
    Record(Occurrence, State),
    /// The template is refused.
    Fail(Failure),
}

/// The state after a dollar sign and `braces` opening braces, on reading `byte` at `index`.
pub open spec fn spec_begin(braces: usize, byte: u8, index: usize) -> State {
    if byte == OPENING {
        State::WindUpBraces((braces + 1) as usize)
    } else if starts_name(byte) {
        State::BuildingNamed { start: (index - braces - 1) as usize, name_start: index, braces }
    } else if is_digit(byte) {
        State::BuildingNumbered {
            magnitude: digit_value(byte) as usize,
            start: (index - braces - 1) as usize,
            braces,
        }
    } else {
        State::Neutral
    }
}

/// The state in which the braces of a variable are closed, one by one.
pub open spec fn spec_wind_down(reference: Reference, start: usize, braces: usize) -> State {
    match reference {
        Reference::Named(name) => State::WindDownNamed { start, name, braces },
        Reference::Numbered(magnitude) => State::WindDownNumbered { magnitude, start, braces },
    }
}

/// What follows when the name or number of a variable is over and `byte` is read at `index`,
/// with `braces` braces still to be closed.
pub open spec fn spec_end(
    reference: Reference,
    start: usize,
    braces: usize,
    byte: u8,
    index: usize,
) -> Transition {
    if braces == 0 {
        Transition::Record(
            Occurrence { reference, range: ByteRange { start, end: index } },
            if byte == DOLLAR {
                State::MaybeStart
            } else {
                State::Neutral
            },
        )
    } else if byte == CLOSING {
        Transition::Move(spec_wind_down(reference, start, (braces - 1) as usize))
    } else {
        Transition::Fail(Failure::MismatchedBraces)
    }
}

/// The transition function of the reader: what reading `byte` at offset `index` leads to in
/// `state`.
pub open spec fn spec_step(state: State, byte: u8, index: usize) -> Transition {
    match state {
        State::Neutral => Transition::Move(
            if byte == DOLLAR {
                State::MaybeStart
            } else {
                State::Neutral
            },
        ),
        State::MaybeStart => Transition::Move(spec_begin(0, byte, index)),
        State::WindUpBraces(braces) => Transition::Move(spec_begin(braces, byte, index)),
        State::BuildingNamed { start, name_start, braces } => if continues_name(byte) {
            Transition::Move(state)
        } else {
            spec_end(
                Reference::Named(ByteRange { start: name_start, end: index }),
                start,
                braces,
                byte,
                index,
            )
        },
        State::BuildingNumbered { magnitude, start, braces } => if is_digit(byte) {
            if magnitude * 10 + digit_value(byte) <= usize::MAX {
                Transition::Move(
                    State::BuildingNumbered {
                        magnitude: (magnitude * 10 + digit_value(byte)) as usize,
                        start,
                        braces,
                    },
                )
            } else {
                Transition::Fail(Failure::NumberTooLarge)
            }
        } else {
            spec_end(Reference::Numbered(magnitude), start, braces, byte, index)
        },
        State::WindDownNamed { start, name, braces } => spec_end(
            Reference::Named(name),
            start,
            braces,
            byte,
            index,
        ),
        State::WindDownNumbered { magnitude, start, braces } => spec_end(
            Reference::Numbered(magnitude),
            start,
            braces,
            byte,
            index,
        ),
    }
}

/// What the end of a template of `len` bytes leads to in `state`: a last variable, nothing,
/// or a refusal.
pub open spec fn spec_finish(state: State, len: usize) -> Result<Option<Occurrence>, Failure> {
    match state {
        State::Neutral | State::MaybeStart | State::WindUpBraces(_) => Ok(None),
        State::BuildingNamed { start, name_start, braces } => if braces == 0 {
            Ok(
                Some(
                    Occurrence {
                        reference: Reference::Named(ByteRange { start: name_start, end: len }),
                        range: ByteRange { start, end: len },
                    },
                ),
            )
        } else {
            Err(Failure::MismatchedBraces)
        },
        State::BuildingNumbered { magnitude, start, braces } => if braces == 0 {
            Ok(
                Some(
                    Occurrence {
                        reference: Reference::Numbered(magnitude),
                        range: ByteRange { start, end: len },
                    },
                ),
            )
        } else {
            Err(Failure::MismatchedBraces)
        },
        State::WindDownNamed { start, name, braces } => if braces == 0 {
            Ok(
                Some(
                    Occurrence {
                        reference: Reference::Named(name),
                        range: ByteRange { start, end: len },
                    },
                ),
            )
        } else {
            Err(Failure::MismatchedBraces)
        },
        State::WindDownNumbered { magnitude, start, braces } => if braces == 0 {
            Ok(
                Some(
                    Occurrence {
                        reference: Reference::Numbered(magnitude),
                        range: ByteRange { start, end: len },
                    },
                ),
            )
        } else {
            Err(Failure::MismatchedBraces)
        },
    }
}

/// How far the reading of a template has come.
pub enum Scan {
    /// The reader is in `state` and has found these variables, in the order they stand.
    Running { state: State, found: Seq<Occurrence> },
    /// The template was refused.
    Failed(Failure),
}

/// The reading of the first `upto` bytes of a template.
pub open spec fn scan(bytes: Seq<u8>, upto: nat) -> Scan
    decreases upto,
{
    if upto == 0 {
        Scan::Running { state: State::Neutral, found: Seq::empty() }
    } else {
        match scan(bytes, (upto - 1) as nat) {
            Scan::Running { state, found } => match spec_step(
                state,
                bytes[upto - 1],
                (upto - 1) as usize,
            ) {
                Transition::Move(next) => Scan::Running { state: next, found },
                Transition::Record(occurrence, next) => Scan::Running {
                    state: next,
                    found: found.push(occurrence),
                },
                Transition::Fail(failure) => Scan::Failed(failure),
            },
            Scan::Failed(failure) => Scan::Failed(failure),
        }
    }
}

/// The variables of a whole template, in the order they stand, or why it is refused.
pub open spec fn parse(bytes: Seq<u8>) -> Result<Seq<Occurrence>, Failure> {
    match scan(bytes, bytes.len()) {
        Scan::Running { state, found } => match spec_finish(state, bytes.len() as usize) {
            Ok(Some(last)) => Ok(found.push(last)),
            Ok(None) => Ok(found),
            Err(failure) => Err(failure),
        },
        Scan::Failed(failure) => Err(failure),
    }
}

/// Whether `occurrence` is a variable of the text `bytes` that ends at or before `limit`: it
/// starts at a dollar sign, ends after an ASCII byte, and its name, if it has one, lies in it
/// and is made of letters, digits and underscores.
pub open spec fn stands_in(occurrence: Occurrence, bytes: Seq<u8>, limit: int) -> bool {
    let range = occurrence.range;
    &&& range.start < range.end <= limit <= bytes.len()
    &&& bytes[range.start as int] == DOLLAR
    &&& bytes[range.end - 1] < 0x80
    &&& match occurrence.reference {
        Reference::Named(name) => {
            &&& range.start < name.start < name.end <= range.end
            &&& forall|k: int| name.start <= k < name.end ==> continues_name(#[trigger] bytes[k])
        },
        Reference::Numbered(_) => true,
    }
}

/// Whether the reader can be in `state` after `index` bytes of `bytes`.
pub open spec fn state_valid(state: State, bytes: Seq<u8>, index: int) -> bool {
    match state {
        State::Neutral => true,
        State::MaybeStart => 1 <= index && bytes[index - 1] == DOLLAR,
        State::WindUpBraces(braces) => 1 <= braces < index && bytes[index - braces - 1] == DOLLAR,
        State::BuildingNamed { start, name_start, braces } => {
            &&& start + braces + 1 == name_start
            &&& name_start < index
            &&& bytes[start as int] == DOLLAR
            &&& forall|k: int| name_start <= k < index ==> continues_name(#[trigger] bytes[k])
        },
        State::BuildingNumbered { magnitude, start, braces } => {
            &&& start + braces + 1 < index
            &&& bytes[start as int] == DOLLAR
            &&& is_digit(bytes[index - 1])
        },
        State::WindDownNamed { start, name, braces } => {
            &&& start < name.start < name.end < index
            &&& bytes[start as int] == DOLLAR
            &&& bytes[index - 1] == CLOSING
            &&& forall|k: int| name.start <= k < name.end ==> continues_name(#[trigger] bytes[k])
        },
        State::WindDownNumbered { magnitude, start, braces } => {
            &&& start + 1 < index
            &&& bytes[start as int] == DOLLAR
            &&& bytes[index - 1] == CLOSING
        },
    }
}

/// The offset before which every variable found so far has ended: where the variable that is
/// being read starts, or else how far the reading has come.
pub open spec fn frontier(state: State, index: int) -> int {
    match state {
        State::Neutral => index,
        State::MaybeStart => index - 1,
        State::WindUpBraces(braces) => index - braces - 1,
        State::BuildingNamed { start, .. } => start as int,
        State::BuildingNumbered { start, .. } => start as int,
        State::WindDownNamed { start, .. } => start as int,
        State::WindDownNumbered { start, .. } => start as int,
    }
}

/// Whether `found` are variables of `bytes` that end at or before `limit`, each after the one
/// before it.
pub open spec fn in_order(found: Seq<Occurrence>, bytes: Seq<u8>, limit: int) -> bool {
    &&& forall|i: int| 0 <= i < found.len() ==> stands_in(#[trigger] found[i], bytes, limit)
    &&& forall|i: int, j: int|
        0 <= i < j < found.len() ==> (#[trigger] found[i]).range.end <= (
        #[trigger] found[j]).range.start
}

/// Every state that the reader reaches is one it can be in, and the variables it has found
/// stand in the template one after another, before the one that is being read.
pub proof fn lemma_scan_valid(bytes: Seq<u8>, upto: nat)
    requires
        upto <= bytes.len() <= usize::MAX,
    ensures
        match scan(bytes, upto) {
            Scan::Running { state, found } => {
                &&& state_valid(state, bytes, upto as int)
                &&& frontier(state, upto as int) <= upto
                &&& in_order(found, bytes, frontier(state, upto as int))
            },
            Scan::Failed(_) => true,
        },
    decreases upto,
{
    if upto > 0 {
        lemma_scan_valid(bytes, (upto - 1) as nat);
        match scan(bytes, (upto - 1) as nat) {
            Scan::Running { state, found } => {
                let index = (upto - 1) as usize;
                let byte = bytes[upto - 1];
                match spec_step(state, byte, index) {
                    Transition::Move(next) => {
                        assert(state_valid(next, bytes, upto as int));
                        assert(frontier(state, index as int) <= frontier(next, upto as int));
                    },
                    Transition::Record(occurrence, next) => {
                        assert(state_valid(next, bytes, upto as int));
                        assert(stands_in(occurrence, bytes, frontier(next, upto as int)));
                        let all = found.push(occurrence);
                        assert forall|i: int| 0 <= i < all.len() implies stands_in(
                            #[trigger] all[i],
                            bytes,
                            frontier(next, upto as int),
                        ) by {
                            if i < found.len() {
                                assert(stands_in(found[i], bytes, frontier(state, index as int)));
                            }
                        }
                        assert forall|i: int, j: int| 0 <= i < j < all.len() implies (
                        #[trigger] all[i]).range.end <= (#[trigger] all[j]).range.start by {
                            assert(stands_in(found[i], bytes, frontier(state, index as int)));
                        }
                    },
                    Transition::Fail(_) => {},
                }
            },
            Scan::Failed(_) => {},
        }
    }
}

/// The variables of a template stand in it one after another, without overlap.
pub proof fn lemma_parse_valid(bytes: Seq<u8>)
    requires
        bytes.len() <= usize::MAX,
    ensures
        parse(bytes) matches Ok(found) ==> in_order(found, bytes, bytes.len() as int),
{
    lemma_scan_valid(bytes, bytes.len());
    match scan(bytes, bytes.len()) {
        Scan::Running { state, found } => {
            let limit = frontier(state, bytes.len() as int);
            assert forall|i: int| 0 <= i < found.len() implies stands_in(
                #[trigger] found[i],
                bytes,
                bytes.len() as int,
            ) by {
                assert(stands_in(found[i], bytes, limit));
            }
            match spec_finish(state, bytes.len() as usize) {
                Ok(Some(last)) => {
                    let all = found.push(last);
                    assert(stands_in(last, bytes, bytes.len() as int));
                    assert forall|i: int, j: int| 0 <= i < j < all.len() implies (
                    #[trigger] all[i]).range.end <= (#[trigger] all[j]).range.start by {
                        assert(stands_in(found[i], bytes, limit));
                    }
                },
                _ => {},
            }
        },
        Scan::Failed(_) => {},
    }
}

/// Once a template is refused, it stays refused however far the reading goes.
pub proof fn lemma_failure_is_final(bytes: Seq<u8>, at: nat, upto: nat)
    requires
        at <= upto,
        scan(bytes, at) is Failed,
    ensures
        scan(bytes, upto) == scan(bytes, at),
    decreases upto,
{
    if at < upto {
        lemma_failure_is_final(bytes, at, (upto - 1) as nat);
    }
}

/// Tells whether a name may start with `byte`.
pub fn is_name_start(byte: u8) -> (yes: bool)
    ensures
        yes == starts_name(byte),
{
    (0x61 <= byte && byte <= 0x7a) || (0x41 <= byte && byte <= 0x5a) || byte == 0x5f
}

/// Tells whether `byte` is an ASCII digit.
pub fn is_ascii_digit(byte: u8) -> (yes: bool)
    ensures
        yes == is_digit(byte),
{
    0x30 <= byte && byte <= 0x39
}

/// Enters the state that follows a dollar sign and `braces` opening braces, on reading `byte`
/// at `index`.
pub fn begin(braces: usize, byte: u8, index: usize) -> (next: State)
    requires
        braces < index,
    ensures
        next == spec_begin(braces, byte, index),
{
    if byte == OPENING {
        State::WindUpBraces(braces + 1)
    } else if is_name_start(byte) {
        State::BuildingNamed { start: index - braces - 1, name_start: index, braces }
    } else if is_ascii_digit(byte) {
        let magnitude: usize = (byte - 0x30) as usize;
        State::BuildingNumbered { magnitude, start: index - braces - 1, braces }
    } else {
        State::Neutral
    }
}

/// Ends the name or number of a variable on reading `byte` at `index`: records the variable
/// where no brace is left to close, closes one brace, or refuses the template.
pub fn end(reference: Reference, start: usize, braces: usize, byte: u8, index: usize) -> (next:
    Transition)
    ensures
        next == spec_end(reference, start, braces, byte, index),
{
    if braces == 0 {
        let state = if byte == DOLLAR {
            State::MaybeStart
        } else {
            State::Neutral
        };
        Transition::Record(Occurrence { reference, range: ByteRange { start, end: index } }, state)
    } else if byte == CLOSING {
        match reference {
            Reference::Named(name) => Transition::Move(
                State::WindDownNamed { start, name, braces: braces - 1 },
            ),
            Reference::Numbered(magnitude) => Transition::Move(
                State::WindDownNumbered { magnitude, start, braces: braces - 1 },
            ),
        }
    } else {
        Transition::Fail(Failure::MismatchedBraces)
    }
}

/// Whether `state` leaves room for the offsets that the next step computes from `index`.
pub open spec fn fits(state: State, index: usize) -> bool {
    match state {
        State::MaybeStart => 0 < index,
        State::WindUpBraces(braces) => braces < index,
        _ => true,
    }
}

/// Takes one step of the reader: from `state`, on reading `byte` at offset `index`.
pub fn step(state: State, byte: u8, index: usize) -> (next: Transition)
    requires
        fits(state, index),
    ensures
        next == spec_step(state, byte, index),
{
    match state {
        State::Neutral => Transition::Move(
            if byte == DOLLAR {
                State::MaybeStart
            } else {
                State::Neutral
            },
        ),
        State::MaybeStart => Transition::Move(begin(0, byte, index)),
        State::WindUpBraces(braces) => Transition::Move(begin(braces, byte, index)),
        State::BuildingNamed { start, name_start, braces } => {
            if is_name_start(byte) || is_ascii_digit(byte) {
                Transition::Move(state)
            } else {
                end(
                    Reference::Named(ByteRange { start: name_start, end: index }),
                    start,
                    braces,
                    byte,
                    index,
                )
            }
        },
        State::BuildingNumbered { magnitude, start, braces } => {
            if is_ascii_digit(byte) {
                let digit: usize = (byte - 0x30) as usize;
                if magnitude <= (usize::MAX - digit) / 10 {
                    Transition::Move(
                        State::BuildingNumbered { magnitude: magnitude * 10 + digit, start, braces },
                    )
                } else {
                    Transition::Fail(Failure::NumberTooLarge)
                }
            } else {
                end(Reference::Numbered(magnitude), start, braces, byte, index)
            }
        },
        State::WindDownNamed { start, name, braces } => end(
            Reference::Named(name),
            start,
            braces,
            byte,
            index,
        ),
        State::WindDownNumbered { magnitude, start, braces } => end(
            Reference::Numbered(magnitude),
            start,
            braces,
            byte,
            index,
        ),
    }
}

/// Ends the reading of a template of `len` bytes in `state`.
pub fn finish(state: State, len: usize) -> (last: Result<Option<Occurrence>, Failure>)
    ensures
        last == spec_finish(state, len),
{
    let (reference, start, braces) = match state {
        State::Neutral | State::MaybeStart | State::WindUpBraces(_) => {
            return Ok(None);
        },
        State::BuildingNamed { start, name_start, braces } => (
            Reference::Named(ByteRange { start: name_start, end: len }),
            start,
            braces,
        ),
        State::BuildingNumbered { magnitude, start, braces } => (
            Reference::Numbered(magnitude),
            start,
            braces,
        ),
        State::WindDownNamed { start, name, braces } => (Reference::Named(name), start, braces),
        State::WindDownNumbered { magnitude, start, braces } => (
            Reference::Numbered(magnitude),
            start,
            braces,
        ),
    };
    if braces == 0 {
        Ok(Some(Occurrence { reference, range: ByteRange { start, end: len } }))
    } else {
        Err(Failure::MismatchedBraces)
    }
}

/// The capture group that `reference` names in the template `bytes`.
pub open spec fn group_of(bytes: Seq<u8>, reference: Reference) -> CaptureGroupView {
    match reference {
        Reference::Named(name) => CaptureGroupView::Named(
            decode_utf8(bytes.subrange(name.start as int, name.end as int)),
        ),
        Reference::Numbered(number) => CaptureGroupView::Numbered(number as nat),
    }
}

/// A variable of a template: the capture group it refers to, and the bytes of the template
/// that it takes up.
#[derive(Debug, PartialEq, Eq)]
pub struct Variable {
    pub group: CaptureGroup,
    pub range: ByteRange,
}

/// What a [`Variable`] stands for in contracts.
pub struct VariableView {
    pub group: CaptureGroupView,
    pub range: ByteRange,
}

impl View for Variable {
    type V = VariableView;

    open spec fn view(&self) -> VariableView {
        VariableView { group: self.group@, range: self.range }
    }
}

impl Clone for Variable {
    fn clone(&self) -> (copy: Self)
        ensures
            copy@ == self@,
    {
        Variable { group: self.group.clone(), range: self.range }
    }
}

/// The variable that `occurrence` is in the template `bytes`.
pub open spec fn variable_of(bytes: Seq<u8>, occurrence: Occurrence) -> VariableView {
    VariableView { group: group_of(bytes, occurrence.reference), range: occurrence.range }
}

/// The variables that `found` are in the template `bytes`.
pub open spec fn variables_of(bytes: Seq<u8>, found: Seq<Occurrence>) -> Seq<VariableView> {
    Seq::new(found.len(), |i: int| variable_of(bytes, found[i]))
}

/// Whether `variables` stand in the text `bytes` one after another: each takes up a slice of
/// the text that is not empty, and starts at or after the end of the one before it.
pub open spec fn stand_in_order(variables: Seq<VariableView>, bytes: Seq<u8>) -> bool {
    &&& forall|i: int|
        0 <= i < variables.len() ==> (#[trigger] variables[i]).range.start
            < variables[i].range.end && is_slice_of(variables[i].range, bytes)
    &&& forall|i: int, j: int|
        0 <= i < j < variables.len() ==> (#[trigger] variables[i]).range.end <= (
        #[trigger] variables[j]).range.start
}

/// The variables of a template stand in it one after another, in ascending order and without
/// overlap, and none cuts a character of the template in two.
pub proof fn lemma_variables_stand_in_order(bytes: Seq<u8>)
    requires
        valid_utf8(bytes),
        bytes.len() <= usize::MAX,
    ensures
        parse(bytes) matches Ok(found) ==> stand_in_order(variables_of(bytes, found), bytes),
{
    lemma_parse_valid(bytes);
    if let Ok(found) = parse(bytes) {
        let variables = variables_of(bytes, found);
        assert forall|i: int| 0 <= i < variables.len() implies (#[trigger] variables[i]).range.start
            < variables[i].range.end && is_slice_of(variables[i].range, bytes) by {
            assert(stands_in(found[i], bytes, bytes.len() as int));
            lemma_ascii_byte_is_character(bytes, found[i].range.start as int);
            lemma_ascii_byte_is_character(bytes, found[i].range.end - 1);
        }
        assert forall|i: int, j: int| 0 <= i < j < variables.len() implies (
        #[trigger] variables[i]).range.end <= (#[trigger] variables[j]).range.start by {
            assert(found[i].range.end <= found[j].range.start);
        }
    }
}

/// The state of the reader after a run of `count` dollar signs that started in plain text:
/// plain text again after an even number, and a possible start after an odd one.
pub open spec fn after_dollars(count: nat) -> State {
    if count % 2 == 0 {
        State::Neutral
    } else {
        State::MaybeStart
    }
}

/// Dollar signs escape one another in pairs: over a run of dollar signs that starts in plain
/// text, no variable is found, and only after an odd number of them can one start.
pub proof fn lemma_dollars_escape_in_pairs(bytes: Seq<u8>, from: nat, count: nat)
    requires
        from + count <= bytes.len(),
        scan(bytes, from) matches Scan::Running { state, .. } && state == State::Neutral,
        forall|k: int| from <= k < from + count ==> bytes[k] == DOLLAR,
    ensures
        scan(bytes, from + count) == (Scan::Running {
            state: after_dollars(count),
            found: scan(bytes, from)->found,
        }),
    decreases count,
{
    if count > 0 {
        lemma_dollars_escape_in_pairs(bytes, from, (count - 1) as nat);
        assert(bytes[from + count - 1] == DOLLAR);
    }
}

/// Names the capture group of a variable that was found in `template`.
pub fn resolve(template: &str, occurrence: Occurrence) -> (variable: Variable)
    requires
        stands_in(occurrence, bytes_of(template@), bytes_of(template@).len() as int),
    ensures
        variable@ == variable_of(bytes_of(template@), occurrence),
{
    let group = match occurrence.reference {
        Reference::Named(name) => {
            proof {
                let bytes = bytes_of(template@);
                encode_utf8_valid_utf8(template@);
                assert(continues_name(bytes[name.start as int]));
                assert(continues_name(bytes[name.end - 1]));
                lemma_ascii_byte_is_character(bytes, name.start as int);
                lemma_ascii_byte_is_character(bytes, name.end - 1);
            }
            let part = slice(template, name);
            proof {
                encode_utf8_decode_utf8(part@);
            }
            CaptureGroup::Named(part.to_owned())
        },
        Reference::Numbered(number) => CaptureGroup::Numbered(number),
    };
    Variable { group, range: occurrence.range }
}

/// The variables of a template, in the order in which they stand in it.
#[derive(Debug, PartialEq, Eq)]
pub struct VariablePositions {
    variables: Vec<Variable>,
}

impl View for VariablePositions {
    type V = Seq<VariableView>;

    closed spec fn view(&self) -> Seq<VariableView> {
        Seq::new(self.variables@.len(), |i: int| self.variables@[i]@)
    }
}

/// The places of the capture group `group` among `variables`, in order.
pub open spec fn positions_of(variables: Seq<VariableView>, group: CaptureGroupView) -> Seq<
    ByteRange,
> {
    variables.filter_map(
        |variable: VariableView|
            if variable.group == group {
                Some(variable.range)
            } else {
                None
            },
    )
}

/// Whether one of `variables` refers to `group`.
pub open spec fn refers_to(variables: Seq<VariableView>, group: CaptureGroupView) -> bool {
    exists|k: int| 0 <= k < variables.len() && (#[trigger] variables[k]).group == group
}

/// Whether `group` is one of `groups`.
pub open spec fn is_among(groups: Seq<CaptureGroup>, group: CaptureGroupView) -> bool {
    exists|i: int| 0 <= i < groups.len() && (#[trigger] groups[i])@ == group
}

/// Tells whether `group` is one of `groups`.
fn holds(groups: &Vec<CaptureGroup>, group: &CaptureGroup) -> (found: bool)
    ensures
        found == is_among(groups@, group@),
{
    let mut index: usize = 0;
    while index < groups.len()
        invariant
            index <= groups@.len(),
            forall|i: int| 0 <= i < index ==> (#[trigger] groups@[i])@ != group@,
        decreases groups@.len() - index,
    {
        if groups[index].same_as(group) {
            return true;
        }
        index += 1;
    }
    false
}

impl Clone for VariablePositions {
    fn clone(&self) -> (copy: Self)
        ensures
            copy@ == self@,
    {
        let mut variables: Vec<Variable> = Vec::new();
        let mut index: usize = 0;
        while index < self.variables.len()
            invariant
                index <= self.variables@.len(),
                variables@.len() == index,
                forall|i: int| 0 <= i < index ==> (#[trigger] variables@[i])@ == self.variables@[i]@,
            decreases self.variables@.len() - index,
        {
            variables.push(self.variables[index].clone());
            index += 1;
        }
        let copy = VariablePositions { variables };
        assert(copy@ =~= self@);
        copy
    }
}

impl VariablePositions {
    /// No variables.
    pub fn new() -> (positions: VariablePositions)
        ensures
            positions@ == Seq::<VariableView>::empty(),
    {
        let positions = VariablePositions { variables: Vec::new() };
        assert(positions@ =~= Seq::<VariableView>::empty());
        positions
    }

    /// The number of variables, counting each place at which one stands.
    pub fn len(&self) -> (len: usize)
        ensures
            len == self@.len(),
    {
        self.variables.len()
    }

    /// Whether there is no variable at all.
    pub fn is_empty(&self) -> (empty: bool)
        ensures
            empty == (self@.len() == 0),
    {
        self.variables.len() == 0
    }

    /// The variable at place `index`, counted from the start of the template.
    pub fn get(&self, index: usize) -> (variable: &Variable)
        requires
            index < self@.len(),
        ensures
            variable@ == self@[index as int],
    {
        &self.variables[index]
    }

    /// The capture groups that the variables refer to, each once, in the order in which they
    /// first stand in the template.
    pub fn groups(&self) -> (groups: Vec<CaptureGroup>)
        ensures
            forall|i: int, j: int|
                0 <= i < j < groups@.len() ==> (#[trigger] groups@[i])@ != (#[trigger] groups@[j])@,
            forall|i: int| 0 <= i < groups@.len() ==> refers_to(self@, (#[trigger] groups@[i])@),
            forall|k: int| 0 <= k < self@.len() ==> is_among(groups@, (#[trigger] self@[k]).group),
    {
        let mut groups: Vec<CaptureGroup> = Vec::new();
        let mut index: usize = 0;
        while index < self.variables.len()
            invariant
                index <= self.variables@.len(),
                forall|i: int, j: int|
                    0 <= i < j < groups@.len() ==> (#[trigger] groups@[i])@ != (
                    #[trigger] groups@[j])@,
                forall|i: int|
                    0 <= i < groups@.len() ==> refers_to(
                        self@.take(index as int),
                        (#[trigger] groups@[i])@,
                    ),
                forall|k: int| 0 <= k < index ==> is_among(groups@, (#[trigger] self@[k]).group),
            decreases self.variables@.len() - index,
        {
            let group = &self.variables[index].group;
            let ghost before = groups@;
            let ghost seen = self@.take(index as int);
            let ghost next = self@.take(index + 1);
            proof {
                assert(self@[index as int].group == group@);
                assert(next[index as int].group == group@);
                assert forall|i: int| 0 <= i < before.len() implies refers_to(
                    next,
                    (#[trigger] before[i])@,
                ) by {
                    let k = choose|k: int| 0 <= k < seen.len() && (#[trigger] seen[k]).group == before[i]@;
                    assert(next[k].group == before[i]@);
                }
            }
            if !holds(&groups, group) {
                groups.push(group.clone());
                proof {
                    assert forall|k: int| 0 <= k < index implies is_among(
                        groups@,
                        (#[trigger] self@[k]).group,
                    ) by {
                        let i = choose|i: int|
                            0 <= i < before.len() && (#[trigger] before[i])@ == self@[k].group;
                        assert(groups@[i]@ == self@[k].group);
                    }
                    assert(groups@[before.len() as int]@ == group@);
                }
            }
            index += 1;
        }
        assert(self@.take(index as int) =~= self@);
        groups
    }

    /// The byte ranges at which `group` stands in the template, in ascending order.
    pub fn ranges_of(&self, group: &CaptureGroup) -> (ranges: Vec<ByteRange>)
        ensures
            ranges@ == positions_of(self@, group@),
    {
        let mut ranges: Vec<ByteRange> = Vec::new();
        let mut index: usize = 0;
        while index < self.variables.len()
            invariant
                index <= self.variables.len(),
                ranges@ == positions_of(self@.take(index as int), group@),
            decreases self.variables.len() - index,
        {
            let variable = &self.variables[index];
            proof {
                let next = self@.take(index + 1);
                assert(next.drop_last() =~= self@.take(index as int));
                assert(next.last() == variable@);
            }
            if variable.group.same_as(group) {
                ranges.push(variable.range);
            }
            index += 1;
        }
        assert(self@.take(index as int) =~= self@);
        ranges
    }
}

/// An error in the variable expressions of a template.
#[derive(Debug, PartialEq, Eq)]
pub enum VariableExpressionError {
    /// A variable in braces lacks closing braces. Holds the template.
    MismatchedBraces(String),
    /// The number of a variable is too large for this machine. Holds the template.
    NumberTooLarge(String),
}

impl VariableExpressionError {
    /// Why the template was refused.
    pub open spec fn failure(&self) -> Failure {
        match self {
            VariableExpressionError::MismatchedBraces(_) => Failure::MismatchedBraces,
            VariableExpressionError::NumberTooLarge(_) => Failure::NumberTooLarge,
        }
    }

    /// The template that was refused.
    pub open spec fn expression(&self) -> Seq<char> {
        match self {
            VariableExpressionError::MismatchedBraces(expression) => expression@,
            VariableExpressionError::NumberTooLarge(expression) => expression@,
        }
    }

    /// Says what is wrong, for a reader.
    pub fn message(&self) -> (message: String)
        ensures
            message@ == match self {
                VariableExpressionError::MismatchedBraces(expression) => {
                    "Contains an imbalanced set of braces: '"@ + expression@ + "'"@
                },
                VariableExpressionError::NumberTooLarge(expression) => {
                    "Contains a variable number that is too large: '"@ + expression@ + "'"@
                },
            },
    {
        match self {
            VariableExpressionError::MismatchedBraces(expression) => {
                let mut message = "Contains an imbalanced set of braces: '".to_owned();
                message.append(expression.as_str());
                message.append("'");
                message
            },
            VariableExpressionError::NumberTooLarge(expression) => {
                let mut message = "Contains a variable number that is too large: '".to_owned();
                message.append(expression.as_str());
                message.append("'");
                message
            },
        }
    }

    /// The error that refuses `template` for the reason `failure`.
    pub fn new(failure: Failure, template: &str) -> (error: VariableExpressionError)
        ensures
            error.failure() == failure,
            error.expression() == template@,
    {
        match failure {
            Failure::MismatchedBraces => VariableExpressionError::MismatchedBraces(
                template.to_owned(),
            ),
            Failure::NumberTooLarge => VariableExpressionError::NumberTooLarge(template.to_owned()),
        }
    }
}

/// Finds the variables of the template `input`, at which captured text is to be injected.
///
/// Returns them in the order in which they stand, each with the byte range it takes up, from
/// its dollar sign to the end of its name, number or last closing brace. Refuses a template in
/// which a variable in braces is not closed, or whose number is too large.
pub fn inject_variables(input: &str) -> (result: Result<
    VariablePositions,
    VariableExpressionError,
>)
    ensures
        match parse(bytes_of(input@)) {
            Ok(found) => result matches Ok(positions) && positions@ == variables_of(
                bytes_of(input@),
                found,
            ),
            Err(failure) => result matches Err(error) && error.failure() == failure
                && error.expression() == input@,
        },
        result matches Ok(positions) ==> stand_in_order(positions@, bytes_of(input@)),
{
    let bytes = input.as_bytes();
    let len = bytes.len();
    proof {
        encode_utf8_valid_utf8(input@);
        lemma_variables_stand_in_order(bytes@);
    }
    let mut state = State::Neutral;
    let mut variables: Vec<Variable> = Vec::new();
    let ghost mut found: Seq<Occurrence> = Seq::empty();
    let mut index: usize = 0;
    while index < len
        invariant
            bytes@ == bytes_of(input@),
            len == bytes@.len(),
            index <= len,
            scan(bytes@, index as nat) == (Scan::Running { state, found }),
            variables@.len() == found.len(),
            forall|i: int|
                0 <= i < found.len() ==> (#[trigger] variables@[i])@ == variable_of(
                    bytes@,
                    found[i],
                ),
        decreases len - index,
    {
        proof {
            lemma_scan_valid(bytes@, index as nat);
            lemma_scan_valid(bytes@, (index + 1) as nat);
        }
        match step(state, bytes[index], index) {
            Transition::Move(next) => {
                state = next;
            },
            Transition::Record(occurrence, next) => {
                proof {
                    assert(scan(bytes@, (index + 1) as nat) == (Scan::Running {
                        state: next,
                        found: found.push(occurrence),
                    }));
                    assert(found.push(occurrence).last() == occurrence);
                    assert(stands_in(
                        found.push(occurrence)[found.len() as int],
                        bytes@,
                        frontier(next, index + 1),
                    ));
                }
                variables.push(resolve(input, occurrence));
                proof {
                    found = found.push(occurrence);
                }
                state = next;
            },
            Transition::Fail(failure) => {
                proof {
                    lemma_failure_is_final(bytes@, (index + 1) as nat, len as nat);
                }
                return Err(VariableExpressionError::new(failure, input));
            },
        }
        index += 1;
    }
    proof {
        lemma_parse_valid(bytes@);
    }
    match finish(state, len) {
        Ok(Some(last)) => {
            proof {
                assert(found.push(last).last() == last);
                assert(stands_in(found.push(last)[found.len() as int], bytes@, len as int));
            }
            variables.push(resolve(input, last));
            let positions = VariablePositions { variables };
            assert(positions@ =~= variables_of(bytes@, found.push(last)));
            Ok(positions)
        },
        Ok(None) => {
            let positions = VariablePositions { variables };
            assert(positions@ =~= variables_of(bytes@, found));
            Ok(positions)
        },
        Err(failure) => Err(VariableExpressionError::new(failure, input)),
    }
}

} // verus!

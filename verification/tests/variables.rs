use srgn::actions::replace::variables::{
    begin, end, finish, inject_variables, is_ascii_digit, is_name_start, step, Failure,
    Occurrence, Reference, State, Transition, Variable, VariableExpressionError,
    VariablePositions,
};
use srgn::ranges::ByteRange;
use srgn::scoping::regex::CaptureGroup;

fn named(name: &str) -> CaptureGroup {
    CaptureGroup::Named(name.to_owned())
}

fn numbered(number: usize) -> CaptureGroup {
    CaptureGroup::Numbered(number)
}

fn listed(positions: &VariablePositions) -> Vec<(CaptureGroup, usize, usize)> {
    (0..positions.len())
        .map(|index| {
            let Variable { group, range } = positions.get(index).clone();
            (group, range.start, range.end)
        })
        .collect()
}

fn found(expression: &str) -> Vec<(CaptureGroup, usize, usize)> {
    listed(&inject_variables(expression).unwrap())
}

fn mismatched(expression: &str) {
    assert_eq!(
        inject_variables(expression),
        Err(VariableExpressionError::MismatchedBraces(expression.to_owned()))
    );
}

#[test]
fn no_variables() {
    for expression in ["", "Regular content", "$", "$$", "$$$", "$-1"] {
        assert_eq!(found(expression), vec![], "{expression}");
    }
}

#[test]
fn basic_named() {
    assert_eq!(found("$var"), vec![(named("var"), 0, 4)]);
    assert_eq!(found(" $var"), vec![(named("var"), 1, 5)]);
    assert_eq!(found("$var "), vec![(named("var"), 0, 4)]);
    assert_eq!(found("$VAR"), vec![(named("VAR"), 0, 4)]);
    assert_eq!(found("$_"), vec![(named("_"), 0, 2)]);
}

#[test]
fn named_may_hold_digits_and_underscores_after_the_first_character() {
    assert_eq!(found("$var1"), vec![(named("var1"), 0, 5)]);
    assert_eq!(found("$var_1337_wow"), vec![(named("var_1337_wow"), 0, 13)]);
    assert_eq!(found("$1var"), vec![(numbered(1), 0, 2)]);
}

#[test]
fn braces() {
    assert_eq!(found("${0}"), vec![(numbered(0), 0, 4)]);
    assert_eq!(found("${var}"), vec![(named("var"), 0, 6)]);
    assert_eq!(found("${{var}}"), vec![(named("var"), 0, 8)]);
    assert_eq!(found("${{name}}"), vec![(named("name"), 0, 9)]);
}

#[test]
fn excess_closing_braces_are_text() {
    assert_eq!(found("${var}}"), vec![(named("var"), 0, 6)]);
    assert_eq!(found("$var}"), vec![(named("var"), 0, 4)]);
}

#[test]
fn insufficient_closing_braces_are_refused() {
    mismatched("${{var}");
    mismatched("${var");
    mismatched("${{name}");
    mismatched("${0");
    mismatched("${{0}");
}

#[test]
fn anything_but_a_closing_brace_inside_braces_is_refused() {
    mismatched("${var }");
    mismatched("${var$}");
    mismatched("${{var}x}");
    mismatched("${0a}");
}

#[test]
fn mixed_content() {
    assert_eq!(found("Mixed $var content"), vec![(named("var"), 6, 10)]);
    assert_eq!(found("Mixed$varcontent"), vec![(named("varcontent"), 5, 16)]);
    assert_eq!(found("Mixed${var}content"), vec![(named("var"), 5, 11)]);
    assert_eq!(found("Mixed${{var}}content"), vec![(named("var"), 5, 13)]);
}

#[test]
fn basic_numbered() {
    assert_eq!(found("$0"), vec![(numbered(0), 0, 2)]);
    assert_eq!(found("$1"), vec![(numbered(1), 0, 2)]);
    assert_eq!(found("$9999"), vec![(numbered(9999), 0, 5)]);
    assert_eq!(found("$007"), vec![(numbered(7), 0, 4)]);
}

#[test]
fn numbered_cannot_contain_letters() {
    assert_eq!(found("$0hello"), vec![(numbered(0), 0, 2)]);
    assert_eq!(found("${0}hello"), vec![(numbered(0), 0, 4)]);
}

#[test]
fn multiple_variables_spaced_out() {
    assert_eq!(found("$var $var"), vec![(named("var"), 0, 4), (named("var"), 5, 9)]);
    assert_eq!(
        found("$var $0 $var"),
        vec![(named("var"), 0, 4), (numbered(0), 5, 7), (named("var"), 8, 12)]
    );
}

#[test]
fn multiple_variables_back_to_back() {
    assert_eq!(found("$var1$var2"), vec![(named("var1"), 0, 5), (named("var2"), 5, 10)]);
    assert_eq!(found("${var1}${var2}"), vec![(named("var1"), 0, 7), (named("var2"), 7, 14)]);
    assert_eq!(found("$0$1"), vec![(numbered(0), 0, 2), (numbered(1), 2, 4)]);
    assert_eq!(found("${0}${1}"), vec![(numbered(0), 0, 4), (numbered(1), 4, 8)]);
}

#[test]
fn end_to_end() {
    assert_eq!(
        found("A long $0 example $TEST!"),
        vec![(numbered(0), 7, 9), (named("TEST"), 18, 23)]
    );
}

#[test]
fn non_ascii_starts_no_variable() {
    assert_eq!(found("$🦀"), vec![]);
}

#[test]
fn offsets_are_in_bytes() {
    assert_eq!(found("ä$var"), vec![(named("var"), 2, 6)]);
    assert_eq!(found("$varä$0"), vec![(named("var"), 0, 4), (numbered(0), 6, 8)]);
}

#[test]
fn dollar_escaping() {
    assert_eq!(found("$$notavar"), vec![]);
    assert_eq!(found("$$$avar"), vec![(named("avar"), 2, 7)]);
    assert_eq!(found("$$${avar}$$"), vec![(named("avar"), 2, 9)]);
    assert_eq!(found("$$$$avar"), vec![]);
}

#[test]
fn a_dollar_after_opening_braces_starts_nothing() {
    assert_eq!(found("${$var}"), vec![]);
}

#[test]
fn ranges_of_one_group() {
    let positions = inject_variables("$var $0 $var").unwrap();
    assert_eq!(
        positions.ranges_of(&named("var")),
        vec![ByteRange::new(0, 4), ByteRange::new(8, 12)]
    );
    assert_eq!(positions.ranges_of(&numbered(0)), vec![ByteRange::new(5, 7)]);
    assert_eq!(positions.ranges_of(&numbered(1)), vec![]);
}

#[test]
fn a_number_that_fits_the_word_is_taken() {
    let largest = format!("${}", usize::MAX);
    assert_eq!(found(&largest), vec![(numbered(usize::MAX), 0, largest.len())]);
}

#[test]
fn a_number_too_large_for_the_word_is_refused() {
    let expression = format!("${}0", usize::MAX);
    assert_eq!(
        inject_variables(&expression),
        Err(VariableExpressionError::NumberTooLarge(expression.clone()))
    );
}

#[test]
fn messages() {
    assert_eq!(
        VariableExpressionError::MismatchedBraces("${a".to_owned()).message(),
        "Contains an imbalanced set of braces: '${a'"
    );
}

#[test]
fn single_steps_of_the_reader() {
    let range = ByteRange::new;
    assert!(is_name_start(b'a') && is_name_start(b'Z') && is_name_start(b'_'));
    assert!(!is_name_start(b'0') && !is_name_start(b'$') && !is_name_start(0xc3));
    assert!(is_ascii_digit(b'0') && is_ascii_digit(b'9') && !is_ascii_digit(b'a'));

    assert_eq!(step(State::Neutral, b'$', 0), Transition::Move(State::MaybeStart));
    assert_eq!(step(State::Neutral, b'x', 0), Transition::Move(State::Neutral));
    assert_eq!(step(State::MaybeStart, b'$', 1), Transition::Move(State::Neutral));
    assert_eq!(step(State::MaybeStart, b'{', 1), Transition::Move(State::WindUpBraces(1)));
    assert_eq!(step(State::WindUpBraces(1), b'{', 2), Transition::Move(State::WindUpBraces(2)));
    assert_eq!(step(State::WindUpBraces(2), b'$', 3), Transition::Move(State::Neutral));
    assert_eq!(
        begin(2, b'v', 3),
        State::BuildingNamed { start: 0, name_start: 3, braces: 2 }
    );
    assert_eq!(
        begin(0, b'7', 5),
        State::BuildingNumbered { magnitude: 7, start: 4, braces: 0 }
    );
    assert_eq!(
        step(State::BuildingNumbered { magnitude: 7, start: 4, braces: 0 }, b'3', 6),
        Transition::Move(State::BuildingNumbered { magnitude: 73, start: 4, braces: 0 })
    );
    assert_eq!(
        step(State::BuildingNumbered { magnitude: usize::MAX / 10 + 1, start: 0, braces: 0 }, b'0', 30),
        Transition::Fail(Failure::NumberTooLarge)
    );
    assert_eq!(
        step(State::BuildingNamed { start: 0, name_start: 1, braces: 0 }, b'$', 4),
        Transition::Record(
            Occurrence { reference: Reference::Named(range(1, 4)), range: range(0, 4) },
            State::MaybeStart
        )
    );
    assert_eq!(
        end(Reference::Numbered(1), 0, 2, b'}', 4),
        Transition::Move(State::WindDownNumbered { magnitude: 1, start: 0, braces: 1 })
    );
    assert_eq!(
        end(Reference::Numbered(1), 0, 2, b'x', 4),
        Transition::Fail(Failure::MismatchedBraces)
    );
    assert_eq!(
        step(State::WindDownNamed { start: 0, name: range(2, 5), braces: 0 }, b'a', 6),
        Transition::Record(
            Occurrence { reference: Reference::Named(range(2, 5)), range: range(0, 6) },
            State::Neutral
        )
    );
    assert_eq!(finish(State::MaybeStart, 1), Ok(None));
    assert_eq!(finish(State::WindUpBraces(3), 4), Ok(None));
    assert_eq!(
        finish(State::BuildingNamed { start: 2, name_start: 3, braces: 0 }, 7),
        Ok(Some(Occurrence { reference: Reference::Named(range(3, 7)), range: range(2, 7) }))
    );
    assert_eq!(
        finish(State::WindDownNumbered { magnitude: 0, start: 0, braces: 1 }, 5),
        Err(Failure::MismatchedBraces)
    );
}

#[test]
fn groups_are_listed_once_each_in_order_of_first_appearance() {
    let positions = inject_variables("$b $0 $a ${b} $0$c").unwrap();
    assert_eq!(positions.groups(), vec![named("b"), numbered(0), named("a"), named("c")]);
    assert_eq!(inject_variables("none").unwrap().groups(), vec![]);
    assert!(inject_variables("none").unwrap().is_empty());
}

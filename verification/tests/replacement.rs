use srgn::actions::replace::variables::VariableExpressionError;
use srgn::actions::replace::{Replacement, ReplacementCreationError};
use srgn::actions::{Action, ActionError};
use srgn::ranges::ByteRange;
use srgn::scoping::regex::CaptureGroup;
use srgn::scoping::scope::{CaptureBindings, ScopeContext};

fn named(name: &str) -> CaptureGroup {
    CaptureGroup::Named(name.to_owned())
}

fn context(bindings: &[(CaptureGroup, &str)]) -> ScopeContext {
    let mut bound = CaptureBindings::new();
    for (group, text) in bindings {
        bound.insert(group.clone(), (*text).to_owned(), ByteRange::new(0, text.len()));
    }
    ScopeContext::CaptureGroups(bound)
}

fn replacement(template: &str) -> Replacement {
    Replacement::try_from(template.to_owned()).unwrap()
}

#[test]
fn creation_of_a_regular_string() {
    assert!(Replacement::try_from("Some Replacement".to_owned()).is_ok());
}

#[test]
fn escape_sequences_are_processed() {
    let made = replacement(r"Some \t Escape");
    assert_eq!(made.repl(), "Some \t Escape");
    assert_eq!(made.act("anything"), "Some \t Escape");
}

#[test]
fn invalid_escape_sequence_is_refused() {
    assert_eq!(
        Replacement::try_from(r"Invalid \z Escape".to_owned()),
        Err(ReplacementCreationError::InvalidEscapeSequences("Invalid \\z Escape".to_owned()))
    );
}

#[test]
fn mismatched_braces_are_refused_with_the_template() {
    assert_eq!(
        Replacement::try_from("${{name}".to_owned()),
        Err(ReplacementCreationError::VariableError(VariableExpressionError::MismatchedBraces(
            "${{name}".to_owned()
        )))
    );
}

#[test]
fn variables_are_found_after_unescaping() {
    let made = replacement(r"\t$var");
    assert_eq!(made.positions().len(), 1);
    assert_eq!(made.positions().get(0).range, ByteRange::new(1, 5));
}

#[test]
fn plain_variable_is_replaced() {
    let made = replacement("Hello $var World");
    assert_eq!(
        made.act_with_context("ignored", &context(&[(named("var"), "Rust")])),
        Ok("Hello Rust World".to_owned())
    );
}

#[test]
fn braced_variable_is_replaced_over_its_full_span() {
    let made = replacement("${{name}}");
    assert_eq!(made.positions().get(0).range, ByteRange::new(0, 9));
    assert_eq!(made.act_with_context("", &context(&[(named("name"), "x")])), Ok("x".to_owned()));
}

#[test]
fn escaped_dollars_stay_as_they_are() {
    let made = replacement("$$notavar");
    assert_eq!(made.act_with_context("", &context(&[])), Ok("$$notavar".to_owned()));
    let made = replacement("$$$avar");
    assert_eq!(
        made.act_with_context("", &context(&[(named("avar"), "!")])),
        Ok("$$!".to_owned())
    );
}

#[test]
fn numbered_variable_leaves_letters_as_text() {
    let made = replacement("$0hello");
    assert_eq!(
        made.act_with_context("", &context(&[(CaptureGroup::Numbered(0), "oh ")])),
        Ok("oh hello".to_owned())
    );
}

#[test]
fn groups_may_repeat_and_interleave() {
    let made = replacement("$a-$1-${a}${{1}}ä$a");
    assert_eq!(
        made.act_with_context(
            "",
            &context(&[(named("a"), "x"), (CaptureGroup::Numbered(1), "ö"), (named("b"), "no")])
        ),
        Ok("x-ö-xöäx".to_owned())
    );
}

#[test]
fn a_group_bound_twice_has_what_was_bound_last() {
    let made = replacement("$a");
    assert_eq!(
        made.act_with_context("", &context(&[(named("a"), "first"), (named("a"), "second")])),
        Ok("second".to_owned())
    );
}

#[test]
fn missing_binding_is_an_error() {
    let made = replacement("$defined $undefined $alsoundefined");
    assert_eq!(
        made.act_with_context("", &context(&[(named("defined"), "x"), (named("other"), "y")])),
        Err(ActionError::MissingCaptureGroup {
            missing: named("undefined"),
            available: vec![named("defined"), named("other")],
        })
    );
}

#[test]
fn without_context_the_template_stands() {
    assert_eq!(replacement("Hello $var World").act("x"), "Hello $var World");
}

#[test]
fn default_replaces_by_nothing() {
    assert_eq!(Replacement::default().act("x"), "");
}

#[test]
fn creation_error_messages() {
    assert_eq!(
        ReplacementCreationError::InvalidEscapeSequences("a\\z".to_owned()).message(),
        "Contains invalid escape sequences: 'a\\z'"
    );
    assert_eq!(
        ReplacementCreationError::VariableError(VariableExpressionError::MismatchedBraces(
            "${a".to_owned()
        ))
        .message(),
        "Error in variable expressions: 'Contains an imbalanced set of braces: '${a''"
    );
}

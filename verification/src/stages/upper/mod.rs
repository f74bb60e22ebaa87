//! Rendering in uppercase.

use vstd::prelude::*;

use crate::actions::{Action, ActionError, ActionErrorView};
use crate::scoping::scope::{CaptureBindingView, ScopeContext};

verus! {

/// The uppercase of a text, as Unicode defines it and the standard library computes it.
pub uninterp spec fn uppercased(text: Seq<char>) -> Seq<char>;

/// Uppercases a text: `str::to_uppercase`. Trusted: what it gives depends on the text alone,
/// and [`uppercased`] is the name for it.
#[verifier::external_body]
fn to_uppercase(text: &str) -> (upper: String)
    ensures
        upper@ == uppercased(text@),
{
    text.to_uppercase()
}

/// The small sharp s, whose uppercase the standard library takes to be `SS`.
pub const SMALL_SHARP_S: char = '\u{df}';

/// The capital sharp s.
pub const CAPITAL_SHARP_S: &'static str = "\u{1e9e}";

/// The text with `to` in place of each character `from`.
pub open spec fn replaced(text: Seq<char>, from: char, to: Seq<char>) -> Seq<char>
    decreases text.len(),
{
    if text.len() == 0 {
        Seq::empty()
    } else {
        replaced(text.drop_last(), from, to) + if text.last() == from {
            to
        } else {
            seq![text.last()]
        }
    }
}

/// Replaces a character throughout a text: `str::replace` with the character for a pattern.
/// Trusted: each occurrence of the character gives way to `to`, and nothing else changes.
#[verifier::external_body]
fn replace(text: &str, from: char, to: &str) -> (output: String)
    ensures
        output@ == replaced(text@, from, to@),
{
    text.replace(from, to)
}

/// Renders in uppercase.
#[derive(Debug, Clone, Copy, PartialEq, Eq, Default)]
pub struct UpperStage {}

impl UpperStage {
    /// Renders `input` in uppercase, with the capital sharp s for the small one.
    pub fn process(&self, input: &str) -> (output: String)
        ensures
            output@ == uppercased(replaced(input@, SMALL_SHARP_S, CAPITAL_SHARP_S@)),
    {
        let sharpened = replace(input, SMALL_SHARP_S, CAPITAL_SHARP_S);
        to_uppercase(sharpened.as_str())
    }
}

impl Action for UpperStage {
    open spec fn spec_act(&self, input: Seq<char>) -> Seq<char> {
        uppercased(replaced(input, SMALL_SHARP_S, CAPITAL_SHARP_S@))
    }

    /// What a part brings with it has no bearing on its uppercase.
    open spec fn spec_act_with_context(
        &self,
        input: Seq<char>,
        context: Seq<CaptureBindingView>,
    ) -> Result<Seq<char>, ActionErrorView> {
        Ok(uppercased(replaced(input, SMALL_SHARP_S, CAPITAL_SHARP_S@)))
    }

    fn act(&self, input: &str) -> (output: String) {
        self.process(input)
    }

    fn act_with_context(&self, input: &str, context: &ScopeContext) -> (output: Result<
        String,
        ActionError,
    >) {
        Ok(self.process(input))
    }
}

} // verus!

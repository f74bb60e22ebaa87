//! Rendering in lowercase.

use vstd::prelude::*;

use crate::actions::{Action, ActionError, ActionErrorView};
use crate::scoping::scope::{CaptureBindingView, ScopeContext};

verus! {

/// The lowercase of a text, as Unicode defines it and the standard library computes it.
pub uninterp spec fn lowercased(text: Seq<char>) -> Seq<char>;

/// Lowercases a text: `str::to_lowercase`. Trusted: what it gives depends on the text alone,
/// and [`lowercased`] is the name for it.
#[verifier::external_body]
fn to_lowercase(text: &str) -> (lower: String)
    ensures
        lower@ == lowercased(text@),
{
    text.to_lowercase()
}

/// Renders in lowercase.
#[derive(Debug, Clone, Copy, PartialEq, Eq, Default)]
pub struct LowerStage {}

impl LowerStage {
    /// Renders `input` in lowercase.
    pub fn substitute(&self, input: &str) -> (output: String)
        ensures
            output@ == lowercased(input@),
    {
        to_lowercase(input)
    }
}

impl Action for LowerStage {
    open spec fn spec_act(&self, input: Seq<char>) -> Seq<char> {
        lowercased(input)
    }

    /// What a part brings with it has no bearing on its lowercase.
    open spec fn spec_act_with_context(
        &self,
        input: Seq<char>,
        context: Seq<CaptureBindingView>,
    ) -> Result<Seq<char>, ActionErrorView> {
        Ok(lowercased(input))
    }

    fn act(&self, input: &str) -> (output: String) {
        self.substitute(input)
    }

    fn act_with_context(&self, input: &str, context: &ScopeContext) -> (output: Result<
        String,
        ActionError,
    >) {
        Ok(self.substitute(input))
    }
}

} // verus!

//! Actions: what is done to the parts of a text that are in scope.

use vstd::prelude::*;

use crate::scoping::regex::{CaptureGroup, CaptureGroupView};
use crate::scoping::scope::{CaptureBindingView, ScopeContext};

pub mod replace;



verus! {

/// Why an action could not be applied to a part of a text.
#[derive(Debug, PartialEq, Eq)]
pub enum ActionError {
    /// The action needs what a capture group has captured, and the part brings no such group
    /// with it.
    MissingCaptureGroup {
        /// The group that is needed and not there.
        missing: CaptureGroup,
        /// The groups that are there.
        available: Vec<CaptureGroup>,
    },
}

/// What an [`ActionError`] stands for in contracts.
pub enum ActionErrorView {
    MissingCaptureGroup { missing: CaptureGroupView, available: Seq<CaptureGroupView> },
}

impl View for ActionError {
    type V = ActionErrorView;

    open spec fn view(&self) -> ActionErrorView {
        match self {
            ActionError::MissingCaptureGroup { missing, available } => {
                ActionErrorView::MissingCaptureGroup {
                    missing: missing@,
                    available: Seq::new(available@.len(), |i: int| available@[i]@),
                }
            },
        }
    }
}

/// An action in the processing pipeline: it makes a new text of a part of a text that is in
/// scope.
///
/// What an action makes of a text depends on the text alone, or on the text and on what the
/// part brings with it. Actions are meant to be applicable any number of times with the same
/// outcome as once, but nothing here depends on that.
pub trait Action: Send + Sync {
    /// What the action makes of `input`.
    spec fn spec_act(&self, input: Seq<char>) -> Seq<char>;

    /// What the action makes of `input` where the part brings `context` with it. An action
    /// that has no use for the context makes of it what it makes without.
    spec fn spec_act_with_context(&self, input: Seq<char>, context: Seq<CaptureBindingView>) -> Result<
        Seq<char>,
        ActionErrorView,
    >;

    /// Applies the action to `input`.
    fn act(&self, input: &str) -> (output: String)
        ensures
            output@ == self.spec_act(input@),
    ;

    /// Applies the action to `input`, which brings `context` with it.
    fn act_with_context(&self, input: &str, context: &ScopeContext) -> (output: Result<
        String,
        ActionError,
    >)
        ensures
            match self.spec_act_with_context(input@, context@) {
                Ok(text) => output matches Ok(made) && made@ == text,
                Err(error) => output matches Err(raised) && raised@ == error,
            },
    ;
}

/// Any boxed [`Action`] is an action.
impl Action for Box<dyn Action> {
    open spec fn spec_act(&self, input: Seq<char>) -> Seq<char> {
        (**self).spec_act(input)
    }

    open spec fn spec_act_with_context(
        &self,
        input: Seq<char>,
        context: Seq<CaptureBindingView>,
    ) -> Result<Seq<char>, ActionErrorView> {
        (**self).spec_act_with_context(input, context)
    }

    fn act(&self, input: &str) -> (output: String) {
        (**self).act(input)
    }

    fn act_with_context(&self, input: &str, context: &ScopeContext) -> (output: Result<
        String,
        ActionError,
    >) {
        (**self).act_with_context(input, context)
    }
}

} // verus!

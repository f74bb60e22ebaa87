//! Replacing what is in scope by a template that may refer to capture groups.

use vstd::prelude::*;
use vstd::string::*;
use vstd::utf8::*;

use crate::actions::{Action, ActionError, ActionErrorView};
use crate::ranges::ByteRange;
use crate::scoping::scope::{bound, groups_of, CaptureBindingView, CaptureBindings, ScopeContext};
use crate::text::{bytes_of, lemma_ascii_byte_is_character, slice, slice_of};
use variables::{
    in_order, inject_variables, lemma_parse_valid, parse, stands_in, variables_of, Failure,
    Occurrence, VariableExpressionError, VariablePositions, VariableView,
};

pub mod variables;

verus! {

/// What unescaping makes of a text in which escape sequences are written out with a
/// backslash (`\n`, `\t`, `\u00e4` and so on), or nothing where one of them is not valid.
pub uninterp spec fn unescaped(text: Seq<char>) -> Option<Seq<char>>;

/// Unescapes a text: `unescape::unescape`. Trusted: what it gives depends on the text alone,
/// and [`unescaped`] is the name for it.
#[verifier::external_body]
fn unescape(text: &str) -> (plain: Option<String>)
    ensures
        match plain {
            Some(plain) => unescaped(text@) == Some(plain@),
            None => unescaped(text@) is None,
        },
{
    unescape::unescape(text)
}

/// Where the text before the variable at place `index` starts: where the variable before it
/// ends, or at the start of the template.
pub open spec fn gap_start(variables: Seq<VariableView>, index: int) -> usize {
    if index == 0 {
        0
    } else {
        variables[index - 1].range.end
    }
}

/// The text that stands for the variable `variable`: what `bindings` hold for its group.
pub open spec fn injected(variable: VariableView, bindings: Seq<CaptureBindingView>) -> Seq<char> {
    match bound(bindings, variable.group) {
        Some(binding) => binding.text,
        None => Seq::empty(),
    }
}

/// The template up to and including its variable at place `count - 1`, with what `bindings`
/// hold in place of each variable.
pub open spec fn rendered(
    template: Seq<char>,
    variables: Seq<VariableView>,
    bindings: Seq<CaptureBindingView>,
    count: nat,
) -> Seq<char>
    decreases count,
{
    if count == 0 {
        Seq::empty()
    } else {
        let variable = variables[count - 1];
        rendered(template, variables, bindings, (count - 1) as nat) + slice_of(
            template,
            ByteRange { start: gap_start(variables, count - 1), end: variable.range.start },
        ) + injected(variable, bindings)
    }
}

/// The template with what `bindings` hold in place of each variable: read from left to right,
/// the text between the variables as it is, and for each variable the text that is bound to
/// its group.
pub open spec fn render(
    template: Seq<char>,
    variables: Seq<VariableView>,
    bindings: Seq<CaptureBindingView>,
) -> Seq<char> {
    rendered(template, variables, bindings, variables.len()) + slice_of(
        template,
        ByteRange {
            start: gap_start(variables, variables.len() as int),
            end: bytes_of(template).len() as usize,
        },
    )
}

/// The place of the first of the first `count` variables for whose group `bindings` hold
/// nothing.
pub open spec fn first_missing(
    variables: Seq<VariableView>,
    bindings: Seq<CaptureBindingView>,
    count: nat,
) -> Option<int>
    decreases count,
{
    if count == 0 {
        None
    } else {
        match first_missing(variables, bindings, (count - 1) as nat) {
            Some(index) => Some(index),
            None => if bound(bindings, variables[count - 1].group) is None {
                Some(count - 1)
            } else {
                None
            },
        }
    }
}

/// What injecting `bindings` into a template gives: the rendered template, or the error that
/// names the first variable for which nothing is bound.
pub open spec fn substituted(
    template: Seq<char>,
    variables: Seq<VariableView>,
    bindings: Seq<CaptureBindingView>,
) -> Result<Seq<char>, ActionErrorView> {
    match first_missing(variables, bindings, variables.len()) {
        Some(index) => Err(
            ActionErrorView::MissingCaptureGroup {
                missing: variables[index].group,
                available: groups_of(bindings),
            },
        ),
        None => Ok(render(template, variables, bindings)),
    }
}

/// Whether `variables` are the variables of `template`.
pub open spec fn are_variables_of(variables: Seq<VariableView>, template: Seq<char>) -> bool {
    match parse(bytes_of(template)) {
        Ok(found) => variables == variables_of(bytes_of(template), found),
        Err(_) => false,
    }
}

/// Puts what `bindings` hold in place of the variables of `template`.
pub fn substitute(template: &str, variables: &VariablePositions, bindings: &CaptureBindings) -> (output:
    Result<String, ActionError>)
    requires
        are_variables_of(variables@, template@),
    ensures
        match substituted(template@, variables@, bindings@) {
            Ok(text) => output matches Ok(made) && made@ == text,
            Err(error) => output matches Err(raised) && raised@ == error,
        },
{
    let ghost bytes = bytes_of(template@);
    let ghost found = parse(bytes)->Ok_0;
    let len = template.as_bytes().len();
    proof {
        lemma_parse_valid(bytes);
        encode_utf8_valid_utf8(template@);
        is_char_boundary_start_end_of_seq(bytes);
    }
    let mut output = String::new();
    let mut position: usize = 0;
    let mut index: usize = 0;
    while index < variables.len()
        invariant
            bytes == bytes_of(template@),
            valid_utf8(bytes),
            len == bytes.len(),
            parse(bytes) == Ok::<Seq<Occurrence>, Failure>(found),
            variables@ == variables_of(bytes, found),
            in_order(found, bytes, bytes.len() as int),
            index <= variables@.len(),
            position == gap_start(variables@, index as int),
            is_char_boundary(bytes, position as int),
            position <= len,
            index < found.len() ==> position <= found[index as int].range.start,
            first_missing(variables@, bindings@, index as nat) is None,
            output@ == rendered(template@, variables@, bindings@, index as nat),
        decreases variables@.len() - index,
    {
        let variable = variables.get(index);
        proof {
            assert(variable@ == variables@[index as int]);
            assert(variable.range == found[index as int].range);
            assert(stands_in(found[index as int], bytes, bytes.len() as int));
            lemma_ascii_byte_is_character(bytes, variable.range.start as int);
            lemma_ascii_byte_is_character(bytes, variable.range.end - 1);
            if index + 1 < found.len() {
                assert(found[index as int].range.end <= found[index + 1].range.start);
            }
        }
        match bindings.get(&variable.group) {
            Some(binding) => {
                let gap = slice(template, ByteRange { start: position, end: variable.range.start });
                output.append(gap);
                output.append(binding.text.as_str());
                position = variable.range.end;
            },
            None => {
                proof {
                    lemma_first_missing_stays(
                        variables@,
                        bindings@,
                        (index + 1) as nat,
                        variables@.len(),
                    );
                }
                let error = ActionError::MissingCaptureGroup {
                    missing: variable.group.clone(),
                    available: bindings.groups(),
                };
                assert(error@->available =~= groups_of(bindings@));
                return Err(error);
            },
        }
        index += 1;
    }
    let rest = slice(template, ByteRange { start: position, end: len });
    output.append(rest);
    Ok(output)
}

/// The first variable for which nothing is bound stays the first, however many more
/// variables are looked at.
pub proof fn lemma_first_missing_stays(
    variables: Seq<VariableView>,
    bindings: Seq<CaptureBindingView>,
    count: nat,
    more: nat,
)
    requires
        count <= more,
        first_missing(variables, bindings, count) is Some,
    ensures
        first_missing(variables, bindings, more) == first_missing(variables, bindings, count),
    decreases more,
{
    if count < more {
        lemma_first_missing_stays(variables, bindings, count, (more - 1) as nat);
    }
}

/// An error that can occur when creating a replacement.
#[derive(Debug, PartialEq, Eq)]
pub enum ReplacementCreationError {
    /// The replacement contains invalid escape sequences. Holds the replacement.
    InvalidEscapeSequences(String),
    /// The replacement contains an error in its variable expressions.
    VariableError(VariableExpressionError),
}

impl ReplacementCreationError {
    /// Says what is wrong, for a reader.
    pub fn message(&self) -> (message: String)
        ensures
            message@ == match self {
                ReplacementCreationError::InvalidEscapeSequences(replacement) => {
                    "Contains invalid escape sequences: '"@ + replacement@ + "'"@
                },
                ReplacementCreationError::VariableError(error) => {
                    "Error in variable expressions: '"@ + match error {
                        VariableExpressionError::MismatchedBraces(expression) => {
                            "Contains an imbalanced set of braces: '"@ + expression@ + "'"@
                        },
                        VariableExpressionError::NumberTooLarge(expression) => {
                            "Contains a variable number that is too large: '"@ + expression@
                                + "'"@
                        },
                    } + "'"@
                },
            },
    {
        match self {
            ReplacementCreationError::InvalidEscapeSequences(replacement) => {
                let mut message = "Contains invalid escape sequences: '".to_owned();
                message.append(replacement.as_str());
                message.append("'");
                message
            },
            ReplacementCreationError::VariableError(error) => {
                let mut message = "Error in variable expressions: '".to_owned();
                message.append(error.message().as_str());
                message.append("'");
                message
            },
        }
    }
}

impl From<VariableExpressionError> for ReplacementCreationError {
    fn from(value: VariableExpressionError) -> (error: Self) {
        ReplacementCreationError::VariableError(value)
    }
}

impl vstd::std_specs::convert::FromSpecImpl<VariableExpressionError> for ReplacementCreationError {
    open spec fn obeys_from_spec() -> bool {
        true
    }

    open spec fn from_spec(value: VariableExpressionError) -> Self {
        ReplacementCreationError::VariableError(value)
    }
}

/// Replaces what is in scope by a template, in which variables stand for what the capture
/// groups of the match have captured.
#[derive(Debug, PartialEq, Eq)]
pub struct Replacement {
    repl: String,
    variables: VariablePositions,
}

impl Replacement {
    #[verifier::type_invariant]
    closed spec fn variables_are_those_of_the_template(self) -> bool {
        are_variables_of(self.variables@, self.repl@)
    }

    /// The template: the replacement as it was given, unescaped.
    pub closed spec fn template(self) -> Seq<char> {
        self.repl@
    }

    /// The variables of the template.
    pub closed spec fn variables(self) -> Seq<VariableView> {
        self.variables@
    }

    /// The template: the replacement as it was given, unescaped.
    pub fn repl(&self) -> (repl: &str)
        ensures
            repl@ == self.template(),
    {
        self.repl.as_str()
    }

    /// The variables of the template, which are always those that stand in it.
    pub fn positions(&self) -> (positions: &VariablePositions)
        ensures
            positions@ == self.variables(),
            are_variables_of(self.variables(), self.template()),
    {
        proof {
            use_type_invariant(self);
        }
        &self.variables
    }

    /// Creates the replacement of `replacement`, of which unescaping has made `plain`: the
    /// template is `plain`, and its variables are found in it. Refuses a replacement that
    /// could not be unescaped, or whose variables are not well formed.
    pub fn from_unescaped(replacement: String, plain: Option<String>) -> (made: Result<
        Replacement,
        ReplacementCreationError,
    >)
        ensures
            match plain {
                None => made matches Err(ReplacementCreationError::InvalidEscapeSequences(given))
                    && given@ == replacement@,
                Some(template) => match parse(bytes_of(template@)) {
                    Ok(found) => made matches Ok(replacement) && replacement.template()
                        == template@ && replacement.variables() == variables_of(
                        bytes_of(template@),
                        found,
                    ),
                    Err(failure) => made matches Err(ReplacementCreationError::VariableError(error))
                        && error.failure() == failure && error.expression() == template@,
                },
            },
    {
        match plain {
            None => Err(ReplacementCreationError::InvalidEscapeSequences(replacement)),
            Some(repl) => match inject_variables(repl.as_str()) {
                Ok(variables) => Ok(Replacement { repl, variables }),
                Err(error) => Err(ReplacementCreationError::from(error)),
            },
        }
    }

    /// Puts what `bindings` hold in place of the variables of the template.
    pub fn inject(&self, bindings: &CaptureBindings) -> (output: Result<String, ActionError>)
        ensures
            match substituted(self.template(), self.variables(), bindings@) {
                Ok(text) => output matches Ok(made) && made@ == text,
                Err(error) => output matches Err(raised) && raised@ == error,
            },
    {
        proof {
            use_type_invariant(self);
        }
        substitute(self.repl.as_str(), &self.variables, bindings)
    }
}

impl TryFrom<String> for Replacement {
    type Error = ReplacementCreationError;

    /// Creates a new replacement from an owned string.
    ///
    /// Escape sequences are accepted and processed, and what is left is the template, whose
    /// variables are found. A replacement with an escape sequence that is not valid is
    /// refused, and so is one whose variables are not well formed.
    fn try_from(replacement: String) -> (made: Result<Self, Self::Error>)
        ensures
            match unescaped(replacement@) {
                None => made matches Err(ReplacementCreationError::InvalidEscapeSequences(given))
                    && given@ == replacement@,
                Some(template) => match parse(bytes_of(template)) {
                    Ok(found) => made matches Ok(replacement) && replacement.template() == template
                        && replacement.variables() == variables_of(bytes_of(template), found),
                    Err(failure) => made matches Err(ReplacementCreationError::VariableError(error))
                        && error.failure() == failure && error.expression() == template,
                },
            },
    {
        let plain = unescape(replacement.as_str());
        Replacement::from_unescaped(replacement, plain)
    }
}

impl vstd::std_specs::convert::TryFromSpecImpl<String> for Replacement {
    /// What `try_from` gives is stated in its own contract, over the views of what it takes
    /// and gives.
    open spec fn obeys_try_from_spec() -> bool {
        false
    }

    open spec fn try_from_spec(replacement: String) -> Result<Self, Self::Error> {
        arbitrary()
    }
}

impl Default for Replacement {
    /// The replacement by nothing.
    fn default() -> (replacement: Self)
        ensures
            replacement.template() == Seq::<char>::empty(),
            replacement.variables() == Seq::<VariableView>::empty(),
    {
        let repl = String::new();
        assert(bytes_of(repl@) =~= Seq::<u8>::empty());
        assert(variables_of(bytes_of(repl@), Seq::<Occurrence>::empty()) =~= Seq::<
            VariableView,
        >::empty());
        Replacement { repl, variables: VariablePositions::new() }
    }
}

impl Clone for Replacement {
    fn clone(&self) -> (copy: Self)
        ensures
            copy.template() == self.template(),
            copy.variables() == self.variables(),
    {
        proof {
            use_type_invariant(self);
        }
        Replacement { repl: self.repl.clone(), variables: self.variables.clone() }
    }
}

impl Action for Replacement {
    /// Without the capture groups of a match, the replacement is the template as it stands.
    open spec fn spec_act(&self, input: Seq<char>) -> Seq<char> {
        self.template()
    }

    /// With the capture groups of a match, the replacement is the template with what they
    /// have captured in place of its variables.
    open spec fn spec_act_with_context(
        &self,
        input: Seq<char>,
        context: Seq<CaptureBindingView>,
    ) -> Result<Seq<char>, ActionErrorView> {
        substituted(self.template(), self.variables(), context)
    }

    fn act(&self, input: &str) -> (output: String) {
        self.repl.clone()
    }

    fn act_with_context(&self, input: &str, context: &ScopeContext) -> (output: Result<
        String,
        ActionError,
    >) {
        match context {
            ScopeContext::CaptureGroups(bindings) => self.inject(bindings),
        }
    }
}

} // verus!

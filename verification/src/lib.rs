//! A structural find-and-transform engine: tell which parts of a text are in scope, then
//! rewrite those parts and no others.
//!
//! - [`ranges`] holds the algebra of byte ranges: merging, subtracting, intersecting and
//!   inverting sets of them, each stated by the set of offsets that the result covers.
//! - [`scoping`] holds what finds the scope of a text: scopers by pattern
//!   ([`scoping::regex`]) and by grammar ([`scoping::langs`]), and the view of a text as parts
//!   in and out of scope ([`scoping::view`]), which is built from what scopers find, changed
//!   by actions, and read out again.
//! - [`actions`] holds what changes a part that is in scope, above all the replacement by a
//!   template whose variables stand for what the capture groups of a match have captured
//!   ([`actions::replace`]). [`stages`] holds the actions that fold case.
//! - [`text`] holds what is needed to cut UTF-8 text at byte offsets.
//!
//! Everything here is verified against its contract, but for the calls into other crates
//! and into parts of the standard library that the verifier knows nothing of: those stand behind
//! small functions whose contracts are taken on trust, and whose documentation says so.

pub mod actions;
pub mod find;
pub mod ranges;
pub mod scoping;
pub mod stages;
pub mod text;

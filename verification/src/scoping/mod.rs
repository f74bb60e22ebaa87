//! Scoping: deciding which parts of a text are open to change.

pub mod langs;
pub mod regex;
pub mod scope;
pub mod view;

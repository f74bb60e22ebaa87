//! Stages: actions that fold the case of a text.

pub mod lower;
pub mod upper;

pub use lower::LowerStage;
pub use upper::UpperStage;

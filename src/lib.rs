//! Grouped, styled reports of linter diagnostics.
//!
//! The library takes decoded diagnostic records, groups them by file in a
//! fixed order, renders the report text and decides the exit status.

pub mod severity;
pub mod text;
pub mod diagnostic;
pub mod group;
pub mod style;
pub mod report;
pub mod outcome;

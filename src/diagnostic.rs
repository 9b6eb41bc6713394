use vstd::prelude::*;
use crate::severity::{Severity, lower_of, severity_of_lowered};

verus! {

/// One reported issue, as decoded from the linter's document.
pub struct Diagnostic {
    pub file: String,
    pub line: Option<usize>,
    pub column: Option<usize>,
    pub severity: Severity,
    pub message: String,
    pub rule_id: Option<String>,
}

/// The mathematical value of a [`Diagnostic`].
pub struct DiagnosticView {
    pub file: Seq<char>,
    pub line: Option<usize>,
    pub column: Option<usize>,
    pub severity: Severity,
    pub message: Seq<char>,
    pub rule_id: Option<Seq<char>>,
}

/// The view of an optional text.
pub open spec fn opt_view(o: Option<String>) -> Option<Seq<char>> {
    match o {
        Some(s) => Some(s@),
        None => None,
    }
}

impl View for Diagnostic {
    type V = DiagnosticView;

    open spec fn view(&self) -> DiagnosticView {
        DiagnosticView {
            file: self.file@,
            line: self.line,
            column: self.column,
            severity: self.severity,
            message: self.message@,
            rule_id: opt_view(self.rule_id),
        }
    }
}

/// The views of a sequence of diagnostics.
pub open spec fn views(s: Seq<Diagnostic>) -> Seq<DiagnosticView> {
    s.map_values(|d: Diagnostic| d@)
}

impl Diagnostic {
    /// Builds a record from its decoded fields; the severity label is
    /// classified once, here.
    pub fn new(
        file: String,
        line: Option<usize>,
        column: Option<usize>,
        severity: &str,
        message: String,
        rule_id: Option<String>,
    ) -> (r: Diagnostic)
        ensures
            r.file == file,
            r.line == line,
            r.column == column,
            r.severity == severity_of_lowered(lower_of(severity@)),
            r.message == message,
            r.rule_id == rule_id,
    {
        Diagnostic {
            file,
            line,
            column,
            severity: Severity::from_label(severity),
            message,
            rule_id,
        }
    }
}

} // verus!

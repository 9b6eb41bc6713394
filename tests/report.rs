use swizzy::diagnostic::Diagnostic;
use swizzy::group::{group_by_file, path_precedes};
use swizzy::outcome::{exit_status, format_report};
use swizzy::report::ReportLine;
use swizzy::severity::Severity;
use swizzy::style::{paint, Tone};
use swizzy::text::{decimal_text, is_blank, strip_trailing_periods};

fn record(file: &str, line: Option<usize>, column: Option<usize>, severity: &str, message: &str, rule: Option<&str>) -> Diagnostic {
    Diagnostic::new(
        file.to_string(),
        line,
        column,
        severity,
        message.to_string(),
        rule.map(|r| r.to_string()),
    )
}

fn plain(records: Vec<Diagnostic>) -> String {
    format_report(records, false).text
}

#[test]
fn groups_follow_path_order() {
    let text = plain(vec![
        record("b.swift", Some(1), None, "warning", "in b", None),
        record("a.swift", Some(2), None, "warning", "in a", None),
    ]);
    let a = text.find("a.swift\n").unwrap();
    let b = text.find("b.swift\n").unwrap();
    assert!(a < b);
    assert_eq!(
        text,
        "a.swift\n    a.swift:2  warning  in a\n\nb.swift\n    b.swift:1  warning  in b\n\n\u{2716} 2 problems\n"
    );
}

#[test]
fn records_keep_arrival_order() {
    let text = plain(vec![
        record("x.swift", Some(9), None, "error", "first issue", None),
        record("x.swift", Some(1), None, "error", "second issue", None),
    ]);
    let first = text.find("first issue").unwrap();
    let second = text.find("second issue").unwrap();
    assert!(first < second);
}

#[test]
fn grouping_keeps_each_record_once() {
    let groups = group_by_file(vec![
        record("c.swift", None, None, "error", "one", None),
        record("a.swift", None, None, "error", "two", None),
        record("c.swift", None, None, "error", "three", None),
        record("b.swift", None, None, "error", "four", None),
    ]);
    let paths: Vec<&str> = groups.iter().map(|g| g.path.as_str()).collect();
    assert_eq!(paths, vec!["a.swift", "b.swift", "c.swift"]);
    let sizes: Vec<usize> = groups.iter().map(|g| g.records.len()).collect();
    assert_eq!(sizes, vec![1, 1, 2]);
    assert_eq!(groups[2].records[0].message, "one");
    assert_eq!(groups[2].records[1].message, "three");
}

#[test]
fn one_primary_line_per_record() {
    let report = format_report(
        vec![
            record("a.swift", Some(1), None, "warning", "one", Some("r1")),
            record("b.swift", Some(2), None, "error", "two", None),
            record("a.swift", Some(3), Some(4), "warning", "three", Some("r2")),
        ],
        false,
    );
    let entries = report.lines.iter().filter(|l| matches!(l, ReportLine::Entry(_))).count();
    assert_eq!(entries, 3);
    assert_eq!(report.problems, 3);
    assert_eq!(report.text.lines().filter(|l| l.starts_with("    ") && !l.starts_with("     ")).count(), 3);
}

#[test]
fn summary_singular_for_one() {
    let text = plain(vec![record("a.swift", Some(1), None, "warning", "w", None)]);
    assert!(text.ends_with("\u{2716} 1 problem\n"));
}

#[test]
fn summary_plural_for_three() {
    let text = plain(vec![
        record("a.swift", Some(1), None, "warning", "w", None),
        record("b.swift", Some(1), None, "warning", "w", None),
        record("a.swift", Some(2), None, "error", "e", None),
    ]);
    assert!(text.ends_with("\u{2716} 3 problems\n"));
}

#[test]
fn no_records_no_output() {
    let report = format_report(Vec::new(), false);
    assert_eq!(report.text, "");
    assert!(report.lines.is_empty());
    assert_eq!(report.exit_code, 0);
    assert_eq!(report.problems, 0);
}

#[test]
fn blank_documents() {
    assert!(is_blank(""));
    assert!(is_blank("  \n\t\r "));
    assert!(is_blank("\u{3000}\u{a0}"));
    assert!(!is_blank("[]"));
    assert!(!is_blank("  [ ] "));
}

#[test]
fn severity_labels() {
    assert_eq!(Severity::from_label("Warning"), Severity::Warning);
    assert_eq!(Severity::from_label("WARNING"), Severity::Warning);
    assert_eq!(Severity::from_label("warning"), Severity::Warning);
    assert_eq!(Severity::from_label("Note"), Severity::Error);
    assert_eq!(Severity::from_label("error"), Severity::Error);
    assert_eq!(Severity::from_label(""), Severity::Error);
    assert_eq!(Severity::from_label("warnings"), Severity::Error);
}

#[test]
fn unknown_severity_shows_as_error() {
    let text = plain(vec![record("a.swift", Some(1), None, "Note", "n", None)]);
    assert!(text.contains("  error  n\n"));
    let text = plain(vec![record("a.swift", Some(1), None, "Warning", "w", None)]);
    assert!(text.contains("  warning  w\n"));
}

#[test]
fn plain_output_has_no_escapes() {
    let text = plain(vec![
        record("a.swift", Some(1), Some(2), "warning", "w.", Some("rule_a")),
        record("b.swift", None, None, "error", "e", None),
    ]);
    assert!(!text.contains('\u{1b}'));
}

#[test]
fn full_record_text() {
    let text = plain(vec![record("src/a.swift", Some(3), Some(5), "warning", "Line too long...", Some("line_length"))]);
    assert_eq!(
        text,
        "src/a.swift\n    src/a.swift:3:5  warning  Line too long\n     rule: line_length\n\n\u{2716} 1 problem\n"
    );
}

#[test]
fn absent_line_shows_one() {
    let text = plain(vec![record("a.swift", None, None, "error", "e", None)]);
    assert!(text.contains("    a.swift:1  error  e\n"));
    let text = plain(vec![record("a.swift", None, Some(7), "error", "e", None)]);
    assert!(text.contains("    a.swift:1:7  error  e\n"));
}

#[test]
fn trailing_periods() {
    assert_eq!(strip_trailing_periods("Done..."), "Done");
    assert_eq!(strip_trailing_periods("a.b"), "a.b");
    assert_eq!(strip_trailing_periods("..."), "");
    assert_eq!(strip_trailing_periods(""), "");
}

#[test]
fn decimals() {
    assert_eq!(decimal_text(0), "0");
    assert_eq!(decimal_text(7), "7");
    assert_eq!(decimal_text(1204), "1204");
    assert_eq!(decimal_text(usize::MAX), usize::MAX.to_string());
}

#[test]
fn byte_order_of_paths() {
    assert!(path_precedes("a.swift", "b.swift"));
    assert!(!path_precedes("b.swift", "a.swift"));
    assert!(path_precedes("", "a"));
    assert!(path_precedes("ab", "b"));
    assert!(path_precedes("a", "ab"));
    assert!(!path_precedes("a", "a"));
    assert!(path_precedes("B", "a"));
    assert!(path_precedes("z", "\u{e9}"));
}

#[test]
fn exit_statuses() {
    assert_eq!(exit_status(0), 0);
    assert_eq!(exit_status(1), 1);
    assert_eq!(exit_status(42), 1);
    let report = format_report(vec![record("a.swift", Some(1), None, "warning", "w", None)], false);
    assert_eq!(report.exit_code, 1);
}

#[test]
fn painting_adds_styles_when_enabled() {
    colored::control::set_override(true);
    let red = paint("x", Tone::Error, true);
    assert_ne!(red, "x");
    assert!(red.contains('x'));
    assert!(red.contains('\u{1b}'));
    assert_eq!(paint("x", Tone::Error, false), "x");
    assert_eq!(paint("x", Tone::Plain, true), "x");
}

#[test]
fn colored_report_keeps_content() {
    colored::control::set_override(true);
    let text = format_report(vec![record("a.swift", Some(1), None, "warning", "w", Some("r"))], true).text;
    assert!(text.contains('\u{1b}'));
    assert!(text.contains("a.swift"));
    assert!(text.contains("rule:"));
}

#[test]
fn lowered_labels() {
    assert_eq!(Severity::from_lowered(&"warning".to_string()), Severity::Warning);
    assert_eq!(Severity::from_lowered(&"Warning".to_string()), Severity::Error);
    assert_eq!(Severity::from_lowered(&"error".to_string()), Severity::Error);
    assert_eq!(Severity::Warning.word(), "warning");
    assert_eq!(Severity::Error.word(), "error");
}

use vstd::prelude::*;
use crate::diagnostic::{Diagnostic, DiagnosticView, views};
use crate::group::{FileGroupView, group_by_file, group_views, is_grouping_of, total_records};
use crate::report::{
    LineView,
    ReportLine,
    build_lines,
    entry_count,
    group_lines,
    groups_lines,
    free_of_escape,
    groups_free_of_escape,
    is_entry,
    lemma_plain_report_unstyled,
    line_views,
    record_free_of_escape,
    lines_text,
    record_lines,
    records_lines,
    render_lines,
    report_lines,
};

verus! {

/// The exit status for a number of problems: success only when there are none.
pub open spec fn status_for(problems: nat) -> i32 {
    if problems == 0 {
        0
    } else {
        1
    }
}

/// Decides the exit status from the number of problems.
pub fn exit_status(problems: usize) -> (r: i32)
    ensures
        r == status_for(problems as nat),
{
    if problems == 0 {
        0
    } else {
        1
    }
}

/// The finished report: its lines, their rendered text, and the exit status.
pub struct Report {
    pub lines: Vec<ReportLine>,
    pub text: String,
    pub problems: usize,
    pub exit_code: i32,
}

/// Groups, orders and renders the records. With no records there is no
/// output at all and the status is success; otherwise the report ends with
/// the count of all records and the status is failure.
pub fn format_report(input: Vec<Diagnostic>, colorize: bool) -> (r: Report)
    ensures
        r.problems == input@.len(),
        r.exit_code == status_for(input@.len()),
        input@.len() == 0 ==> r.lines@.len() == 0 && r.text@.len() == 0,
        input@.len() > 0 ==> exists|gs: Seq<FileGroupView>|
            {
                &&& is_grouping_of(gs, views(input@))
                &&& total_records(gs) == input@.len()
                &&& line_views(r.lines@) == report_lines(gs)
            },
        entry_count(line_views(r.lines@)) == input@.len(),
        !colorize ==> r.text@ == lines_text(line_views(r.lines@)),
        !colorize && (forall|k: int|
            0 <= k < input@.len() ==> record_free_of_escape(#[trigger] views(input@)[k]))
            ==> free_of_escape(r.text@),
{
    let n = input.len();
    if n == 0 {
        let lines: Vec<ReportLine> = Vec::new();
        assert(line_views(lines@) =~= Seq::<LineView>::empty());
        assert(line_views(lines@).filter(|l: LineView| is_entry(l)) =~= Seq::<LineView>::empty());
        return Report { lines, text: String::new(), problems: 0, exit_code: 0 };
    }
    let ghost iv = views(input@);
    let groups = group_by_file(input);
    let ghost gs = group_views(groups@);
    let lines = build_lines(groups);
    proof {
        lemma_one_entry_per_record(gs);
    }
    let text = render_lines(&lines, colorize);
    proof {
        if forall|k: int| 0 <= k < iv.len() ==> record_free_of_escape(#[trigger] iv[k]) {
            lemma_grouping_free_of_escape(gs, iv);
            lemma_plain_report_unstyled(gs);
        }
    }
    Report { lines, text, problems: n, exit_code: exit_status(n) }
}

/// Groups drawn from records without escape characters hold none either.
proof fn lemma_grouping_free_of_escape(gs: Seq<FileGroupView>, input: Seq<DiagnosticView>)
    requires
        is_grouping_of(gs, input),
        forall|k: int| 0 <= k < input.len() ==> record_free_of_escape(#[trigger] input[k]),
    ensures
        groups_free_of_escape(gs),
{
    assert forall|i: int, j: int|
        0 <= i < gs.len() && 0 <= j < gs[i].records.len() implies record_free_of_escape(
        #[trigger] gs[i].records[j],
    ) && gs[i].records[j].file == gs[i].path by {
        let pred = |d: DiagnosticView| d.file == gs[i].path;
        assert(gs[i].records == input.filter(pred));
        input.lemma_filter_pred(pred, j);
        let e = input.filter(pred)[j];
        assert(input.filter(pred).contains(e));
        input.lemma_filter_contains_rev(pred, e);
        let k = choose|k: int| 0 <= k < input.len() && input[k] == e;
        assert(record_free_of_escape(input[k]));
    }
    assert forall|i: int| 0 <= i < gs.len() implies free_of_escape(#[trigger] gs[i].path) by {
        assert(gs[i].records.len() > 0);
        assert(gs[i].records[0].file == gs[i].path);
    }
}

proof fn lemma_records_entries(rs: Seq<crate::diagnostic::DiagnosticView>)
    ensures
        entry_count(records_lines(rs)) == rs.len(),
    decreases rs.len(),
{
    let f = |l: LineView| is_entry(l);
    if rs.len() == 0 {
        assert(records_lines(rs).filter(f) =~= Seq::<LineView>::empty());
    } else {
        lemma_records_entries(rs.drop_last());
        let d = rs.last();
        Seq::filter_distributes_over_add(records_lines(rs.drop_last()), record_lines(d), f);
        let tail = record_lines(d);
        match d.rule_id {
            Some(id) => {
                assert(tail =~= seq![LineView::Entry(d)].push(LineView::Rule(id)));
                Seq::<LineView>::empty().lemma_filter_push(LineView::Entry(d), f);
                seq![LineView::Entry(d)].lemma_filter_push(LineView::Rule(id), f);
                assert(Seq::<LineView>::empty().filter(f) =~= Seq::<LineView>::empty());
                assert(Seq::<LineView>::empty().push(LineView::Entry(d)) =~= seq![LineView::Entry(d)]);
            },
            None => {
                Seq::<LineView>::empty().lemma_filter_push(LineView::Entry(d), f);
                assert(Seq::<LineView>::empty().filter(f) =~= Seq::<LineView>::empty());
                assert(Seq::<LineView>::empty().push(LineView::Entry(d)) =~= tail);
            },
        }
    }
}

proof fn lemma_groups_entries(gs: Seq<FileGroupView>)
    ensures
        entry_count(groups_lines(gs)) == total_records(gs),
    decreases gs.len(),
{
    let f = |l: LineView| is_entry(l);
    if gs.len() == 0 {
        assert(groups_lines(gs).filter(f) =~= Seq::<LineView>::empty());
    } else {
        let g = gs.last();
        lemma_groups_entries(gs.drop_last());
        lemma_records_entries(g.records);
        let head = seq![LineView::Header(g.path)];
        let blank = seq![LineView::Blank];
        Seq::filter_distributes_over_add(groups_lines(gs.drop_last()), group_lines(g), f);
        Seq::filter_distributes_over_add(head + records_lines(g.records), blank, f);
        Seq::filter_distributes_over_add(head, records_lines(g.records), f);
        Seq::<LineView>::empty().lemma_filter_push(LineView::Header(g.path), f);
        Seq::<LineView>::empty().lemma_filter_push(LineView::Blank, f);
        assert(Seq::<LineView>::empty().filter(f) =~= Seq::<LineView>::empty());
        assert(Seq::<LineView>::empty().push(LineView::Header(g.path)) =~= head);
        assert(Seq::<LineView>::empty().push(LineView::Blank) =~= blank);
    }
}

/// A report has exactly one primary line per record: grouping and rendering
/// neither drop nor duplicate a record.
pub proof fn lemma_one_entry_per_record(gs: Seq<FileGroupView>)
    ensures
        entry_count(report_lines(gs)) == total_records(gs),
{
    let f = |l: LineView| is_entry(l);
    lemma_groups_entries(gs);
    let last = seq![LineView::Summary(total_records(gs))];
    Seq::filter_distributes_over_add(groups_lines(gs), last, f);
    Seq::<LineView>::empty().lemma_filter_push(LineView::Summary(total_records(gs)), f);
    assert(Seq::<LineView>::empty().filter(f) =~= Seq::<LineView>::empty());
    assert(Seq::<LineView>::empty().push(LineView::Summary(total_records(gs))) =~= last);
}

} // verus!

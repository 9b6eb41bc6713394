use vstd::prelude::*;
use crate::diagnostic::{Diagnostic, DiagnosticView};
use crate::group::{FileGroup, FileGroupView, group_views, path_lt, paths_ascending, total_records};
use crate::severity::Severity;
use crate::style::{Tone, paint};
use crate::text::{decimal, decimal_text, strip_trailing_periods, without_trailing_periods};

verus! {

/// One line of the report, before styling.
pub enum ReportLine {
    /// The path that heads a file's group.
    Header(String),
    /// The primary line of one record.
    Entry(Diagnostic),
    /// The rule annotation beneath a record's primary line.
    Rule(String),
    /// The separator after a group.
    Blank,
    /// The closing count of problems.
    Summary(usize),
}

/// The mathematical value of a [`ReportLine`].
pub enum LineView {
    Header(Seq<char>),
    Entry(DiagnosticView),
    Rule(Seq<char>),
    Blank,
    Summary(nat),
}

impl View for ReportLine {
    type V = LineView;

    open spec fn view(&self) -> LineView {
        match self {
            ReportLine::Header(p) => LineView::Header(p@),
            ReportLine::Entry(d) => LineView::Entry(d@),
            ReportLine::Rule(r) => LineView::Rule(r@),
            ReportLine::Blank => LineView::Blank,
            ReportLine::Summary(n) => LineView::Summary(*n as nat),
        }
    }
}

/// The views of a sequence of lines.
pub open spec fn line_views(s: Seq<ReportLine>) -> Seq<LineView> {
    s.map_values(|l: ReportLine| l@)
}

/// The lines of one record: its primary line, then its rule if it has one.
pub open spec fn record_lines(d: DiagnosticView) -> Seq<LineView> {
    match d.rule_id {
        Some(id) => seq![LineView::Entry(d), LineView::Rule(id)],
        None => seq![LineView::Entry(d)],
    }
}

/// The lines of a file's records, in their order.
pub open spec fn records_lines(rs: Seq<DiagnosticView>) -> Seq<LineView>
    decreases rs.len(),
{
    if rs.len() == 0 {
        Seq::empty()
    } else {
        records_lines(rs.drop_last()) + record_lines(rs.last())
    }
}

/// The lines of one group: header, records, separator.
pub open spec fn group_lines(g: FileGroupView) -> Seq<LineView> {
    seq![LineView::Header(g.path)] + records_lines(g.records) + seq![LineView::Blank]
}

/// The lines of all groups, in their order.
pub open spec fn groups_lines(gs: Seq<FileGroupView>) -> Seq<LineView>
    decreases gs.len(),
{
    if gs.len() == 0 {
        Seq::empty()
    } else {
        groups_lines(gs.drop_last()) + group_lines(gs.last())
    }
}

/// The whole report: the groups, then the summary of all their records.
pub open spec fn report_lines(gs: Seq<FileGroupView>) -> Seq<LineView> {
    groups_lines(gs) + seq![LineView::Summary(total_records(gs))]
}

/// Whether a line is the primary line of a record.
pub open spec fn is_entry(l: LineView) -> bool {
    l is Entry
}

/// The number of primary lines.
pub open spec fn entry_count(ls: Seq<LineView>) -> nat {
    ls.filter(|l: LineView| is_entry(l)).len()
}

/// Splits the groups into report lines, closing with the summary.
pub fn build_lines(groups: Vec<FileGroup>) -> (r: Vec<ReportLine>)
    requires
        total_records(group_views(groups@)) <= usize::MAX,
    ensures
        line_views(r@) == report_lines(group_views(groups@)),
{
    let ghost all = group_views(groups@);
    let mut rest = groups;
    let mut out: Vec<ReportLine> = Vec::new();
    let mut count: usize = 0;
    let ghost mut i: int = 0;
    assert(group_views(rest@) =~= all.skip(0));
    assert(line_views(out@) =~= groups_lines(all.take(0)));
    while rest.len() > 0
        invariant
            0 <= i <= all.len(),
            group_views(rest@) == all.skip(i),
            line_views(out@) == groups_lines(all.take(i)),
            count == total_records(all.take(i)),
            total_records(all) <= usize::MAX,
        decreases rest@.len(),
    {
        let ghost before = rest@;
        let g = rest.remove(0);
        proof {
            assert(group_views(before).len() == before.len());
            assert(group_views(before)[0] == before[0]@);
            assert(all.skip(i)[0] == all[i]);
            assert(group_views(rest@) =~= group_views(before).skip(1));
            assert(group_views(rest@) =~= all.skip(i + 1));
            assert(all.take(i + 1).drop_last() =~= all.take(i));
            lemma_total_prefix(all, i + 1);
        }
        let ghost gv = g@;
        let ghost start = line_views(out@);
        out.push(ReportLine::Header(g.path));
        let mut records = g.records;
        let ghost mut j: int = 0;
        let ghost c0 = count as int;
        assert(all.take(i + 1).last() == gv);
        assert(line_views(out@) =~= start + seq![LineView::Header(gv.path)] + records_lines(
            gv.records.take(0),
        ));
        while records.len() > 0
            invariant
                0 <= j <= gv.records.len(),
                crate::diagnostic::views(records@) == gv.records.skip(j),
                line_views(out@) == start + seq![LineView::Header(gv.path)] + records_lines(
                    gv.records.take(j),
                ),
                count == c0 + j,
                c0 + gv.records.len() <= usize::MAX,
            decreases records@.len(),
        {
            let ghost rbefore = records@;
            let d = records.remove(0);
            proof {
                assert(crate::diagnostic::views(rbefore).len() == rbefore.len());
                assert(crate::diagnostic::views(rbefore)[0] == rbefore[0]@);
                assert(crate::diagnostic::views(records@) =~= crate::diagnostic::views(
                    rbefore,
                ).skip(1));
                assert(gv.records.skip(j)[0] == gv.records[j]);
                assert(crate::diagnostic::views(records@) =~= gv.records.skip(j + 1));
                assert(gv.records.take(j + 1).drop_last() =~= gv.records.take(j));
            }
            let rule = match &d.rule_id {
                Some(id) => Some(id.clone()),
                None => None,
            };
            let ghost dv = d@;
            let ghost mid = line_views(out@);
            out.push(ReportLine::Entry(d));
            match rule {
                Some(id) => {
                    out.push(ReportLine::Rule(id));
                },
                None => {},
            }
            assert(line_views(out@) =~= mid + record_lines(dv));
            count = count + 1;
            proof {
                j = j + 1;
            }
        }
        assert(gv.records.take(j) =~= gv.records);
        let ghost filled = line_views(out@);
        assert(filled == start + seq![LineView::Header(gv.path)] + records_lines(gv.records));
        out.push(ReportLine::Blank);
        assert(line_views(out@) =~= filled.push(LineView::Blank));
        assert(groups_lines(all.take(i + 1)) == groups_lines(all.take(i)) + group_lines(gv));
        assert(line_views(out@) =~= start + group_lines(gv));
        proof {
            i = i + 1;
        }
    }
    assert(all.take(i) =~= all);
    let ghost body = line_views(out@);
    out.push(ReportLine::Summary(count));
    assert(line_views(out@) =~= body.push(LineView::Summary(count as nat)));
    assert(line_views(out@) =~= report_lines(all));
    out
}

proof fn lemma_total_prefix(gs: Seq<FileGroupView>, n: int)
    requires
        0 <= n <= gs.len(),
    ensures
        total_records(gs.take(n)) <= total_records(gs),
    decreases gs.len(),
{
    if n < gs.len() {
        assert(gs.drop_last().take(n) =~= gs.take(n));
        lemma_total_prefix(gs.drop_last(), n);
    } else {
        assert(gs.take(n) =~= gs);
    }
}

/// The line number shown for a record: absent lines show as 1.
pub open spec fn shown_line(d: DiagnosticView) -> nat {
    match d.line {
        Some(l) => l as nat,
        None => 1,
    }
}

/// The location of a record: its line, then its column when it has one.
pub open spec fn location(d: DiagnosticView) -> Seq<char> {
    match d.column {
        Some(c) => decimal(shown_line(d)) + seq![':'] + decimal(c as nat),
        None => decimal(shown_line(d)),
    }
}

/// The plain text of one line, newline included.
pub open spec fn line_text(l: LineView) -> Seq<char> {
    match l {
        LineView::Header(p) => p + seq!['\n'],
        LineView::Entry(d) => seq![' ', ' ', ' ', ' '] + d.file + seq![':'] + location(d) + seq![
            ' ',
            ' ',
        ] + d.severity.spec_word() + seq![' ', ' '] + without_trailing_periods(d.message) + seq![
            '\n',
        ],
        LineView::Rule(id) => seq![' ', ' ', ' ', ' ', ' ', 'r', 'u', 'l', 'e', ':', ' '] + id
            + seq!['\n'],
        LineView::Blank => seq!['\n'],
        LineView::Summary(n) => seq!['\u{2716}', ' '] + decimal(n) + seq![
            ' ',
            'p',
            'r',
            'o',
            'b',
            'l',
            'e',
            'm',
        ] + (if n == 1 {
            Seq::<char>::empty()
        } else {
            seq!['s']
        }) + seq!['\n'],
    }
}

/// The plain text of a sequence of lines.
pub open spec fn lines_text(ls: Seq<LineView>) -> Seq<char>
    decreases ls.len(),
{
    if ls.len() == 0 {
        Seq::empty()
    } else {
        lines_text(ls.drop_last()) + line_text(ls.last())
    }
}

/// Renders one line. Without the terminal capability the text is exactly the
/// line's plain text.
pub fn render_line(line: &ReportLine, colorize: bool) -> (r: String)
    ensures
        !colorize ==> r@ == line_text(line@),
{
    proof {
        reveal_strlit("\n");
        reveal_strlit("  ");
        reveal_strlit(" ");
        reveal_strlit(":");
    }
    match line {
        ReportLine::Header(p) => {
            let mut r = paint(p.as_str(), Tone::Underline, colorize);
            r.append("\n");
            r
        },
        ReportLine::Entry(d) => {
            let shown: usize = match d.line {
                Some(l) => l,
                None => 1,
            };
            let mut loc = decimal_text(shown);
            match d.column {
                Some(c) => {
                    loc.append(":");
                    let cs = decimal_text(c);
                    loc.append(cs.as_str());
                },
                None => {},
            }
            let tone = match d.severity {
                Severity::Warning => Tone::Warning,
                Severity::Error => Tone::Error,
            };
            let mut r = "  ".to_owned();
            r.append(paint(" ", Tone::Dim, colorize).as_str());
            r.append(" ");
            r.append(paint(d.file.as_str(), Tone::Dim, colorize).as_str());
            r.append(":");
            r.append(paint(loc.as_str(), Tone::Dim, colorize).as_str());
            r.append("  ");
            r.append(paint(d.severity.word(), tone, colorize).as_str());
            r.append("  ");
            r.append(strip_trailing_periods(d.message.as_str()).as_str());
            r.append("\n");
            assert(!colorize ==> r@ =~= line_text(line@));
            r
        },
        ReportLine::Rule(id) => {
            proof {
                reveal_strlit("     ");
                reveal_strlit("rule:");
            }
            let mut r = "     ".to_owned();
            r.append(paint("rule:", Tone::Dim, colorize).as_str());
            r.append(" ");
            r.append(paint(id.as_str(), Tone::Dim, colorize).as_str());
            r.append("\n");
            assert(!colorize ==> r@ =~= line_text(line@));
            r
        },
        ReportLine::Blank => {
            let r = "\n".to_owned();
            assert(r@ =~= line_text(line@));
            r
        },
        ReportLine::Summary(n) => {
            proof {
                reveal_strlit("\u{2716}");
                reveal_strlit(" problem");
                reveal_strlit("s");
            }
            let mut r = paint("\u{2716}", Tone::Marker, colorize);
            r.append(" ");
            let ns = decimal_text(*n);
            r.append(ns.as_str());
            r.append(" problem");
            if *n != 1 {
                r.append("s");
            }
            r.append("\n");
            assert(!colorize ==> r@ =~= line_text(line@));
            r
        },
    }
}

/// Renders the lines into one text. Without the terminal capability the text
/// is exactly the lines' plain text, free of any control sequence of styling.
pub fn render_lines(lines: &Vec<ReportLine>, colorize: bool) -> (r: String)
    ensures
        !colorize ==> r@ == lines_text(line_views(lines@)),
{
    let ghost all = line_views(lines@);
    let mut r = String::new();
    let mut i: usize = 0;
    assert(all.take(0) =~= Seq::<LineView>::empty());
    while i < lines.len()
        invariant
            i <= lines@.len(),
            all == line_views(lines@),
            !colorize ==> r@ == lines_text(all.take(i as int)),
        decreases lines@.len() - i,
    {
        let piece = render_line(&lines[i], colorize);
        r.append(piece.as_str());
        assert(all.take(i + 1).drop_last() =~= all.take(i as int));
        i = i + 1;
    }
    assert(all.take(i as int) =~= all);
    r
}

/// A text without the escape character that starts every styling sequence.
pub open spec fn free_of_escape(s: Seq<char>) -> bool {
    forall|i: int| 0 <= i < s.len() ==> s[i] != '\u{1b}'
}

/// A record whose own texts hold no escape character.
pub open spec fn record_free_of_escape(d: DiagnosticView) -> bool {
    &&& free_of_escape(d.file)
    &&& free_of_escape(d.message)
    &&& match d.rule_id {
        Some(id) => free_of_escape(id),
        None => true,
    }
}

/// Groups whose paths and records hold no escape character.
pub open spec fn groups_free_of_escape(gs: Seq<FileGroupView>) -> bool {
    &&& forall|i: int| 0 <= i < gs.len() ==> free_of_escape(#[trigger] gs[i].path)
    &&& forall|i: int, j: int|
        0 <= i < gs.len() && 0 <= j < gs[i].records.len() ==> record_free_of_escape(
            #[trigger] gs[i].records[j],
        )
}

proof fn lemma_decimal_free(n: nat)
    ensures
        free_of_escape(decimal(n)),
    decreases n,
{
    if n >= 10 {
        lemma_decimal_free(n / 10);
    }
}

proof fn lemma_stripped_free(s: Seq<char>)
    requires
        free_of_escape(s),
    ensures
        free_of_escape(without_trailing_periods(s)),
    decreases s.len(),
{
    if s.len() > 0 && s.last() == '.' {
        lemma_stripped_free(s.drop_last());
    }
}

proof fn lemma_line_free(l: LineView)
    requires
        match l {
            LineView::Header(p) => free_of_escape(p),
            LineView::Entry(d) => record_free_of_escape(d),
            LineView::Rule(id) => free_of_escape(id),
            _ => true,
        },
    ensures
        free_of_escape(line_text(l)),
{
    match l {
        LineView::Entry(d) => {
            lemma_decimal_free(shown_line(d));
            match d.column {
                Some(c) => lemma_decimal_free(c as nat),
                None => {},
            }
            lemma_stripped_free(d.message);
        },
        LineView::Summary(n) => {
            lemma_decimal_free(n);
        },
        _ => {},
    }
}

/// Whether every line of `ls` renders without an escape character.
pub open spec fn lines_free_of_escape(ls: Seq<LineView>) -> bool {
    forall|i: int| 0 <= i < ls.len() ==> free_of_escape(line_text(#[trigger] ls[i]))
}

proof fn lemma_lines_text_free(ls: Seq<LineView>)
    requires
        lines_free_of_escape(ls),
    ensures
        free_of_escape(lines_text(ls)),
    decreases ls.len(),
{
    if ls.len() > 0 {
        lemma_lines_text_free(ls.drop_last());
        assert(free_of_escape(line_text(ls[ls.len() - 1])));
    }
}

proof fn lemma_records_lines_free(rs: Seq<DiagnosticView>)
    requires
        forall|j: int| 0 <= j < rs.len() ==> record_free_of_escape(#[trigger] rs[j]),
    ensures
        lines_free_of_escape(records_lines(rs)),
    decreases rs.len(),
{
    if rs.len() > 0 {
        let d = rs.last();
        lemma_records_lines_free(rs.drop_last());
        lemma_line_free(LineView::Entry(d));
        match d.rule_id {
            Some(id) => lemma_line_free(LineView::Rule(id)),
            None => {},
        }
        let a = records_lines(rs.drop_last());
        let b = record_lines(d);
        assert forall|i: int| 0 <= i < (a + b).len() implies free_of_escape(
            line_text(#[trigger] (a + b)[i]),
        ) by {
            if i >= a.len() {
                assert((a + b)[i] == b[i - a.len()]);
            }
        }
    }
}

proof fn lemma_groups_lines_free(gs: Seq<FileGroupView>)
    requires
        groups_free_of_escape(gs),
    ensures
        lines_free_of_escape(groups_lines(gs)),
    decreases gs.len(),
{
    if gs.len() > 0 {
        let g = gs.last();
        let k = gs.len() - 1;
        assert(gs.drop_last().len() == k);
        let rest = gs.drop_last();
        assert(groups_free_of_escape(rest)) by {
            assert forall|i: int| 0 <= i < rest.len() implies free_of_escape(
                #[trigger] rest[i].path,
            ) by {
                assert(rest[i] == gs[i]);
            }
            assert forall|i: int, j: int|
                0 <= i < rest.len() && 0 <= j < rest[i].records.len() implies record_free_of_escape(
                #[trigger] rest[i].records[j],
            ) by {
                assert(rest[i] == gs[i]);
                assert(gs[i].records[j] == rest[i].records[j]);
            }
        }
        lemma_groups_lines_free(gs.drop_last());
        assert(free_of_escape(gs[k].path));
        assert forall|j: int| 0 <= j < g.records.len() implies record_free_of_escape(
            #[trigger] g.records[j],
        ) by {
            assert(gs[k].records[j] == g.records[j]);
        }
        lemma_records_lines_free(g.records);
        lemma_line_free(LineView::Header(g.path));
        lemma_line_free(LineView::Blank);
        let a = groups_lines(gs.drop_last());
        let h = seq![LineView::Header(g.path)];
        let m = records_lines(g.records);
        let b = seq![LineView::Blank];
        assert(groups_lines(gs) == a + (h + m + b));
        assert forall|i: int| 0 <= i < (a + (h + m + b)).len() implies free_of_escape(
            line_text(#[trigger] (a + (h + m + b))[i]),
        ) by {
            if i >= a.len() {
                let t = i - a.len();
                assert((a + (h + m + b))[i] == (h + m + b)[t]);
                if t == 0 {
                } else if t <= m.len() {
                    assert((h + m + b)[t] == m[t - 1]);
                } else {
                    assert((h + m + b)[t] == b[0]);
                }
            }
        }
    }
}

/// Without the terminal capability, the report adds no styling sequence:
/// when the paths and records hold no escape character, neither does the
/// plain text of the report.
pub proof fn lemma_plain_report_unstyled(gs: Seq<FileGroupView>)
    requires
        groups_free_of_escape(gs),
    ensures
        free_of_escape(lines_text(report_lines(gs))),
{
    lemma_groups_lines_free(gs);
    lemma_line_free(LineView::Summary(total_records(gs)));
    let a = groups_lines(gs);
    let b = seq![LineView::Summary(total_records(gs))];
    assert forall|i: int| 0 <= i < (a + b).len() implies free_of_escape(
        line_text(#[trigger] (a + b)[i]),
    ) by {
        if i >= a.len() {
            assert((a + b)[i] == b[0]);
        }
    }
    lemma_lines_text_free(report_lines(gs));
}

/// The report closes with a summary that counts every record of every group,
/// and its noun is plural unless that count is exactly one.
pub proof fn lemma_summary_counts_all(gs: Seq<FileGroupView>)
    ensures
        report_lines(gs).last() == LineView::Summary(total_records(gs)),
        ({
            let t = line_text(LineView::Summary(total_records(gs)));
            (t[t.len() - 2] == 's') <==> total_records(gs) != 1
        }),
{
    let n = total_records(gs);
    let t = line_text(LineView::Summary(n));
    assert(decimal(n).len() > 0);
    if n == 1 {
        assert(decimal(n) =~= seq!['1']);
        assert(t[t.len() - 2] == 'm');
    }
}

proof fn lemma_records_lines_headerless(rs: Seq<DiagnosticView>)
    ensures
        forall|i: int| 0 <= i < records_lines(rs).len() ==> !(#[trigger] records_lines(rs)[i] is Header),
    decreases rs.len(),
{
    if rs.len() > 0 {
        lemma_records_lines_headerless(rs.drop_last());
        let a = records_lines(rs.drop_last());
        let b = record_lines(rs.last());
        assert forall|i: int| 0 <= i < (a + b).len() implies !(#[trigger] (a + b)[i] is Header) by {
            if i >= a.len() {
                assert((a + b)[i] == b[i - a.len()]);
            } else {
                assert((a + b)[i] == a[i]);
            }
        }
    }
}

proof fn lemma_headers_name_groups(gs: Seq<FileGroupView>)
    ensures
        forall|i: int|
            0 <= i < groups_lines(gs).len() && (#[trigger] groups_lines(gs)[i] is Header) ==> exists|
                k: int,
            |
                0 <= k < gs.len() && #[trigger] gs[k].path == groups_lines(gs)[i]->Header_0,
    decreases gs.len(),
{
    if gs.len() > 0 {
        let rest = gs.drop_last();
        let g = gs.last();
        lemma_headers_name_groups(rest);
        lemma_records_lines_headerless(g.records);
        let a = groups_lines(rest);
        let h = seq![LineView::Header(g.path)];
        let m = records_lines(g.records);
        let b = seq![LineView::Blank];
        assert(groups_lines(gs) == a + (h + m + b));
        assert forall|i: int|
            0 <= i < (a + (h + m + b)).len() && (#[trigger] (a + (h + m + b))[i] is Header) implies exists|
                k: int,
            | 0 <= k < gs.len() && #[trigger] gs[k].path == (a + (h + m + b))[i]->Header_0 by {
            if i < a.len() {
                assert((a + (h + m + b))[i] == a[i]);
                let k = choose|k: int| 0 <= k < rest.len() && #[trigger] rest[k].path == a[i]->Header_0;
                assert(gs[k] == rest[k]);
            } else {
                let t = i - a.len();
                assert((a + (h + m + b))[i] == (h + m + b)[t]);
                if t == 0 {
                    assert(gs[gs.len() - 1].path == g.path);
                } else if t <= m.len() {
                    assert((h + m + b)[t] == m[t - 1]);
                } else {
                    assert((h + m + b)[t] == b[0]);
                }
            }
        }
    }
}

proof fn lemma_groups_headers_ascend(gs: Seq<FileGroupView>)
    requires
        paths_ascending(gs),
    ensures
        forall|i: int, j: int|
            0 <= i < j < groups_lines(gs).len() && (#[trigger] groups_lines(gs)[i] is Header)
                && (#[trigger] groups_lines(gs)[j] is Header) ==> path_lt(
                groups_lines(gs)[i]->Header_0,
                groups_lines(gs)[j]->Header_0,
            ),
    decreases gs.len(),
{
    if gs.len() > 0 {
        let rest = gs.drop_last();
        let g = gs.last();
        assert(paths_ascending(rest)) by {
            assert forall|i: int, j: int| 0 <= i < j < rest.len() implies path_lt(
                #[trigger] rest[i].path,
                #[trigger] rest[j].path,
            ) by {
                assert(rest[i] == gs[i] && rest[j] == gs[j]);
            }
        }
        lemma_groups_headers_ascend(rest);
        lemma_headers_name_groups(rest);
        lemma_records_lines_headerless(g.records);
        let a = groups_lines(rest);
        let h = seq![LineView::Header(g.path)];
        let m = records_lines(g.records);
        let b = seq![LineView::Blank];
        let all = a + (h + m + b);
        assert(groups_lines(gs) == all);
        assert forall|i: int, j: int|
            0 <= i < j < all.len() && (#[trigger] all[i] is Header) && (#[trigger] all[j] is Header) implies path_lt(
            all[i]->Header_0,
            all[j]->Header_0,
        ) by {
            if j < a.len() {
                assert(all[i] == a[i] && all[j] == a[j]);
            } else {
                let t = j - a.len();
                assert(all[j] == (h + m + b)[t]);
                if t == 0 {
                    if i < a.len() {
                        assert(all[i] == a[i]);
                        let k = choose|k: int| 0 <= k < rest.len() && #[trigger] rest[k].path == a[i]->Header_0;
                        assert(gs[k] == rest[k]);
                        assert(path_lt(gs[k].path, gs[gs.len() - 1].path));
                    }
                } else if t <= m.len() {
                    assert((h + m + b)[t] == m[t - 1]);
                } else {
                    assert((h + m + b)[t] == b[0]);
                }
            }
        }
    }
}

/// File groups appear in the report in ascending byte order of their paths:
/// of two header lines, the earlier names the smaller path.
pub proof fn lemma_headers_ascend(gs: Seq<FileGroupView>)
    requires
        paths_ascending(gs),
    ensures
        forall|i: int, j: int|
            0 <= i < j < report_lines(gs).len() && (#[trigger] report_lines(gs)[i] is Header)
                && (#[trigger] report_lines(gs)[j] is Header) ==> path_lt(
                report_lines(gs)[i]->Header_0,
                report_lines(gs)[j]->Header_0,
            ),
{
    lemma_groups_headers_ascend(gs);
    let a = groups_lines(gs);
    let b = seq![LineView::Summary(total_records(gs))];
    assert forall|i: int, j: int|
        0 <= i < j < (a + b).len() && (#[trigger] (a + b)[i] is Header) && (#[trigger] (a
            + b)[j] is Header) implies path_lt((a + b)[i]->Header_0, (a + b)[j]->Header_0) by {
        if j >= a.len() {
            assert((a + b)[j] == b[0]);
        } else {
            assert((a + b)[i] == a[i] && (a + b)[j] == a[j]);
        }
    }
}

} // verus!

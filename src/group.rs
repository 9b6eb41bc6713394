use vstd::prelude::*;
use crate::diagnostic::{Diagnostic, DiagnosticView, views};

verus! {

/// Byte-lexicographic order of paths. UTF-8 keeps the order of code points,
/// so comparing code points one by one orders the encoded bytes too.
pub open spec fn path_lt(a: Seq<char>, b: Seq<char>) -> bool
    decreases a.len(),
{
    if a.len() == 0 {
        b.len() > 0
    } else if b.len() == 0 {
        false
    } else if a[0] != b[0] {
        (a[0] as int) < (b[0] as int)
    } else {
        path_lt(a.drop_first(), b.drop_first())
    }
}

/// No path precedes itself.
pub proof fn lemma_path_lt_irreflexive(a: Seq<char>)
    ensures
        !path_lt(a, a),
    decreases a.len(),
{
    if a.len() > 0 {
        lemma_path_lt_irreflexive(a.drop_first());
    }
}

/// Of two different paths, one precedes the other.
pub proof fn lemma_path_lt_total(a: Seq<char>, b: Seq<char>)
    requires
        a != b,
    ensures
        path_lt(a, b) || path_lt(b, a),
    decreases a.len(),
{
    if a.len() > 0 && b.len() > 0 && a[0] == b[0] {
        if a.drop_first() == b.drop_first() {
            assert(a =~= seq![a[0]] + a.drop_first());
            assert(b =~= seq![b[0]] + b.drop_first());
        }
        lemma_path_lt_total(a.drop_first(), b.drop_first());
    } else if a.len() == 0 && b.len() == 0 {
        assert(a =~= b);
    } else if a.len() > 0 && b.len() > 0 {
        let (x, y) = (a[0] as int, b[0] as int);
        assert(x != y);
    }
}

/// The order is strict: two paths do not precede each other.
pub proof fn lemma_path_lt_asymmetric(a: Seq<char>, b: Seq<char>)
    requires
        path_lt(a, b),
    ensures
        !path_lt(b, a),
    decreases a.len(),
{
    if a.len() > 0 && b.len() > 0 && a[0] == b[0] {
        lemma_path_lt_asymmetric(a.drop_first(), b.drop_first());
    }
}

/// The order is transitive.
pub proof fn lemma_path_lt_transitive(a: Seq<char>, b: Seq<char>, c: Seq<char>)
    requires
        path_lt(a, b),
        path_lt(b, c),
    ensures
        path_lt(a, c),
    decreases a.len(),
{
    if a.len() > 0 && b.len() > 0 && c.len() > 0 && a[0] == b[0] && b[0] == c[0] {
        lemma_path_lt_transitive(a.drop_first(), b.drop_first(), c.drop_first());
    }
}

/// Tells whether path `a` comes before path `b` in byte order.
pub fn path_precedes(a: &str, b: &str) -> (r: bool)
    ensures
        r == path_lt(a@, b@),
{
    let n = a.unicode_len();
    let m = b.unicode_len();
    let mut i: usize = 0;
    assert(a@.skip(0) =~= a@);
    assert(b@.skip(0) =~= b@);
    while i < n && i < m
        invariant
            n == a@.len(),
            m == b@.len(),
            i <= n,
            i <= m,
            path_lt(a@.skip(i as int), b@.skip(i as int)) == path_lt(a@, b@),
        decreases n - i,
    {
        let x = a.get_char(i);
        let y = b.get_char(i);
        if x != y {
            return (x as u32) < (y as u32);
        }
        assert(a@.skip(i as int).drop_first() =~= a@.skip(i + 1));
        assert(b@.skip(i as int).drop_first() =~= b@.skip(i + 1));
        i = i + 1;
    }
    i < m
}

/// The records of one file, in the order in which they arrived.
pub struct FileGroup {
    pub path: String,
    pub records: Vec<Diagnostic>,
}

/// The mathematical value of a [`FileGroup`].
pub struct FileGroupView {
    pub path: Seq<char>,
    pub records: Seq<DiagnosticView>,
}

impl View for FileGroup {
    type V = FileGroupView;

    open spec fn view(&self) -> FileGroupView {
        FileGroupView { path: self.path@, records: views(self.records@) }
    }
}

/// The views of a sequence of groups.
pub open spec fn group_views(s: Seq<FileGroup>) -> Seq<FileGroupView> {
    s.map_values(|g: FileGroup| g@)
}

/// The records of `input` that name the file `path`, in input order.
pub open spec fn records_for(input: Seq<DiagnosticView>, path: Seq<char>) -> Seq<DiagnosticView> {
    input.filter(|d: DiagnosticView| d.file == path)
}

/// Whether some group holds the file `path`.
pub open spec fn has_group(groups: Seq<FileGroupView>, path: Seq<char>) -> bool {
    exists|i: int| 0 <= i < groups.len() && #[trigger] groups[i].path == path
}

/// Groups strictly ascending by path, so no path occurs twice.
pub open spec fn paths_ascending(groups: Seq<FileGroupView>) -> bool {
    forall|i: int, j: int|
        0 <= i < j < groups.len() ==> path_lt(#[trigger] groups[i].path, #[trigger] groups[j].path)
}

/// `groups` partitions `input` by file: one group per file that occurs,
/// ascending by path, each holding exactly that file's records in input order.
pub open spec fn is_grouping_of(groups: Seq<FileGroupView>, input: Seq<DiagnosticView>) -> bool {
    &&& paths_ascending(groups)
    &&& forall|i: int|
        0 <= i < groups.len() ==> #[trigger] groups[i].records == records_for(input, groups[i].path)
    &&& forall|i: int| 0 <= i < groups.len() ==> (#[trigger] groups[i].records).len() > 0
    &&& forall|k: int| 0 <= k < input.len() ==> has_group(groups, #[trigger] input[k].file)
}

/// The number of records over all groups.
pub open spec fn total_records(groups: Seq<FileGroupView>) -> nat
    decreases groups.len(),
{
    if groups.len() == 0 {
        0
    } else {
        total_records(groups.drop_last()) + groups.last().records.len()
    }
}

proof fn lemma_total_update(gs: Seq<FileGroupView>, j: int, g: FileGroupView)
    requires
        0 <= j < gs.len(),
    ensures
        total_records(gs.update(j, g)) + gs[j].records.len() == total_records(gs)
            + g.records.len(),
    decreases gs.len(),
{
    if j == gs.len() - 1 {
        assert(gs.update(j, g).drop_last() =~= gs.drop_last());
    } else {
        assert(gs.update(j, g).drop_last() =~= gs.drop_last().update(j, g));
        lemma_total_update(gs.drop_last(), j, g);
    }
}

proof fn lemma_total_insert(gs: Seq<FileGroupView>, j: int, g: FileGroupView)
    requires
        0 <= j <= gs.len(),
    ensures
        total_records(gs.insert(j, g)) == total_records(gs) + g.records.len(),
    decreases gs.len(),
{
    if j == gs.len() {
        assert(gs.insert(j, g).drop_last() =~= gs);
    } else {
        assert(gs.insert(j, g).drop_last() =~= gs.drop_last().insert(j, g));
        lemma_total_insert(gs.drop_last(), j, g);
    }
}

/// Finds the group of `path`, or the place where a new one keeps the order.
fn locate(groups: &Vec<FileGroup>, path: &String) -> (r: (bool, usize))
    requires
        paths_ascending(group_views(groups@)),
    ensures
        r.1 <= groups@.len(),
        r.0 ==> r.1 < groups@.len() && groups@[r.1 as int].path@ == path@,
        !r.0 ==> forall|i: int|
            0 <= i < groups@.len() ==> (i < r.1 ==> path_lt(groups@[i].path@, path@)) && (r.1
                <= i ==> path_lt(path@, groups@[i].path@)),
{
    let ghost gv = group_views(groups@);
    let mut i: usize = 0;
    while i < groups.len()
        invariant
            i <= groups@.len(),
            gv == group_views(groups@),
            paths_ascending(gv),
            forall|j: int| 0 <= j < i ==> path_lt(groups@[j].path@, path@),
        decreases groups@.len() - i,
    {
        if groups[i].path == *path {
            return (true, i);
        }
        if path_precedes(path.as_str(), groups[i].path.as_str()) {
            proof {
                assert forall|j: int| i < j < groups@.len() implies path_lt(
                    path@,
                    groups@[j].path@,
                ) by {
                    assert(gv[i as int].path == groups@[i as int].path@);
                    assert(gv[j].path == groups@[j].path@);
                    lemma_path_lt_transitive(path@, groups@[i as int].path@, groups@[j].path@);
                }
            }
            return (false, i);
        }
        proof {
            lemma_path_lt_total(path@, groups@[i as int].path@);
        }
        i = i + 1;
    }
    (false, i)
}

/// Partitions the records by file: groups ascend by path in byte order, and
/// each keeps its records in the order in which they arrived.
pub fn group_by_file(input: Vec<Diagnostic>) -> (r: Vec<FileGroup>)
    ensures
        is_grouping_of(group_views(r@), views(input@)),
        total_records(group_views(r@)) == input@.len(),
{
    let ghost all = views(input@);
    let mut rest = input;
    let mut groups: Vec<FileGroup> = Vec::new();
    let ghost mut k: int = 0;
    assert(views(rest@) =~= all.skip(0));
    assert(group_views(groups@) =~= Seq::<FileGroupView>::empty());
    while rest.len() > 0
        invariant
            0 <= k <= all.len(),
            views(rest@) == all.skip(k),
            is_grouping_of(group_views(groups@), all.take(k)),
            total_records(group_views(groups@)) == k,
        decreases rest@.len(),
    {
        let ghost old_views = group_views(groups@);
        let ghost done = all.take(k);
        let ghost before = rest@;
        let d = rest.remove(0);
        proof {
            assert(views(before).len() == before.len());
            assert(views(before)[0] == before[0]@);
            assert(all.skip(k)[0] == all[k]);
            assert(views(rest@) =~= views(before).skip(1));
            assert(views(rest@) =~= all.skip(k + 1));
            assert(d@ == all[k]);
            assert(all.take(k + 1) =~= done.push(d@));
            done.lemma_filter_push(d@, |x: DiagnosticView| x.file == d.file@);
        }
        let (found, idx) = locate(&groups, &d.file);
        if found {
            let mut g = groups.remove(idx);
            let ghost old_records = views(g.records@);
            g.records.push(d);
            groups.insert(idx, g);
            proof {
                let nv = group_views(groups@);
                assert(views(g.records@) =~= old_records.push(d@));
                assert(nv =~= old_views.update(idx as int, g@));
                lemma_total_update(old_views, idx as int, g@);
                assert forall|i: int| 0 <= i < nv.len() implies #[trigger] nv[i].records
                    == records_for(done.push(d@), nv[i].path) by {
                    done.lemma_filter_push(d@, |x: DiagnosticView| x.file == nv[i].path);
                    if i != idx {
                        if i < idx {
                            assert(path_lt(old_views[i].path, old_views[idx as int].path));
                        } else {
                            assert(path_lt(old_views[idx as int].path, old_views[i].path));
                        }
                        lemma_path_lt_irreflexive(d.file@);
                    }
                }
                assert forall|j: int| 0 <= j < k + 1 implies has_group(
                    nv,
                    #[trigger] all.take(k + 1)[j].file,
                ) by {
                    if j < k {
                        assert(all.take(k + 1)[j] == done[j]);
                        let w = choose|w: int| 0 <= w < old_views.len() && #[trigger] old_views[w].path == done[j].file;
                        assert(nv[w].path == old_views[w].path);
                    } else {
                        assert(nv[idx as int].path == d.file@);
                    }
                }
            }
        } else {
            let ghost path = d.file@;
            let g = FileGroup { path: d.file.clone(), records: vec![d] };
            groups.insert(idx, g);
            proof {
                let nv = group_views(groups@);
                assert(nv =~= old_views.insert(idx as int, g@));
                assert(views(g.records@) =~= seq![d@]);
                lemma_total_insert(old_views, idx as int, g@);
                let pred = |x: DiagnosticView| x.file == path;
                if done.filter(pred).len() > 0 {
                    let e = done.filter(pred)[0];
                    done.lemma_filter_pred(pred, 0);
                    assert(done.filter(pred).contains(e));
                    done.lemma_filter_contains_rev(pred, e);
                    assert(done.contains(e));
                    let j = choose|j: int| 0 <= j < done.len() && done[j] == e;
                    assert(has_group(old_views, done[j].file));
                    let w = choose|w: int| 0 <= w < old_views.len() && #[trigger] old_views[w].path == path;
                    assert(old_views[w].path == groups@[if w < idx { w } else { w + 1 }].path@);
                    lemma_path_lt_irreflexive(path);
                }
                assert(done.filter(pred) =~= Seq::<DiagnosticView>::empty());
                assert forall|i: int, j: int| 0 <= i < j < nv.len() implies path_lt(
                    #[trigger] nv[i].path,
                    #[trigger] nv[j].path,
                ) by {
                    if j == idx {
                        assert(nv[i] == old_views[i]);
                        assert(old_views[i].path == groups@[i].path@);
                    } else if i == idx {
                        assert(nv[j] == old_views[j - 1]);
                        assert(old_views[j - 1].path == groups@[j].path@);
                    } else if j < idx {
                        assert(nv[i] == old_views[i] && nv[j] == old_views[j]);
                    } else if i < idx {
                        assert(nv[i] == old_views[i] && nv[j] == old_views[j - 1]);
                    } else {
                        assert(nv[i] == old_views[i - 1] && nv[j] == old_views[j - 1]);
                    }
                }
                assert forall|i: int| 0 <= i < nv.len() implies #[trigger] nv[i].records
                    == records_for(done.push(d@), nv[i].path) by {
                    done.lemma_filter_push(d@, |x: DiagnosticView| x.file == nv[i].path);
                    if i != idx {
                        let o = if i < idx { i } else { i - 1 };
                        assert(nv[i] == old_views[o]);
                        assert(old_views[o].path == groups@[i].path@);
                        lemma_path_lt_irreflexive(path);
                    }
                }
                assert forall|i: int| 0 <= i < nv.len() implies (#[trigger] nv[i].records).len() > 0 by {
                    if i != idx {
                        let o = if i < idx { i } else { i - 1 };
                        assert(nv[i] == old_views[o]);
                    }
                }
                assert forall|j: int| 0 <= j < k + 1 implies has_group(
                    nv,
                    #[trigger] all.take(k + 1)[j].file,
                ) by {
                    if j < k {
                        assert(all.take(k + 1)[j] == done[j]);
                        let w = choose|w: int| 0 <= w < old_views.len() && #[trigger] old_views[w].path == done[j].file;
                        let o = if w < idx { w } else { w + 1 };
                        assert(nv[o] == old_views[w]);
                    } else {
                        assert(nv[idx as int].path == d.file@);
                    }
                }
            }
        }
        proof {
            k = k + 1;
        }
    }
    assert(all.take(k) =~= all);
    groups
}

} // verus!

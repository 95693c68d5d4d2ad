//! What holds of every search: the report lists exactly the matching lines,
//! each once, and does not depend on the order in which files were visited.

use crate::config::ConfigView;
use crate::engine::{arrivals, contribution, SourceView};
use crate::record::RecordView;
use crate::report::report_lines;
use crate::search::{
    lemma_matches_ascending, lemma_matches_complete, lemma_matches_sound, record_at,
};
use crate::sort::{
    is_report_of, lemma_of_path_absent, lemma_of_path_concat, lemma_of_path_members,
    lemma_report_unique, of_path,
};
use vstd::prelude::*;

verus! {

/// `r` is the record of line `i` (counted from 0) of file `f`, and that line
/// is accepted.
pub open spec fn match_at(
    cfg: ConfigView,
    files: Seq<SourceView>,
    f: int,
    i: int,
    r: RecordView,
) -> bool {
    &&& 0 <= f < files.len()
    &&& files[f].lines matches Some(ls)
    &&& 0 <= i < ls.len()
    &&& cfg.accepts(ls[i])
    &&& r == record_at(files[f].path, (i + 1) as nat, ls[i])
}

/// `r` is the record of an accepted line of a file that could be read.
pub open spec fn is_match_in(cfg: ConfigView, files: Seq<SourceView>, r: RecordView) -> bool {
    exists|f: int, i: int| match_at(cfg, files, f, i, r)
}

/// No two files have the same path.
pub open spec fn distinct_paths(files: Seq<SourceView>) -> bool {
    forall|i: int, j: int|
        0 <= i < j < files.len() ==> (#[trigger] files[i]).path != (#[trigger] files[j]).path
}

/// A record of `s` is among the records selected for its path.
proof fn lemma_of_path_contains(s: Seq<RecordView>, r: RecordView)
    requires
        s.contains(r),
    ensures
        of_path(s, r.file_path).contains(r),
    decreases s.len(),
{
    let p = r.file_path;
    let i = choose|i: int| 0 <= i < s.len() && s[i] == r;
    let all = of_path(s, p);
    if i == s.len() - 1 {
        assert(all[all.len() - 1] == r);
    } else {
        assert(s.drop_last()[i] == r);
        lemma_of_path_contains(s.drop_last(), r);
        let rest = of_path(s.drop_last(), p);
        let k = choose|k: int| 0 <= k < rest.len() && rest[k] == r;
        assert(all[k] == r);
    }
}

/// A record that stands twice in `s` stands twice among the records
/// selected for its path. Returns the two positions.
proof fn lemma_of_path_twice(s: Seq<RecordView>, i: int, j: int) -> (k: (int, int))
    requires
        0 <= i < j < s.len(),
        s[i] == s[j],
    ensures
        0 <= k.0 < k.1 < of_path(s, s[i].file_path).len(),
        of_path(s, s[i].file_path)[k.0] == s[i],
        of_path(s, s[i].file_path)[k.1] == s[i],
    decreases s.len(),
{
    let r = s[i];
    let p = r.file_path;
    let rest = of_path(s.drop_last(), p);
    if j == s.len() - 1 {
        assert(s.drop_last()[i] == r);
        lemma_of_path_contains(s.drop_last(), r);
        let k0 = choose|k: int| 0 <= k < rest.len() && rest[k] == r;
        (k0, rest.len() as int)
    } else {
        assert(s.drop_last()[i] == r && s.drop_last()[j] == r);
        lemma_of_path_twice(s.drop_last(), i, j)
    }
}

/// Where every record names `p`, selecting `p` keeps the whole sequence.
proof fn lemma_of_path_all(s: Seq<RecordView>, p: Seq<char>)
    requires
        forall|i: int| 0 <= i < s.len() ==> (#[trigger] s[i]).file_path == p,
    ensures
        of_path(s, p) == s,
    decreases s.len(),
{
    if s.len() > 0 {
        assert(s[s.len() - 1] == s.last());
        assert forall|i: int| 0 <= i < s.drop_last().len() implies (#[trigger] s.drop_last()[
            i
        ]).file_path == p by {
            assert(s.drop_last()[i] == s[i]);
        }
        lemma_of_path_all(s.drop_last(), p);
        assert(s.drop_last().push(s.last()) =~= s);
    } else {
        assert(of_path(s, p) =~= s);
    }
}

/// The records that a file contributes all name its path: selecting that
/// path keeps them all, selecting another keeps none.
proof fn lemma_contribution_of_path(cfg: ConfigView, file: SourceView, p: Seq<char>)
    ensures
        of_path(contribution(cfg, file), p) == if p == file.path {
            contribution(cfg, file)
        } else {
            Seq::empty()
        },
{
    let c = contribution(cfg, file);
    assert forall|i: int| 0 <= i < c.len() implies (#[trigger] c[i]).file_path == file.path by {
        lemma_matches_sound(cfg, file.path, file.lines->Some_0, i);
    }
    if p == file.path {
        lemma_of_path_all(c, p);
    } else {
        lemma_of_path_absent(c, p);
    }
}

/// For a path that no file has, nothing arrives.
proof fn lemma_arrivals_absent(cfg: ConfigView, files: Seq<SourceView>, p: Seq<char>)
    requires
        forall|i: int| 0 <= i < files.len() ==> (#[trigger] files[i]).path != p,
    ensures
        of_path(arrivals(cfg, files), p) == Seq::<RecordView>::empty(),
    decreases files.len(),
{
    if files.len() > 0 {
        let init = files.drop_last();
        assert forall|i: int| 0 <= i < init.len() implies (#[trigger] init[i]).path != p by {
            assert(init[i] == files[i]);
        }
        lemma_arrivals_absent(cfg, init, p);
        assert(files[files.len() - 1] == files.last());
        lemma_contribution_of_path(cfg, files.last(), p);
        lemma_of_path_concat(arrivals(cfg, init), contribution(cfg, files.last()), p);
        assert(Seq::<RecordView>::empty() + Seq::<RecordView>::empty() =~= Seq::<
            RecordView,
        >::empty());
    }
}

/// With distinct paths, what arrives for the path of a file is what that
/// file contributes.
pub proof fn lemma_arrivals_of_file(cfg: ConfigView, files: Seq<SourceView>, k: int)
    requires
        distinct_paths(files),
        0 <= k < files.len(),
    ensures
        of_path(arrivals(cfg, files), files[k].path) == contribution(cfg, files[k]),
    decreases files.len(),
{
    let p = files[k].path;
    let init = files.drop_last();
    let last = files.last();
    assert(files[files.len() - 1] == last);
    lemma_of_path_concat(arrivals(cfg, init), contribution(cfg, last), p);
    lemma_contribution_of_path(cfg, last, p);
    if k == files.len() - 1 {
        assert forall|i: int| 0 <= i < init.len() implies (#[trigger] init[i]).path != p by {
            assert(init[i] == files[i]);
        }
        lemma_arrivals_absent(cfg, init, p);
        assert(Seq::<RecordView>::empty() + contribution(cfg, last) =~= contribution(cfg, last));
    } else {
        assert(init[k] == files[k]);
        assert forall|i: int, j: int| 0 <= i < j < init.len() implies (#[trigger] init[i]).path != (
        #[trigger] init[j]).path by {
            assert(init[i] == files[i] && init[j] == files[j]);
        }
        lemma_arrivals_of_file(cfg, init, k);
        assert(contribution(cfg, files[k]) + Seq::<RecordView>::empty() =~= contribution(
            cfg,
            files[k],
        ));
    }
}

/// Every record that arrives is the record of an accepted line of a file.
proof fn lemma_arrivals_sound(cfg: ConfigView, files: Seq<SourceView>, r: RecordView)
    requires
        arrivals(cfg, files).contains(r),
    ensures
        is_match_in(cfg, files, r),
    decreases files.len(),
{
    let all = arrivals(cfg, files);
    let k = choose|k: int| 0 <= k < all.len() && all[k] == r;
    if files.len() > 0 {
        let init = files.drop_last();
        let last = files.last();
        let before = arrivals(cfg, init);
        if k < before.len() {
            assert(before[k] == r);
            lemma_arrivals_sound(cfg, init, r);
            let (f, i) = choose|f: int, i: int| match_at(cfg, init, f, i, r);
            assert(init[f] == files[f]);
            assert(match_at(cfg, files, f, i, r));
        } else {
            let c = contribution(cfg, last);
            assert(c[k - before.len()] == r);
            let ls = last.lines->Some_0;
            lemma_matches_sound(cfg, last.path, ls, k - before.len());
            assert(files[files.len() - 1] == last);
            assert(match_at(cfg, files, files.len() - 1, r.line_number - 1, r));
        }
    }
}

/// The record of every accepted line of every readable file arrives.
proof fn lemma_arrivals_complete(cfg: ConfigView, files: Seq<SourceView>, r: RecordView)
    requires
        is_match_in(cfg, files, r),
    ensures
        arrivals(cfg, files).contains(r),
    decreases files.len(),
{
    let (f, i) = choose|f: int, i: int| match_at(cfg, files, f, i, r);
    let init = files.drop_last();
    let last = files.last();
    let before = arrivals(cfg, init);
    let c = contribution(cfg, last);
    let all = arrivals(cfg, files);
    if f == files.len() - 1 {
        let ls = last.lines->Some_0;
        lemma_matches_complete(cfg, last.path, ls, i);
        let k = choose|k: int| 0 <= k < c.len() && c[k] == r;
        assert(all[before.len() + k] == r);
    } else {
        assert(init[f] == files[f]);
        assert(match_at(cfg, init, f, i, r));
        lemma_arrivals_complete(cfg, init, r);
        let k = choose|k: int| 0 <= k < before.len() && before[k] == r;
        assert(all[k] == r);
    }
}

/// A report holds the same records as what arrived.
proof fn lemma_report_same_members(out: Seq<RecordView>, arrived: Seq<RecordView>, r: RecordView)
    requires
        is_report_of(out, arrived),
    ensures
        out.contains(r) <==> arrived.contains(r),
{
    let p = r.file_path;
    assert(of_path(out, p) == of_path(arrived, p));
    if out.contains(r) {
        lemma_of_path_contains(out, r);
        let k = choose|k: int| 0 <= k < of_path(out, p).len() && of_path(out, p)[k] == r;
        lemma_of_path_members(arrived, p, k);
    }
    if arrived.contains(r) {
        lemma_of_path_contains(arrived, r);
        let k = choose|k: int| 0 <= k < of_path(arrived, p).len() && of_path(arrived, p)[k] == r;
        lemma_of_path_members(out, p, k);
    }
}

/// Exactness: the report of a search holds a record if and only if it is
/// the record of a line that the configuration accepts, in a file that could
/// be read. Nothing is missing and nothing is spurious.
pub proof fn law_report_exact(
    cfg: ConfigView,
    files: Seq<SourceView>,
    out: Seq<RecordView>,
    r: RecordView,
)
    requires
        is_report_of(out, arrivals(cfg, files)),
    ensures
        out.contains(r) <==> is_match_in(cfg, files, r),
{
    lemma_report_same_members(out, arrivals(cfg, files), r);
    if arrivals(cfg, files).contains(r) {
        lemma_arrivals_sound(cfg, files, r);
    }
    if is_match_in(cfg, files, r) {
        lemma_arrivals_complete(cfg, files, r);
    }
}

/// No duplicates: where no two files share a path, no record stands twice
/// in the report.
pub proof fn law_report_no_duplicates(
    cfg: ConfigView,
    files: Seq<SourceView>,
    out: Seq<RecordView>,
    i: int,
    j: int,
)
    requires
        distinct_paths(files),
        is_report_of(out, arrivals(cfg, files)),
        0 <= i < j < out.len(),
    ensures
        out[i] != out[j],
{
    if out[i] == out[j] {
        let r = out[i];
        let p = r.file_path;
        let (k1, k2) = lemma_of_path_twice(out, i, j);
        assert(of_path(out, p) == of_path(arrivals(cfg, files), p));
        law_report_exact(cfg, files, out, r);
        let (f, n) = choose|f: int, n: int| match_at(cfg, files, f, n, r);
        lemma_arrivals_of_file(cfg, files, f);
        lemma_matches_ascending(cfg, p, files[f].lines->Some_0, k1, k2);
    }
}

/// Order independence: two searches over the same files, visited in any
/// order, give the same report and so the same rendered lines.
pub proof fn law_report_order_independent(
    cfg: ConfigView,
    first: Seq<SourceView>,
    second: Seq<SourceView>,
    out_first: Seq<RecordView>,
    out_second: Seq<RecordView>,
)
    requires
        distinct_paths(first),
        distinct_paths(second),
        forall|f: SourceView| first.contains(f) <==> second.contains(f),
        is_report_of(out_first, arrivals(cfg, first)),
        is_report_of(out_second, arrivals(cfg, second)),
    ensures
        out_first == out_second,
        report_lines(out_first) == report_lines(out_second),
{
    assert forall|p: Seq<char>| #[trigger] of_path(out_first, p) == of_path(out_second, p) by {
        assert(of_path(out_first, p) == of_path(arrivals(cfg, first), p));
        assert(of_path(out_second, p) == of_path(arrivals(cfg, second), p));
        if exists|k: int| 0 <= k < first.len() && (#[trigger] first[k]).path == p {
            let k = choose|k: int| 0 <= k < first.len() && (#[trigger] first[k]).path == p;
            assert(first.contains(first[k]));
            let m = choose|m: int| 0 <= m < second.len() && second[m] == first[k];
            lemma_arrivals_of_file(cfg, first, k);
            lemma_arrivals_of_file(cfg, second, m);
        } else {
            assert forall|m: int| 0 <= m < second.len() implies (#[trigger] second[m]).path
                != p by {
                assert(second.contains(second[m]));
                let k = choose|k: int| 0 <= k < first.len() && first[k] == second[m];
                assert(first[k].path != p);
            }
            lemma_arrivals_absent(cfg, first, p);
            lemma_arrivals_absent(cfg, second, p);
        }
    }
    lemma_report_unique(out_first, out_second);
}

/// Fault isolation: a file that could not be read changes nothing in what
/// arrives from the others; the search goes as if the file were not there.
pub proof fn law_unreadable_file_isolated(cfg: ConfigView, files: Seq<SourceView>, k: int)
    requires
        0 <= k < files.len(),
        files[k].lines is None,
    ensures
        arrivals(cfg, files) == arrivals(cfg, files.remove(k)),
    decreases files.len(),
{
    let init = files.drop_last();
    if k == files.len() - 1 {
        assert(files.remove(k) =~= init);
        assert(arrivals(cfg, init) + Seq::<RecordView>::empty() =~= arrivals(cfg, init));
    } else {
        assert(init[k] == files[k]);
        law_unreadable_file_isolated(cfg, init, k);
        assert(files.remove(k).drop_last() =~= init.remove(k));
        assert(files.remove(k).last() == files.last());
    }
}

/// Nothing to find: where no line of any readable file is accepted, as in
/// an empty tree, the report is empty and renders to no line.
pub proof fn law_no_match_empty_report(
    cfg: ConfigView,
    files: Seq<SourceView>,
    out: Seq<RecordView>,
)
    requires
        is_report_of(out, arrivals(cfg, files)),
        forall|r: RecordView| !is_match_in(cfg, files, r),
    ensures
        out == Seq::<RecordView>::empty(),
        report_lines(out) == Seq::<Seq<char>>::empty(),
{
    if out.len() > 0 {
        assert(out.contains(out[0]));
        law_report_exact(cfg, files, out, out[0]);
    }
    assert(out =~= Seq::<RecordView>::empty());
    assert(report_lines(out) =~= Seq::<Seq<char>>::empty());
}

/// An empty tree has no match.
pub proof fn law_empty_tree_has_no_match(cfg: ConfigView, r: RecordView)
    ensures
        !is_match_in(cfg, Seq::<SourceView>::empty(), r),
{
}

} // verus!

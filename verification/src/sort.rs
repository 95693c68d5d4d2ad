//! Ordering of collected records: by path, keeping for each path the order
//! in which its records arrived.

use crate::order::{
    lemma_lex_asymmetric, lemma_lex_irreflexive, lemma_lex_le_transitive, lemma_lex_total,
};
use crate::record::{
    lemma_path_le_antisymmetric, path_key, path_le, path_lt, path_precedes, views, MatchRecord,
    RecordView,
};
use vstd::prelude::*;

verus! {

/// The records of `s` that name the path `p`, in the order they have in `s`.
pub open spec fn of_path(s: Seq<RecordView>, p: Seq<char>) -> Seq<RecordView>
    decreases s.len(),
{
    if s.len() == 0 {
        Seq::empty()
    } else if s.last().file_path == p {
        of_path(s.drop_last(), p).push(s.last())
    } else {
        of_path(s.drop_last(), p)
    }
}

/// No record of `s` is listed after one whose path precedes its own.
pub open spec fn sorted_by_path(s: Seq<RecordView>) -> bool {
    forall|i: int, j: int|
        0 <= i <= j < s.len() ==> path_le(#[trigger] s[i].file_path, #[trigger] s[j].file_path)
}

/// `out` is the report of the records that `arrived`: it is ordered by path
/// and, for every path, lists that path's records exactly as they arrived.
pub open spec fn is_report_of(out: Seq<RecordView>, arrived: Seq<RecordView>) -> bool {
    &&& sorted_by_path(out)
    &&& forall|p: Seq<char>| #[trigger] of_path(out, p) == of_path(arrived, p)
}

/// Selecting a path distributes over concatenation.
pub proof fn lemma_of_path_concat(a: Seq<RecordView>, b: Seq<RecordView>, p: Seq<char>)
    ensures
        of_path(a + b, p) == of_path(a, p) + of_path(b, p),
    decreases b.len(),
{
    if b.len() == 0 {
        assert(a + b =~= a);
        assert(of_path(a, p) + of_path(b, p) =~= of_path(a, p));
    } else {
        assert((a + b).drop_last() =~= a + b.drop_last());
        lemma_of_path_concat(a, b.drop_last(), p);
        if b.last().file_path == p {
            assert(of_path(a, p) + of_path(b, p) =~= (of_path(a, p) + of_path(
                b.drop_last(),
                p,
            )).push(b.last()));
        }
    }
}

/// A sequence in which no record names `p` selects to nothing.
pub proof fn lemma_of_path_absent(s: Seq<RecordView>, p: Seq<char>)
    requires
        forall|i: int| 0 <= i < s.len() ==> (#[trigger] s[i]).file_path != p,
    ensures
        of_path(s, p) == Seq::<RecordView>::empty(),
    decreases s.len(),
{
    if s.len() > 0 {
        assert(s.last() == s[s.len() - 1]);
        assert forall|i: int| 0 <= i < s.drop_last().len() implies (#[trigger] s.drop_last()[
            i
        ]).file_path != p by {
            assert(s.drop_last()[i] == s[i]);
        }
        lemma_of_path_absent(s.drop_last(), p);
    }
}

/// Every record selected for `p` names `p` and stands in `s`.
pub proof fn lemma_of_path_members(s: Seq<RecordView>, p: Seq<char>, k: int)
    requires
        0 <= k < of_path(s, p).len(),
    ensures
        of_path(s, p)[k].file_path == p,
        s.contains(of_path(s, p)[k]),
    decreases s.len(),
{
    let rest = of_path(s.drop_last(), p);
    if k < rest.len() {
        lemma_of_path_members(s.drop_last(), p, k);
        let r = rest[k];
        let i = choose|i: int| 0 <= i < s.drop_last().len() && s.drop_last()[i] == r;
        assert(s[i] == r);
    } else {
        assert(s[s.len() - 1] == s.last());
    }
}

/// The selection for the path of the first record starts with that record,
/// and dropping the record drops it from that selection alone.
pub proof fn lemma_of_path_first(s: Seq<RecordView>, p: Seq<char>)
    requires
        s.len() > 0,
    ensures
        of_path(s, p) == if s.first().file_path == p {
            seq![s.first()] + of_path(s.drop_first(), p)
        } else {
            of_path(s.drop_first(), p)
        },
{
    let head = seq![s.first()];
    assert(s =~= head + s.drop_first());
    lemma_of_path_concat(head, s.drop_first(), p);
    assert(head.drop_last() =~= Seq::<RecordView>::empty());
    assert(of_path(Seq::<RecordView>::empty(), p) =~= Seq::<RecordView>::empty());
    assert(head.last() == s.first());
    assert(of_path(head, p) =~= if s.first().file_path == p {
        head
    } else {
        Seq::empty()
    });
    if s.first().file_path != p {
        assert(Seq::<RecordView>::empty() + of_path(s.drop_first(), p) =~= of_path(
            s.drop_first(),
            p,
        ));
    }
}

/// Determinism: an ordering by path that keeps each path's records in their
/// order is unique. Two reports whose inputs agree path by path are equal,
/// whatever the order in which records of different paths arrived.
pub proof fn lemma_report_unique(a: Seq<RecordView>, b: Seq<RecordView>)
    requires
        sorted_by_path(a),
        sorted_by_path(b),
        forall|p: Seq<char>| #[trigger] of_path(a, p) == of_path(b, p),
    ensures
        a == b,
    decreases a.len(),
{
    if a.len() == 0 {
        if b.len() > 0 {
            let q = b.first().file_path;
            lemma_of_path_first(b, q);
            assert(of_path(a, q) == of_path(b, q));
            assert(of_path(b, q).len() > 0);
        }
        assert(a =~= b);
    } else {
        let p = a.first().file_path;
        lemma_of_path_first(a, p);
        assert(of_path(a, p) == of_path(b, p));
        assert(of_path(a, p)[0] == a.first());
        lemma_of_path_members(b, p, 0);
        let ib = choose|i: int| 0 <= i < b.len() && b[i] == of_path(b, p)[0];
        let q = b.first().file_path;
        lemma_of_path_first(b, q);
        assert(of_path(a, q) == of_path(b, q));
        assert(of_path(b, q)[0] == b.first());
        lemma_of_path_members(a, q, 0);
        let ia = choose|i: int| 0 <= i < a.len() && a[i] == of_path(a, q)[0];
        assert(path_le(a[0].file_path, a[ia].file_path));
        assert(path_le(b[0].file_path, b[ib].file_path));
        lemma_path_le_antisymmetric(p, q);
        assert(a.first() == b.first());
        let ta = a.drop_first();
        let tb = b.drop_first();
        assert forall|i: int, j: int| 0 <= i <= j < ta.len() implies path_le(
            #[trigger] ta[i].file_path,
            #[trigger] ta[j].file_path,
        ) by {
            assert(ta[i] == a[i + 1] && ta[j] == a[j + 1]);
        }
        assert forall|i: int, j: int| 0 <= i <= j < tb.len() implies path_le(
            #[trigger] tb[i].file_path,
            #[trigger] tb[j].file_path,
        ) by {
            assert(tb[i] == b[i + 1] && tb[j] == b[j + 1]);
        }
        assert forall|r: Seq<char>| #[trigger] of_path(ta, r) == of_path(tb, r) by {
            lemma_of_path_first(a, r);
            lemma_of_path_first(b, r);
            assert(of_path(a, r) == of_path(b, r));
            if p == r {
                let x = seq![a.first()];
                assert(of_path(ta, r) =~= (x + of_path(ta, r)).subrange(
                    1,
                    (x + of_path(ta, r)).len() as int,
                ));
                assert(of_path(tb, r) =~= (x + of_path(tb, r)).subrange(
                    1,
                    (x + of_path(tb, r)).len() as int,
                ));
            }
        }
        lemma_report_unique(ta, tb);
        assert(a =~= seq![a.first()] + ta);
        assert(b =~= seq![b.first()] + tb);
    }
}

/// The non-strict path order is transitive.
proof fn lemma_path_le_transitive(a: Seq<char>, b: Seq<char>, c: Seq<char>)
    requires
        path_le(a, b),
        path_le(b, c),
    ensures
        path_le(a, c),
{
    lemma_lex_le_transitive(path_key(a), path_key(b), path_key(c));
}

/// A strictly preceding path also precedes non-strictly, and differs.
proof fn lemma_path_lt_le(a: Seq<char>, b: Seq<char>)
    requires
        path_lt(a, b),
    ensures
        path_le(a, b),
        a != b,
{
    lemma_lex_asymmetric(path_key(a), path_key(b));
    lemma_lex_irreflexive(path_key(a));
}

/// Every record of `low` is listed no later than every record of `high`.
spec fn all_le(low: Seq<RecordView>, high: Seq<RecordView>) -> bool {
    forall|i: int, j: int|
        0 <= i < low.len() && 0 <= j < high.len() ==> path_le(
            #[trigger] low[i].file_path,
            #[trigger] high[j].file_path,
        )
}

/// `back` holds the records of `tail` in reverse.
spec fn mirrors(back: Seq<RecordView>, tail: Seq<RecordView>) -> bool {
    &&& back.len() == tail.len()
    &&& forall|i: int| 0 <= i < back.len() ==> #[trigger] back[i] == tail[tail.len() - 1 - i]
}

/// What is left of the two inputs, followed by what was merged already,
/// still selects for `p` what the inputs selected.
spec fn selection_kept(
    left: Seq<RecordView>,
    right: Seq<RecordView>,
    tail: Seq<RecordView>,
    whole_left: Seq<RecordView>,
    whole_right: Seq<RecordView>,
    p: Seq<char>,
) -> bool {
    of_path(left, p) + of_path(right, p) + of_path(tail, p) == of_path(whole_left, p) + of_path(
        whole_right,
        p,
    )
}

/// Moving the last record of the right input to the front of the tail
/// keeps every selection.
proof fn lemma_take_right(
    left: Seq<RecordView>,
    right: Seq<RecordView>,
    tail: Seq<RecordView>,
    p: Seq<char>,
)
    requires
        right.len() > 0,
    ensures
        of_path(left, p) + of_path(right.drop_last(), p) + of_path(seq![right.last()] + tail, p)
            == of_path(left, p) + of_path(right, p) + of_path(tail, p),
{
    let x = right.last();
    let moved = seq![x] + tail;
    lemma_of_path_first(moved, p);
    assert(moved.drop_first() =~= tail);
    if x.file_path == p {
        assert(of_path(left, p) + of_path(right.drop_last(), p) + (seq![x] + of_path(tail, p))
            =~= of_path(left, p) + of_path(right.drop_last(), p).push(x) + of_path(tail, p));
    }
}

/// Moving the last record of the left input to the front of the tail keeps
/// every selection, when the whole right input precedes that record strictly.
proof fn lemma_take_left(
    left: Seq<RecordView>,
    right: Seq<RecordView>,
    tail: Seq<RecordView>,
    p: Seq<char>,
)
    requires
        left.len() > 0,
        forall|i: int|
            0 <= i < right.len() ==> path_lt((#[trigger] right[i]).file_path, left.last().file_path),
    ensures
        of_path(left.drop_last(), p) + of_path(right, p) + of_path(seq![left.last()] + tail, p)
            == of_path(left, p) + of_path(right, p) + of_path(tail, p),
{
    let x = left.last();
    let moved = seq![x] + tail;
    lemma_of_path_first(moved, p);
    assert(moved.drop_first() =~= tail);
    if x.file_path == p {
        assert forall|i: int| 0 <= i < right.len() implies (#[trigger] right[i]).file_path
            != p by {
            lemma_path_lt_le(right[i].file_path, p);
        }
        lemma_of_path_absent(right, p);
        assert(of_path(left.drop_last(), p) + of_path(right, p) + (seq![x] + of_path(tail, p))
            =~= of_path(left.drop_last(), p).push(x) + of_path(right, p) + of_path(tail, p));
    }
}

/// Merges two ordered runs, the records of `left` having arrived before
/// those of `right`.
fn merge_runs(left: Vec<MatchRecord>, right: Vec<MatchRecord>) -> (out: Vec<MatchRecord>)
    requires
        sorted_by_path(views(left@)),
        sorted_by_path(views(right@)),
    ensures
        is_report_of(views(out@), views(left@) + views(right@)),
{
    let ghost whole_left = views(left@);
    let ghost whole_right = views(right@);
    let ghost mut tail: Seq<RecordView> = Seq::empty();
    let mut left = left;
    let mut right = right;
    let mut back: Vec<MatchRecord> = Vec::new();
    assert forall|p: Seq<char>|
        selection_kept(views(left@), views(right@), tail, whole_left, whole_right, p) by {
        assert(of_path(tail, p) =~= Seq::<RecordView>::empty());
        assert(of_path(whole_left, p) + of_path(whole_right, p) + Seq::<RecordView>::empty()
            =~= of_path(whole_left, p) + of_path(whole_right, p));
    }
    while left.len() > 0 || right.len() > 0
        invariant
            sorted_by_path(views(left@)),
            sorted_by_path(views(right@)),
            sorted_by_path(tail),
            all_le(views(left@), tail),
            all_le(views(right@), tail),
            mirrors(views(back@), tail),
            forall|p: Seq<char>|
                #[trigger] selection_kept(
                    views(left@),
                    views(right@),
                    tail,
                    whole_left,
                    whole_right,
                    p,
                ),
        decreases left.len() + right.len(),
    {
        let ghost l = views(left@);
        let ghost r = views(right@);
        let ghost b = views(back@);
        let from_right = if left.len() == 0 {
            true
        } else if right.len() == 0 {
            false
        } else {
            !path_precedes(
                right[right.len() - 1].file_path.as_str(),
                left[left.len() - 1].file_path.as_str(),
            )
        };
        if from_right {
            let x = right.pop().unwrap();
            proof {
                assert(views(right@) =~= r.drop_last());
                assert(x@ == r.last());
                let moved = seq![x@] + tail;
                assert forall|i: int, j: int| 0 <= i <= j < moved.len() implies path_le(
                    #[trigger] moved[i].file_path,
                    #[trigger] moved[j].file_path,
                ) by {
                    if i == 0 && j > 0 {
                        assert(moved[j] == tail[j - 1]);
                        assert(path_le(r[r.len() - 1].file_path, tail[j - 1].file_path));
                    } else if i > 0 {
                        assert(moved[i] == tail[i - 1] && moved[j] == tail[j - 1]);
                    } else {
                        lemma_lex_irreflexive(path_key(x@.file_path));
                    }
                }
                assert forall|i: int, j: int|
                    0 <= i < views(right@).len() && 0 <= j < moved.len() implies path_le(
                    #[trigger] views(right@)[i].file_path,
                    #[trigger] moved[j].file_path,
                ) by {
                    assert(views(right@)[i] == r[i]);
                    if j == 0 {
                        assert(path_le(r[i].file_path, r[r.len() - 1].file_path));
                    } else {
                        assert(moved[j] == tail[j - 1]);
                    }
                }
                assert forall|i: int, j: int| 0 <= i < l.len() && 0 <= j < moved.len() implies path_le(
                    #[trigger] l[i].file_path,
                    #[trigger] moved[j].file_path,
                ) by {
                    if j == 0 {
                        assert(path_le(l[i].file_path, l[l.len() - 1].file_path));
                        lemma_path_le_transitive(
                            l[i].file_path,
                            l[l.len() - 1].file_path,
                            x@.file_path,
                        );
                    } else {
                        assert(moved[j] == tail[j - 1]);
                    }
                }
                assert forall|p: Seq<char>|
                    selection_kept(l, views(right@), moved, whole_left, whole_right, p) by {
                    assert(selection_kept(l, r, tail, whole_left, whole_right, p));
                    lemma_take_right(l, r, tail, p);
                }
                tail = moved;
            }
            back.push(x);
            proof {
                assert(views(back@) =~= b.push(x@));
                assert forall|i: int| 0 <= i < views(back@).len() implies #[trigger] views(
                    back@,
                )[i] == tail[tail.len() - 1 - i] by {
                    if i < b.len() {
                        assert(views(back@)[i] == b[i]);
                    }
                }
            }
        } else {
            let x = left.pop().unwrap();
            proof {
                assert(views(left@) =~= l.drop_last());
                assert(x@ == l.last());
                let moved = seq![x@] + tail;
                assert forall|i: int| 0 <= i < r.len() implies path_lt(
                    (#[trigger] r[i]).file_path,
                    l.last().file_path,
                ) by {
                    assert(path_le(r[i].file_path, r[r.len() - 1].file_path));
                    lemma_lex_total(path_key(r[i].file_path), path_key(x@.file_path));
                    if !path_lt(r[i].file_path, x@.file_path) {
                        lemma_path_le_transitive(
                            x@.file_path,
                            r[i].file_path,
                            r[r.len() - 1].file_path,
                        );
                    }
                }
                assert forall|i: int, j: int| 0 <= i <= j < moved.len() implies path_le(
                    #[trigger] moved[i].file_path,
                    #[trigger] moved[j].file_path,
                ) by {
                    if i == 0 && j > 0 {
                        assert(moved[j] == tail[j - 1]);
                        assert(path_le(l[l.len() - 1].file_path, tail[j - 1].file_path));
                    } else if i > 0 {
                        assert(moved[i] == tail[i - 1] && moved[j] == tail[j - 1]);
                    } else {
                        lemma_lex_irreflexive(path_key(x@.file_path));
                    }
                }
                assert forall|i: int, j: int|
                    0 <= i < views(left@).len() && 0 <= j < moved.len() implies path_le(
                    #[trigger] views(left@)[i].file_path,
                    #[trigger] moved[j].file_path,
                ) by {
                    assert(views(left@)[i] == l[i]);
                    if j == 0 {
                        assert(path_le(l[i].file_path, l[l.len() - 1].file_path));
                    } else {
                        assert(moved[j] == tail[j - 1]);
                    }
                }
                assert forall|i: int, j: int| 0 <= i < r.len() && 0 <= j < moved.len() implies path_le(
                    #[trigger] r[i].file_path,
                    #[trigger] moved[j].file_path,
                ) by {
                    if j == 0 {
                        lemma_path_lt_le(r[i].file_path, x@.file_path);
                    } else {
                        assert(moved[j] == tail[j - 1]);
                    }
                }
                assert forall|p: Seq<char>|
                    selection_kept(views(left@), r, moved, whole_left, whole_right, p) by {
                    assert(selection_kept(l, r, tail, whole_left, whole_right, p));
                    lemma_take_left(l, r, tail, p);
                }
                tail = moved;
            }
            back.push(x);
            proof {
                assert(views(back@) =~= b.push(x@));
                assert forall|i: int| 0 <= i < views(back@).len() implies #[trigger] views(
                    back@,
                )[i] == tail[tail.len() - 1 - i] by {
                    if i < b.len() {
                        assert(views(back@)[i] == b[i]);
                    }
                }
            }
        }
    }
    let mut out: Vec<MatchRecord> = Vec::new();
    assert(views(out@) =~= tail.take(0));
    while back.len() > 0
        invariant
            back.len() + out.len() == tail.len(),
            views(out@) == tail.take(out.len() as int),
            forall|i: int|
                0 <= i < back.len() ==> #[trigger] views(back@)[i] == tail[tail.len() - 1 - i],
        decreases back.len(),
    {
        let ghost b = views(back@);
        let ghost o = views(out@);
        let x = back.pop().unwrap();
        assert(views(back@) =~= b.drop_last());
        assert(x@ == b[b.len() - 1]);
        out.push(x);
        assert(views(out@) =~= o.push(x@));
        assert(views(out@) =~= tail.take(out.len() as int));
        assert forall|i: int| 0 <= i < back.len() implies #[trigger] views(back@)[i] == tail[tail.len()
            - 1 - i] by {
            assert(views(back@)[i] == b[i]);
        }
    }
    proof {
        assert(tail.take(out.len() as int) =~= tail);
        assert forall|p: Seq<char>| #[trigger]
            of_path(views(out@), p) == of_path(whole_left + whole_right, p) by {
            assert(selection_kept(views(left@), views(right@), tail, whole_left, whole_right, p));
            assert(views(left@) =~= Seq::<RecordView>::empty());
            assert(views(right@) =~= Seq::<RecordView>::empty());
            assert(of_path(Seq::<RecordView>::empty(), p) =~= Seq::<RecordView>::empty());
            assert(Seq::<RecordView>::empty() + Seq::<RecordView>::empty() + of_path(tail, p)
                =~= of_path(tail, p));
            lemma_of_path_concat(whole_left, whole_right, p);
        }
    }
    out
}

/// Orders records by path. Records of one path keep the order in which
/// they stand, so the per-file line order of the input survives.
pub fn sort_records(records: Vec<MatchRecord>) -> (out: Vec<MatchRecord>)
    ensures
        is_report_of(views(out@), views(records@)),
    decreases records@.len(),
{
    if records.len() <= 1 {
        return records;
    }
    let ghost whole = views(records@);
    let mut left = records;
    let mid = left.len() / 2;
    let right = left.split_off(mid);
    proof {
        assert(views(left@) + views(right@) =~= whole);
    }
    let ghost first_half = views(left@);
    let ghost second_half = views(right@);
    let sorted_left = sort_records(left);
    let sorted_right = sort_records(right);
    let out = merge_runs(sorted_left, sorted_right);
    proof {
        assert forall|p: Seq<char>| #[trigger] of_path(views(out@), p) == of_path(whole, p) by {
            lemma_of_path_concat(views(sorted_left@), views(sorted_right@), p);
            lemma_of_path_concat(first_half, second_half, p);
            assert(of_path(views(sorted_left@), p) == of_path(first_half, p));
            assert(of_path(views(sorted_right@), p) == of_path(second_half, p));
        }
    }
    out
}

} // verus!

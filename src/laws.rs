use vstd::prelude::*;

use crate::args::Args;
use crate::disk_usage::{DiskUsage, EntryView};
use crate::order::{lemma_path_lt_asymmetric, lemma_path_lt_irreflexive, path_lt};
use crate::traversal::{
    entry_lt, entry_rel, expected, grand_total, is_report, is_strict_prefix, root_view,
    strictly_sorted, subtree_total, views, walk_well_formed, WalkEntry,
};

verus! {

proof fn lemma_entry_lt_asymmetric(a: EntryView, b: EntryView)
    requires
        entry_lt(a, b),
    ensures
        !entry_lt(b, a),
        a != b,
{
    lemma_path_lt_irreflexive(a.rel);
    if a.is_dir == b.is_dir {
        lemma_path_lt_asymmetric(a.rel, b.rel);
    }
}

proof fn lemma_sorted_unique(v1: Seq<EntryView>, v2: Seq<EntryView>)
    requires
        strictly_sorted(v1),
        strictly_sorted(v2),
        forall|x: EntryView| v1.contains(x) <==> v2.contains(x),
    ensures
        v1 == v2,
    decreases v1.len(),
{
    if v1.len() == 0 {
        if v2.len() > 0 {
            assert(v2.contains(v2[0]));
        }
        assert(v1 =~= v2);
    } else {
        assert(v1.contains(v1[0]));
        assert(v2.len() > 0);
        assert(v2.contains(v2[0]));
        let a = choose|a: int| 0 <= a < v2.len() && v2[a] == v1[0];
        let b = choose|b: int| 0 <= b < v1.len() && v1[b] == v2[0];
        if a > 0 {
            assert(entry_lt(v2[0], v1[0]));
            lemma_entry_lt_asymmetric(v2[0], v1[0]);
            if b > 0 {
                assert(entry_lt(v1[0], v2[0]));
            }
        }
        assert(v1[0] == v2[0]);
        let t1 = v1.drop_first();
        let t2 = v2.drop_first();
        assert forall|x: EntryView| t1.contains(x) <==> t2.contains(x) by {
            if t1.contains(x) {
                let i = choose|i: int| 0 <= i < t1.len() && t1[i] == x;
                assert(v1[i + 1] == x);
                assert(v1.contains(x));
                lemma_entry_lt_asymmetric(v1[0], v1[i + 1]);
                let j = choose|j: int| 0 <= j < v2.len() && v2[j] == x;
                assert(j != 0);
                assert(t2[j - 1] == x);
            }
            if t2.contains(x) {
                let i = choose|i: int| 0 <= i < t2.len() && t2[i] == x;
                assert(v2[i + 1] == x);
                assert(v2.contains(x));
                lemma_entry_lt_asymmetric(v2[0], v2[i + 1]);
                let j = choose|j: int| 0 <= j < v1.len() && v1[j] == x;
                assert(j != 0);
                assert(t1[j - 1] == x);
            }
        }
        lemma_sorted_unique(t1, t2);
        assert(v1 =~= seq![v1[0]] + t1);
        assert(v2 =~= seq![v2[0]] + t2);
    }
}

/// The report is a function of the tree: two reports over the same walk
/// and settings hold the same entries in the same order, shown alike.
pub proof fn report_is_unique(
    root: Seq<char>,
    es: Seq<WalkEntry>,
    args: Args,
    r1: Seq<DiskUsage>,
    r2: Seq<DiskUsage>,
)
    requires
        is_report(root, es, args, r1),
        is_report(root, es, args, r2),
    ensures
        views(r1) == views(r2),
        r1.len() == r2.len(),
        forall|k: int| 0 <= k < r1.len() ==> (#[trigger] r1[k]).path@ == r2[k].path@,
{
    lemma_sorted_unique(views(r1), views(r2));
    assert forall|k: int| 0 <= k < r1.len() implies (#[trigger] r1[k]).path@ == r2[k].path@ by {
        assert(views(r1)[k] == r1[k].view());
        assert(views(r2)[k] == r2[k].view());
    }
}

/// Every directory entry of a report holds the sum of the sizes of the
/// files below it, listed or not.
pub proof fn directory_sizes_are_subtree_sums(
    root: Seq<char>,
    es: Seq<WalkEntry>,
    args: Args,
    r: Seq<DiskUsage>,
    k: int,
)
    requires
        is_report(root, es, args, r),
        0 <= k < r.len(),
        r[k].is_dir,
    ensures
        r[k].size == subtree_total(es, args.logical, r[k].view().rel),
{
    assert(views(r)[k] == r[k].view());
    assert(views(r).contains(r[k].view()));
}

proof fn lemma_root_total(es: Seq<WalkEntry>, logical: bool)
    requires
        walk_well_formed(es),
    ensures
        subtree_total(es, logical, Seq::empty()) == grand_total(es, logical),
    decreases es.len(),
{
    if es.len() > 0 {
        let e = es.last();
        assert(es.drop_last().len() == es.len() - 1);
        assert forall|i: int| 0 <= i < es.drop_last().len() && (#[trigger] es.drop_last()[i]).is_file implies es.drop_last()[i].rel@.len() >= 1 by {
            assert(es.drop_last()[i] == es[i]);
        }
        assert forall|i: int, j: int|
            0 <= i < es.drop_last().len() && 0 <= j < es.drop_last().len() && i != j && (#[trigger] es.drop_last()[i]).is_file
                && (#[trigger] es.drop_last()[j]).is_file implies entry_rel(es.drop_last()[i]) != entry_rel(es.drop_last()[j]) by {
            assert(es.drop_last()[i] == es[i]);
            assert(es.drop_last()[j] == es[j]);
        }
        lemma_root_total(es.drop_last(), logical);
        if e.is_file {
            assert(es[es.len() - 1] == e);
            assert(entry_rel(e).subrange(0, 0) =~= Seq::<Seq<char>>::empty());
            assert(is_strict_prefix(Seq::empty(), entry_rel(e)));
        }
    }
}

/// The root comes first in a report of a directory, and its size is the sum
/// of the sizes of all files of the walk, whatever the depth limit.
pub proof fn root_holds_every_file(root: Seq<char>, es: Seq<WalkEntry>, args: Args, r: Seq<DiskUsage>)
    requires
        is_report(root, es, args, r),
        walk_well_formed(es),
    ensures
        r.len() >= 1,
        r[0].view() == root_view(es, args.logical),
        r[0].size == grand_total(es, args.logical),
{
    let rv = root_view(es, args.logical);
    assert(expected(es, args, rv));
    let t = choose|t: int| 0 <= t < views(r).len() && views(r)[t] == rv;
    if t > 0 {
        assert(entry_lt(views(r)[0], views(r)[t]));
    }
    assert(views(r)[0] == r[0].view());
    lemma_root_total(es, args.logical);
}

/// In a report directories come before files, and entries of one kind come
/// in path order.
pub proof fn report_is_ordered(
    root: Seq<char>,
    es: Seq<WalkEntry>,
    args: Args,
    r: Seq<DiskUsage>,
    i: int,
    j: int,
)
    requires
        is_report(root, es, args, r),
        0 <= i < r.len(),
        0 <= j < r.len(),
    ensures
        r[i].is_dir && !r[j].is_dir ==> i < j,
        r[i].is_dir == r[j].is_dir && i < j ==> path_lt(r[i].view().rel, r[j].view().rel),
{
    assert(views(r)[i] == r[i].view());
    assert(views(r)[j] == r[j].view());
    if i > j {
        assert(entry_lt(views(r)[j], views(r)[i]));
    } else if i < j {
        assert(entry_lt(views(r)[i], views(r)[j]));
    }
}

/// With a summary asked for and no files, the report is the root alone.
pub proof fn summary_is_root_alone(root: Seq<char>, es: Seq<WalkEntry>, args: Args, r: Seq<DiskUsage>)
    requires
        is_report(root, es, args, r),
        args.summarize,
        !args.all,
    ensures
        r.len() == 1,
        r[0].view() == root_view(es, args.logical),
{
    let rv = root_view(es, args.logical);
    assert(expected(es, args, rv));
    let t = choose|t: int| 0 <= t < views(r).len() && views(r)[t] == rv;
    assert forall|k: int| 0 <= k < r.len() implies views(r)[k] == rv by {
        assert(views(r).contains(views(r)[k]));
        let x = views(r)[k];
        if x.rel.len() == 0 {
            assert(x.rel =~= Seq::<Seq<char>>::empty());
        }
    }
    if r.len() > 1 {
        assert(entry_lt(views(r)[0], views(r)[1]));
        lemma_path_lt_irreflexive(rv.rel);
    }
    assert(views(r)[0] == r[0].view());
}

} // verus!

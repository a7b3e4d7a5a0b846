use vstd::prelude::*;

use crate::args::{shows_dirs, Args};
use crate::disk_usage::{join_path, joined, DiskUsage, EntryView};
use crate::order::{
    comps, lemma_path_lt_irreflexive, lemma_path_lt_total, lemma_path_lt_transitive, path_equal,
    path_less, path_lt, RelPath,
};

verus! {

/// One entry met while walking a directory tree.
#[derive(Clone, Debug)]
pub struct WalkEntry {
    /// The components of its path below the root of the walk.
    pub rel: Vec<String>,
    /// Whether it is a regular file; other entries count for nothing.
    pub is_file: bool,
    /// Its length in bytes.
    pub len: u64,
    /// The number of 512-byte blocks allocated to it.
    pub blocks: u64,
}

/// What the root path turned out to be.
#[derive(Clone, Copy, Debug)]
pub enum RootKind {
    Missing,
    File { len: u64, blocks: u64 },
    Directory,
}

/// Why a run failed.
#[derive(Clone, Debug)]
pub enum UsageError {
    /// The root path does not exist.
    NotFound(String),
    /// The metadata of the named path could not be read.
    MetadataUnavailable(String),
    /// The walk itself failed at the named path.
    TraversalFailure(String),
}

/// The size counted for a file: its length, or its allocated blocks.
pub open spec fn file_size(logical: bool, len: u64, blocks: u64) -> nat {
    if logical {
        len as nat
    } else {
        blocks as nat * 512
    }
}

pub open spec fn entry_rel(e: WalkEntry) -> RelPath {
    comps(e.rel@)
}

pub open spec fn entry_size(e: WalkEntry, logical: bool) -> nat {
    file_size(logical, e.len, e.blocks)
}

/// `d` is a directory that holds the path `p`, at any depth.
pub open spec fn is_strict_prefix(d: RelPath, p: RelPath) -> bool {
    d.len() < p.len() && p.subrange(0, d.len() as int) == d
}

/// The sum of the sizes of the files of the walk that lie below `d`.
pub open spec fn subtree_total(es: Seq<WalkEntry>, logical: bool, d: RelPath) -> nat
    decreases es.len(),
{
    if es.len() == 0 {
        0
    } else {
        subtree_total(es.drop_last(), logical, d) + if es.last().is_file && is_strict_prefix(
            d,
            entry_rel(es.last()),
        ) {
            entry_size(es.last(), logical)
        } else {
            0
        }
    }
}

/// The sum of the sizes of all files of the walk.
pub open spec fn grand_total(es: Seq<WalkEntry>, logical: bool) -> nat
    decreases es.len(),
{
    if es.len() == 0 {
        0
    } else {
        grand_total(es.drop_last(), logical) + if es.last().is_file {
            entry_size(es.last(), logical)
        } else {
            0
        }
    }
}

/// Some file of the walk lies below `d`.
pub open spec fn has_file_under(es: Seq<WalkEntry>, d: RelPath) -> bool {
    exists|i: int| 0 <= i < es.len() && es[i].is_file && is_strict_prefix(d, entry_rel(es[i]))
}

/// A file that is reported on its own.
pub open spec fn lists_file(args: Args, e: WalkEntry) -> bool {
    e.is_file && args.all && e.rel@.len() <= args.max_depth
}

/// The entries that a report over the walk `es` holds.
pub open spec fn expected(es: Seq<WalkEntry>, args: Args, x: EntryView) -> bool {
    ||| (x.is_dir && x.rel.len() == 0 && x.size == subtree_total(es, args.logical, x.rel))
    ||| (x.is_dir && shows_dirs(args) && 1 <= x.rel.len() < args.max_depth && has_file_under(
        es,
        x.rel,
    ) && x.size == subtree_total(es, args.logical, x.rel))
    ||| (!x.is_dir && exists|i: int|
        0 <= i < es.len() && lists_file(args, #[trigger] es[i]) && x.rel == entry_rel(es[i])
            && x.size == entry_size(es[i], args.logical))
}

/// Report order: directories before files, then by path.
pub open spec fn entry_lt(a: EntryView, b: EntryView) -> bool {
    (a.is_dir && !b.is_dir) || (a.is_dir == b.is_dir && path_lt(a.rel, b.rel))
}

pub open spec fn views(r: Seq<DiskUsage>) -> Seq<EntryView> {
    r.map_values(|u: DiskUsage| u.view())
}

pub open spec fn strictly_sorted(v: Seq<EntryView>) -> bool {
    forall|i: int, j: int| 0 <= i < j < v.len() ==> entry_lt(v[i], v[j])
}

/// `r` is the report over the walk `es` below `root`: the expected entries,
/// each once, in report order, each shown as the root joined with its path.
pub open spec fn is_report(root: Seq<char>, es: Seq<WalkEntry>, args: Args, r: Seq<DiskUsage>) -> bool {
    &&& strictly_sorted(views(r))
    &&& forall|x: EntryView| views(r).contains(x) <==> expected(es, args, x)
    &&& forall|k: int| 0 <= k < r.len() ==> (#[trigger] r[k]).path@ == joined(root, r[k].view().rel)
}

/// A walk below a directory: files lie below the root and no file is met twice.
pub open spec fn walk_well_formed(es: Seq<WalkEntry>) -> bool {
    &&& forall|i: int| 0 <= i < es.len() && (#[trigger] es[i]).is_file ==> es[i].rel@.len() >= 1
    &&& forall|i: int, j: int|
        0 <= i < es.len() && 0 <= j < es.len() && i != j && (#[trigger] es[i]).is_file
            && (#[trigger] es[j]).is_file ==> entry_rel(es[i]) != entry_rel(es[j])
}

/// The running total of one directory.
struct DirTotal {
    rel: Vec<String>,
    size: u64,
}

spec fn key(t: DirTotal) -> RelPath {
    comps(t.rel@)
}

spec fn key_sorted(acc: Seq<DirTotal>) -> bool {
    forall|i: int, j: int| 0 <= i < j < acc.len() ==> path_lt(key(acc[i]), key(acc[j]))
}

spec fn in_keys(acc: Seq<DirTotal>, d: RelPath) -> bool {
    exists|k: int| 0 <= k < acc.len() && key(acc[k]) == d
}

spec fn lookup(acc: Seq<DirTotal>, d: RelPath) -> nat {
    if in_keys(acc, d) {
        acc[choose|k: int| 0 <= k < acc.len() && key(acc[k]) == d].size as nat
    } else {
        0
    }
}

proof fn lemma_lookup(acc: Seq<DirTotal>, k: int)
    requires
        key_sorted(acc),
        0 <= k < acc.len(),
    ensures
        in_keys(acc, key(acc[k])),
        lookup(acc, key(acc[k])) == acc[k].size,
{
    let d = key(acc[k]);
    assert(in_keys(acc, d));
    let k2 = choose|k2: int| 0 <= k2 < acc.len() && key(acc[k2]) == d;
    if k2 != k {
        lemma_path_lt_irreflexive(d);
    }
}

/// Adds `amount` to the total of `key`, which starts at zero if absent.
fn add_to(acc: &mut Vec<DirTotal>, key: Vec<String>, amount: u64)
    requires
        key_sorted(old(acc)@),
        lookup(old(acc)@, comps(key@)) + amount <= u64::MAX,
    ensures
        key_sorted(final(acc)@),
        forall|d: RelPath| in_keys(final(acc)@, d) <==> (in_keys(old(acc)@, d) || d == comps(key@)),
        forall|d: RelPath|
            lookup(final(acc)@, d) == lookup(old(acc)@, d) + if d == comps(key@) {
                amount as nat
            } else {
                0nat
            },
{
    let ghost k = comps(key@);
    let ghost o = acc@;
    let mut p: usize = 0;
    while p < acc.len() && path_less(&acc[p].rel, &key)
        invariant
            acc@ == o,
            key_sorted(o),
            p <= o.len(),
            k == comps(key@),
            forall|q: int| 0 <= q < p ==> path_lt(#[trigger] self::key(o[q]), k),
        decreases o.len() - p,
    {
        p = p + 1;
    }
    if p < acc.len() && path_equal(&acc[p].rel, &key) {
        proof {
            lemma_lookup(o, p as int);
        }
        let total = acc[p].size + amount;
        acc.set(p, DirTotal { rel: key, size: total });
        proof {
            let f = acc@;
            assert forall|d: RelPath| in_keys(f, d) <==> (in_keys(o, d) || d == k) by {
                if in_keys(f, d) {
                    let q = choose|q: int| 0 <= q < f.len() && self::key(f[q]) == d;
                    assert(self::key(o[q]) == d);
                }
                if in_keys(o, d) {
                    let q = choose|q: int| 0 <= q < o.len() && self::key(o[q]) == d;
                    assert(self::key(f[q]) == d);
                }
                if d == k {
                    assert(self::key(f[p as int]) == d);
                }
            }
            assert forall|i: int, j: int| 0 <= i < j < f.len() implies path_lt(
                self::key(f[i]),
                self::key(f[j]),
            ) by {
                assert(self::key(f[i]) == self::key(o[i]));
                assert(self::key(f[j]) == self::key(o[j]));
            }
            assert forall|d: RelPath|
                lookup(f, d) == lookup(o, d) + if d == k {
                    amount as nat
                } else {
                    0nat
                } by {
                if d == k {
                    lemma_lookup(f, p as int);
                } else if in_keys(o, d) {
                    let q = choose|q: int| 0 <= q < o.len() && self::key(o[q]) == d;
                    lemma_lookup(o, q);
                    lemma_lookup(f, q);
                }
            }
        }
    } else {
        proof {
            if p < o.len() {
                lemma_path_lt_total(self::key(o[p as int]), k);
            }
            assert forall|q: int| 0 <= q < o.len() implies self::key(o[q]) != k by {
                if q < p {
                    lemma_path_lt_irreflexive(k);
                } else if q > p {
                    lemma_path_lt_transitive(k, self::key(o[p as int]), self::key(o[q]));
                    lemma_path_lt_irreflexive(k);
                }
            }
            assert(!in_keys(o, k));
        }
        acc.insert(p, DirTotal { rel: key, size: amount });
        proof {
            let f = acc@;
            assert(f == o.insert(p as int, DirTotal { rel: key, size: amount }));
            assert forall|i: int, j: int| 0 <= i < j < f.len() implies path_lt(
                self::key(f[i]),
                self::key(f[j]),
            ) by {
                if j < p {
                } else if i < p && j == p {
                } else if i < p && j > p {
                    assert(f[j] == o[j - 1]);
                } else if i == p {
                    assert(f[j] == o[j - 1]);
                    if j - 1 > p {
                        lemma_path_lt_transitive(k, self::key(o[p as int]), self::key(o[j - 1]));
                    }
                } else {
                    assert(f[i] == o[i - 1]);
                    assert(f[j] == o[j - 1]);
                }
            }
            assert forall|d: RelPath| in_keys(f, d) <==> (in_keys(o, d) || d == k) by {
                if in_keys(f, d) {
                    let q = choose|q: int| 0 <= q < f.len() && self::key(f[q]) == d;
                    if q < p {
                        assert(self::key(o[q]) == d);
                    } else if q > p {
                        assert(self::key(o[q - 1]) == d);
                    }
                }
                if in_keys(o, d) {
                    let q = choose|q: int| 0 <= q < o.len() && self::key(o[q]) == d;
                    if q < p {
                        assert(self::key(f[q]) == d);
                    } else {
                        assert(self::key(f[q + 1]) == d);
                    }
                }
                if d == k {
                    assert(self::key(f[p as int]) == d);
                }
            }
            assert forall|d: RelPath|
                lookup(f, d) == lookup(o, d) + if d == k {
                    amount as nat
                } else {
                    0nat
                } by {
                if d == k {
                    lemma_lookup(f, p as int);
                } else if in_keys(o, d) {
                    let q = choose|q: int| 0 <= q < o.len() && self::key(o[q]) == d;
                    lemma_lookup(o, q);
                    if q < p {
                        lemma_lookup(f, q);
                    } else {
                        assert(f[q + 1] == o[q]);
                        lemma_lookup(f, q + 1);
                    }
                } else {
                    if in_keys(f, d) {
                        let q = choose|q: int| 0 <= q < f.len() && self::key(f[q]) == d;
                        if q < p {
                            assert(self::key(o[q]) == d);
                        } else if q > p {
                            assert(self::key(o[q - 1]) == d);
                        }
                    }
                }
            }
        }
    }
}

/// Puts a file entry into its place among files sorted by path.
fn insert_file(files: &mut Vec<DiskUsage>, u: DiskUsage) -> (p: usize)
    requires
        strictly_sorted(views(old(files)@)),
        !u.is_dir,
        forall|k: int| 0 <= k < old(files)@.len() ==> !(#[trigger] old(files)@[k]).is_dir,
        forall|k: int| 0 <= k < old(files)@.len() ==> (#[trigger] old(files)@[k]).view().rel != u.view().rel,
    ensures
        p <= old(files)@.len(),
        final(files)@ == old(files)@.insert(p as int, u),
        strictly_sorted(views(final(files)@)),
{
    let ghost o = old(files)@;
    let ghost k = u.view().rel;
    let mut p: usize = 0;
    while p < files.len() && path_less(&files[p].rel, &u.rel)
        invariant
            files@ == o,
            strictly_sorted(views(o)),
            p <= o.len(),
            k == comps(u.rel@),
            forall|q: int| 0 <= q < p ==> path_lt(#[trigger] o[q].view().rel, k),
        decreases o.len() - p,
    {
        p = p + 1;
    }
    proof {
        if p < o.len() {
            assert(views(o)[p as int] == o[p as int].view());
            lemma_path_lt_total(o[p as int].view().rel, k);
        }
    }
    files.insert(p, u);
    proof {
        let f = files@;
        let vf = views(f);
        let vo = views(o);
        assert forall|i: int, j: int| 0 <= i < j < vf.len() implies entry_lt(vf[i], vf[j]) by {
            assert(vf[i] == f[i].view());
            assert(vf[j] == f[j].view());
            if j < p {
                assert(vo[i] == o[i].view());
                assert(vo[j] == o[j].view());
            } else if i < p && j == p {
            } else if i < p && j > p {
                assert(vo[i] == o[i].view());
                assert(vo[j - 1] == o[j - 1].view());
            } else if i == p {
                assert(vo[p as int] == o[p as int].view());
                assert(vo[j - 1] == o[j - 1].view());
                if j - 1 > p {
                    assert(entry_lt(vo[p as int], vo[j - 1]));
                    lemma_path_lt_transitive(k, o[p as int].view().rel, o[j - 1].view().rel);
                }
            } else {
                assert(vo[i - 1] == o[i - 1].view());
                assert(vo[j - 1] == o[j - 1].view());
            }
        }
    }
    p
}

/// The first `n` components of `v`.
fn leading_names(v: &Vec<String>, n: usize) -> (r: Vec<String>)
    requires
        n <= v@.len(),
    ensures
        comps(r@) == comps(v@).subrange(0, n as int),
        r@.len() == n,
{
    let mut r: Vec<String> = Vec::new();
    let mut i: usize = 0;
    while i < n
        invariant
            i <= n,
            n <= v@.len(),
            r@.len() == i,
            forall|k: int| 0 <= k < i ==> (#[trigger] r@[k])@ == v@[k]@,
        decreases n - i,
    {
        r.push(v[i].clone());
        i = i + 1;
    }
    assert(comps(r@) =~= comps(v@).subrange(0, n as int));
    r
}

/// The size counted for a file.
pub fn size_of_file(logical: bool, len: u64, blocks: u64) -> (r: u64)
    requires
        file_size(logical, len, blocks) <= u64::MAX,
    ensures
        r == file_size(logical, len, blocks),
{
    if logical {
        len
    } else {
        blocks * crate::BLOCK_SIZE
    }
}

proof fn lemma_subtree_le_grand(es: Seq<WalkEntry>, logical: bool, d: RelPath)
    ensures
        subtree_total(es, logical, d) <= grand_total(es, logical),
    decreases es.len(),
{
    if es.len() > 0 {
        lemma_subtree_le_grand(es.drop_last(), logical, d);
    }
}

proof fn lemma_grand_prefix(es: Seq<WalkEntry>, logical: bool, n: int)
    requires
        0 <= n <= es.len(),
    ensures
        grand_total(es.subrange(0, n), logical) <= grand_total(es, logical),
    decreases es.len(),
{
    if n < es.len() {
        assert(es.drop_last().subrange(0, n) =~= es.subrange(0, n));
        lemma_grand_prefix(es.drop_last(), logical, n);
    } else {
        assert(es.subrange(0, n) =~= es);
    }
}

proof fn lemma_step(es: Seq<WalkEntry>, i: int)
    requires
        0 <= i < es.len(),
    ensures
        es.subrange(0, i + 1).drop_last() == es.subrange(0, i),
        es.subrange(0, i + 1).last() == es[i],
        forall|d: RelPath|
            has_file_under(es.subrange(0, i + 1), d) <==> (has_file_under(es.subrange(0, i), d) || (
            es[i].is_file && is_strict_prefix(d, entry_rel(es[i])))),
{
    let a = es.subrange(0, i + 1);
    let b = es.subrange(0, i);
    assert(a.drop_last() =~= b);
    assert forall|d: RelPath|
        has_file_under(a, d) <==> (has_file_under(b, d) || (es[i].is_file && is_strict_prefix(
            d,
            entry_rel(es[i]),
        ))) by {
        if has_file_under(a, d) {
            let j = choose|j: int|
                0 <= j < a.len() && a[j].is_file && is_strict_prefix(d, entry_rel(a[j]));
            if j < i {
                assert(b[j] == a[j]);
            }
        }
        if has_file_under(b, d) {
            let j = choose|j: int|
                0 <= j < b.len() && b[j].is_file && is_strict_prefix(d, entry_rel(b[j]));
            assert(a[j] == b[j]);
        }
        if es[i].is_file && is_strict_prefix(d, entry_rel(es[i])) {
            assert(a[i] == es[i]);
        }
    }
}

/// A file that the first `n` entries of the walk list on its own.
pub open spec fn listed_before(es: Seq<WalkEntry>, args: Args, n: int, x: EntryView) -> bool {
    !x.is_dir && exists|i: int|
        0 <= i < n && lists_file(args, #[trigger] es[i]) && x.rel == entry_rel(es[i]) && x.size
            == entry_size(es[i], args.logical)
}

/// One pass over the walk: the total of every directory that holds a file,
/// and the files that are listed on their own, sorted by path.
fn accumulate(root: &String, walk: &Vec<WalkEntry>, args: &Args) -> (r: (Vec<DirTotal>, Vec<DiskUsage>))
    requires
        walk_well_formed(walk@),
        grand_total(walk@, args.logical) <= u64::MAX,
    ensures
        key_sorted(r.0@),
        forall|d: RelPath| in_keys(r.0@, d) <==> has_file_under(walk@, d),
        forall|d: RelPath| lookup(r.0@, d) == subtree_total(walk@, args.logical, d),
        strictly_sorted(views(r.1@)),
        forall|k: int| 0 <= k < r.1@.len() ==> !(#[trigger] r.1@[k]).is_dir,
        forall|x: EntryView| views(r.1@).contains(x) <==> listed_before(walk@, *args, walk@.len() as int, x),
        forall|k: int|
            0 <= k < r.1@.len() ==> (#[trigger] r.1@[k]).path@ == joined(root@, r.1@[k].view().rel),
{
    let mut acc: Vec<DirTotal> = Vec::new();
    let mut files: Vec<DiskUsage> = Vec::new();
    let ghost lg = args.logical;
    let mut i: usize = 0;
    proof {
        assert(walk@.subrange(0, 0).len() == 0);
    }
    while i < walk.len()
        invariant
            i <= walk@.len(),
            walk_well_formed(walk@),
            grand_total(walk@, lg) <= u64::MAX,
            lg == args.logical,
            key_sorted(acc@),
            forall|d: RelPath| in_keys(acc@, d) <==> has_file_under(walk@.subrange(0, i as int), d),
            forall|d: RelPath| lookup(acc@, d) == subtree_total(walk@.subrange(0, i as int), lg, d),
            strictly_sorted(views(files@)),
            forall|k: int| 0 <= k < files@.len() ==> !(#[trigger] files@[k]).is_dir,
            forall|x: EntryView| views(files@).contains(x) <==> listed_before(walk@, *args, i as int, x),
            forall|k: int|
                0 <= k < files@.len() ==> (#[trigger] files@[k]).path@ == joined(
                    root@,
                    files@[k].view().rel,
                ),
        decreases walk@.len() - i,
    {
        let e = &walk[i];
        proof {
            lemma_step(walk@, i as int);
        }
        let ghost pre = walk@.subrange(0, i as int);
        let ghost post = walk@.subrange(0, i as int + 1);
        if e.is_file {
            let ghost c = entry_rel(*e);
            proof {
                assert(grand_total(post, lg) == grand_total(pre, lg) + entry_size(*e, lg));
                lemma_grand_prefix(walk@, lg, i as int + 1);
            }
            let sz = size_of_file(args.logical, e.len, e.blocks);
            if args.all && e.rel.len() <= args.max_depth {
                let u = DiskUsage {
                    path: join_path(root, &e.rel),
                    rel: leading_names(&e.rel, e.rel.len()),
                    size: sz,
                    is_dir: false,
                };
                proof {
                    assert(comps(e.rel@).subrange(0, e.rel@.len() as int) =~= comps(e.rel@));
                    assert forall|k: int| 0 <= k < files@.len() implies (#[trigger] files@[k]).view().rel
                        != u.view().rel by {
                        assert(views(files@)[k] == files@[k].view());
                        assert(views(files@).contains(files@[k].view()));
                        let j = choose|j: int|
                            0 <= j < i && lists_file(*args, #[trigger] walk@[j]) && files@[k].view().rel
                                == entry_rel(walk@[j]) && files@[k].view().size == entry_size(
                                walk@[j],
                                lg,
                            );
                        assert(j != i);
                    }
                }
                let ghost old_files = files@;
                assert(forall|x: EntryView| views(old_files).contains(x) <==> listed_before(walk@, *args, i as int, x));
                let p = insert_file(&mut files, u);
                proof {
                    assert forall|k: int| 0 <= k < files@.len() implies !(#[trigger] files@[k]).is_dir
                        && files@[k].path@ == joined(root@, files@[k].view().rel) by {
                        if k < p {
                            assert(files@[k] == old_files[k]);
                        } else if k > p {
                            assert(files@[k] == old_files[k - 1]);
                        }
                    }
                    assert forall|x: EntryView| views(files@).contains(x) <==> listed_before(
                        walk@,
                        *args,
                        i + 1,
                        x,
                    ) by {
                        if views(files@).contains(x) {
                            let k = choose|k: int| 0 <= k < views(files@).len() && views(files@)[k] == x;
                            if k < p {
                                assert(views(old_files)[k] == x);
                                assert(views(old_files).contains(x));
                            } else if k > p {
                                assert(views(old_files)[k - 1] == x);
                                assert(views(old_files).contains(x));
                            } else {
                                assert(lists_file(*args, walk@[i as int]));
                            }
                        }
                        if listed_before(walk@, *args, i + 1, x) {
                            let j = choose|j: int|
                                0 <= j < i + 1 && lists_file(*args, #[trigger] walk@[j]) && x.rel
                                    == entry_rel(walk@[j]) && x.size == entry_size(walk@[j], lg);
                            if j < i {
                                assert(listed_before(walk@, *args, i as int, x));
                                assert(views(old_files).contains(x));
                                let k = choose|k: int|
                                    0 <= k < views(old_files).len() && views(old_files)[k] == x;
                                if k < p {
                                    assert(views(files@)[k] == x);
                                } else {
                                    assert(views(files@)[k + 1] == x);
                                }
                            } else {
                                assert(views(files@)[p as int] == x);
                            }
                        }
                    }
                }
            } else {
                proof {
                    assert forall|x: EntryView| listed_before(walk@, *args, i + 1, x)
                        implies listed_before(walk@, *args, i as int, x) by {
                        let j = choose|j: int|
                            0 <= j < i + 1 && lists_file(*args, #[trigger] walk@[j]) && x.rel
                                == entry_rel(walk@[j]) && x.size == entry_size(walk@[j], lg);
                        assert(j != i);
                    }
                }
            }
            let mut m: usize = 0;
            while m < e.rel.len()
                invariant
                    m <= e.rel@.len(),
                    i < walk@.len(),
                    c == comps(e.rel@),
                    e.is_file,
                    sz == entry_size(*e, lg),
                    *e == walk@[i as int],
                    pre == walk@.subrange(0, i as int),
                    post == walk@.subrange(0, i as int + 1),
                    post.drop_last() == pre,
                    post.last() == *e,
                    grand_total(post, lg) <= u64::MAX,
                    grand_total(post, lg) == grand_total(pre, lg) + sz,
                    key_sorted(acc@),
                    forall|d: RelPath| in_keys(acc@, d) <==> (has_file_under(pre, d) || (is_strict_prefix(d, c) && d.len() < m)),
                    forall|d: RelPath| lookup(acc@, d) == subtree_total(pre, lg, d) + if is_strict_prefix(d, c) && d.len() < m {
                        sz as nat
                    } else {
                        0nat
                    },
                decreases e.rel@.len() - m,
            {
                let prefix = leading_names(&e.rel, m);
                let ghost pk = comps(prefix@);
                proof {
                    assert(pk.len() == m);
                    assert(is_strict_prefix(pk, c));
                    assert(is_strict_prefix(pk, entry_rel(post.last())));
                    lemma_subtree_le_grand(post, lg, pk);
                    assert(subtree_total(post, lg, pk) == subtree_total(pre, lg, pk) + sz);
                }
                let ghost before = acc@;
                add_to(&mut acc, prefix, sz);
                let ghost m0 = m as int;
                m = m + 1;
                proof {
                    assert forall|d: RelPath| (is_strict_prefix(d, c) && d.len() < m) <==> ((
                        is_strict_prefix(d, c) && d.len() < m0) || d == pk) by {
                        if is_strict_prefix(d, c) && d.len() == m0 {
                            assert(d =~= pk);
                        }
                    }
                    assert forall|d: RelPath| lookup(acc@, d) == subtree_total(pre, lg, d) + if is_strict_prefix(d, c) && d.len() < m {
                        sz as nat
                    } else {
                        0nat
                    } by {
                        assert(lookup(acc@, d) == lookup(before, d) + if d == pk { sz as nat } else { 0nat });
                        assert(lookup(before, d) == subtree_total(pre, lg, d) + if is_strict_prefix(d, c) && d.len() < m0 {
                            sz as nat
                        } else {
                            0nat
                        });
                        if is_strict_prefix(d, c) && d.len() == m0 {
                            assert(d =~= pk);
                        }
                    }
                }
            }
            proof {
                assert forall|d: RelPath| lookup(acc@, d) == subtree_total(post, lg, d) && (in_keys(acc@, d) <==> has_file_under(post, d)) by {
                    assert(is_strict_prefix(d, c) ==> d.len() < m);
                }
            }
        } else {
            proof {
                assert forall|d: RelPath| lookup(acc@, d) == subtree_total(post, lg, d) by {}
                assert forall|x: EntryView| listed_before(walk@, *args, i + 1, x)
                    implies listed_before(walk@, *args, i as int, x) by {
                    let j = choose|j: int|
                        0 <= j < i + 1 && lists_file(*args, #[trigger] walk@[j]) && x.rel
                            == entry_rel(walk@[j]) && x.size == entry_size(walk@[j], lg);
                    assert(j != i);
                }
            }
        }
        i = i + 1;
    }
    proof {
        assert(walk@.subrange(0, walk@.len() as int) =~= walk@);
    }
    (acc, files)
}

/// The entry of the root directory with its total.
pub open spec fn root_view(es: Seq<WalkEntry>, logical: bool) -> EntryView {
    EntryView { rel: Seq::empty(), size: subtree_total(es, logical, Seq::empty()), is_dir: true }
}

spec fn dir_view(t: DirTotal) -> EntryView {
    EntryView { rel: key(t), size: t.size as nat, is_dir: true }
}

spec fn shown(args: Args, t: DirTotal) -> bool {
    1 <= key(t).len() < args.max_depth
}

/// A report with the entries of one file root: that file alone.
pub open spec fn is_file_report(root: Seq<char>, size: nat, r: Seq<DiskUsage>) -> bool {
    &&& r.len() == 1
    &&& r[0].view() == EntryView { rel: Seq::empty(), size, is_dir: false }
    &&& r[0].path@ == root
}

/// The report of a directory root over its walk.
fn directory_report(root: &String, walk: &Vec<WalkEntry>, args: &Args) -> (r: Vec<DiskUsage>)
    requires
        walk_well_formed(walk@),
        grand_total(walk@, args.logical) <= u64::MAX,
    ensures
        is_report(root@, walk@, *args, r@),
{
    let (acc, mut files) = accumulate(root, walk, args);
    let ghost es = walk@;
    let ghost empty: RelPath = Seq::empty();
    let has_root = acc.len() > 0 && acc[0].rel.len() == 0;
    let root_total: u64 = if has_root {
        acc[0].size
    } else {
        0
    };
    proof {
        if has_root {
            assert(key(acc@[0]) =~= empty);
            lemma_lookup(acc@, 0);
        }
        assert forall|q: int| 0 < q < acc@.len() implies key(acc@[q]).len() >= 1 by {
            if key(acc@[q]).len() == 0 {
                assert(path_lt(key(acc@[0]), key(acc@[q])));
            }
        }
        if !has_root {
            assert forall|q: int| 0 <= q < acc@.len() implies key(acc@[q]) != empty by {}
            assert(!in_keys(acc@, empty));
        }
        assert(lookup(acc@, empty) == subtree_total(es, args.logical, empty));
        assert(root_total == subtree_total(es, args.logical, empty));
    }
    let rel_root: Vec<String> = Vec::new();
    proof {
        assert(comps(rel_root@) =~= empty);
    }
    let mut out: Vec<DiskUsage> = Vec::new();
    out.push(DiskUsage { path: root.clone(), rel: rel_root, size: root_total, is_dir: true });
    let k0: usize = if has_root {
        1
    } else {
        0
    };
    let mut k: usize = k0;
    let ghost rv = root_view(es, args.logical);
    proof {
        assert(out@[0].view() == rv);
        assert(views(out@) =~= seq![rv]);
        assert forall|x: EntryView| views(out@).contains(x) <==> x == rv by {
            if x == rv {
                assert(views(out@)[0] == x);
            }
        }
    }
    if !args.summarize || args.all {
        while k < acc.len()
            invariant
                k0 <= k <= acc@.len(),
                key_sorted(acc@),
                forall|q: int| k0 <= q < acc@.len() ==> key(#[trigger] acc@[q]).len() >= 1,
                out@.len() >= 1,
                out@[0].view() == rv,
                rv.rel.len() == 0,
                strictly_sorted(views(out@)),
                forall|t: int| 0 <= t < out@.len() ==> (#[trigger] out@[t]).is_dir,
                forall|t: int, q: int|
                    0 <= t < out@.len() && k <= q < acc@.len() ==> path_lt(
                        (#[trigger] out@[t]).view().rel,
                        key(#[trigger] acc@[q]),
                    ),
                forall|x: EntryView| views(out@).contains(x) <==> (x == rv || exists|q: int|
                    k0 <= q < k && shown(*args, #[trigger] acc@[q]) && x == dir_view(acc@[q])),
                forall|t: int| 0 <= t < out@.len() ==> (#[trigger] out@[t]).path@ == joined(root@, out@[t].view().rel),
            decreases acc@.len() - k,
        {
            let n = acc[k].rel.len();
            let ghost before = out@;
            if 1 <= n && n < args.max_depth {
                let u = DiskUsage {
                    path: join_path(root, &acc[k].rel),
                    rel: leading_names(&acc[k].rel, n),
                    size: acc[k].size,
                    is_dir: true,
                };
                proof {
                    assert(comps(acc@[k as int].rel@).subrange(0, n as int) =~= key(acc@[k as int]));
                }
                out.push(u);
                proof {
                    assert(out@ == before.push(u));
                    assert(u.view() == dir_view(acc@[k as int]));
                    let vo = views(out@);
                    let vb = views(before);
                    assert forall|i: int, j: int| 0 <= i < j < vo.len() implies entry_lt(vo[i], vo[j]) by {
                        assert(vo[i] == out@[i].view());
                        assert(vo[j] == out@[j].view());
                        if j < before.len() {
                            assert(vb[i] == before[i].view());
                            assert(vb[j] == before[j].view());
                        } else {
                            assert(path_lt(before[i].view().rel, key(acc@[k as int])));
                        }
                    }
                    assert forall|t: int, q: int|
                        0 <= t < out@.len() && k + 1 <= q < acc@.len() implies path_lt(
                            (#[trigger] out@[t]).view().rel,
                            key(#[trigger] acc@[q]),
                        ) by {
                        if t == before.len() {
                            assert(path_lt(key(acc@[k as int]), key(acc@[q])));
                        } else {
                            assert(out@[t] == before[t]);
                        }
                    }
                    assert forall|x: EntryView| vo.contains(x) <==> (x == rv || exists|q: int|
                        k0 <= q < k + 1 && shown(*args, #[trigger] acc@[q]) && x == dir_view(acc@[q])) by {
                        if vo.contains(x) {
                            let t = choose|t: int| 0 <= t < vo.len() && vo[t] == x;
                            if t < before.len() {
                                assert(vb[t] == x);
                                assert(vb.contains(x));
                            } else {
                                assert(x == dir_view(acc@[k as int]));
                            }
                        }
                        if x == rv || exists|q: int|
                            k0 <= q < k + 1 && shown(*args, #[trigger] acc@[q]) && x == dir_view(acc@[q]) {
                            if x == rv || exists|q: int|
                                k0 <= q < k && shown(*args, #[trigger] acc@[q]) && x == dir_view(acc@[q]) {
                                assert(vb.contains(x));
                                let t = choose|t: int| 0 <= t < vb.len() && vb[t] == x;
                                assert(vo[t] == x);
                            } else {
                                assert(vo[before.len() as int] == x);
                            }
                        }
                    }
                    assert forall|t: int| 0 <= t < out@.len() implies (#[trigger] out@[t]).path@ == joined(root@, out@[t].view().rel)
                        && out@[t].is_dir by {
                        if t < before.len() {
                            assert(out@[t] == before[t]);
                        }
                    }
                }
            } else {
                proof {
                    assert forall|x: EntryView| views(out@).contains(x) <==> (x == rv || exists|q: int|
                        k0 <= q < k + 1 && shown(*args, #[trigger] acc@[q]) && x == dir_view(acc@[q])) by {
                        if exists|q: int|
                            k0 <= q < k + 1 && shown(*args, #[trigger] acc@[q]) && x == dir_view(acc@[q]) {
                            let q = choose|q: int|
                                k0 <= q < k + 1 && shown(*args, #[trigger] acc@[q]) && x == dir_view(acc@[q]);
                            assert(q != k);
                        }
                    }
                }
            }
            k = k + 1;
        }
    }
    proof {
        let vo = views(out@);
        assert forall|x: EntryView| vo.contains(x) && !(x == rv) implies x.is_dir && shows_dirs(*args)
            && 1 <= x.rel.len() < args.max_depth && has_file_under(es, x.rel) && x.size == subtree_total(
            es,
            args.logical,
            x.rel,
        ) by {
            let q = choose|q: int| k0 <= q < k && shown(*args, #[trigger] acc@[q]) && x == dir_view(acc@[q]);
            lemma_lookup(acc@, q);
        }
        assert forall|x: EntryView|
            x.is_dir && shows_dirs(*args) && 1 <= x.rel.len() < args.max_depth && has_file_under(es, x.rel)
                && x.size == subtree_total(es, args.logical, x.rel) implies vo.contains(x) by {
            assert(in_keys(acc@, x.rel));
            let q = choose|q: int| 0 <= q < acc@.len() && key(acc@[q]) == x.rel;
            lemma_lookup(acc@, q);
            if q < k0 {
                assert(key(acc@[0]).len() == 0);
            }
            assert(k == acc@.len());
            assert(shown(*args, acc@[q]) && x == dir_view(acc@[q]));
        }
    }
    let ghost dirs = out@;
    let ghost listed = files@;
    out.append(&mut files);
    proof {
        let vo = views(out@);
        let vd = views(dirs);
        assert(out@ == dirs + listed);
        assert forall|i: int, j: int| 0 <= i < j < vo.len() implies entry_lt(vo[i], vo[j]) by {
            assert(vo[i] == out@[i].view());
            assert(vo[j] == out@[j].view());
            if j < dirs.len() {
                assert(vd[i] == dirs[i].view());
                assert(vd[j] == dirs[j].view());
            } else if i >= dirs.len() {
                assert(views(listed)[i - dirs.len()] == listed[i - dirs.len()].view());
                assert(views(listed)[j - dirs.len()] == listed[j - dirs.len()].view());
                assert(out@[i] == listed[i - dirs.len()]);
                assert(out@[j] == listed[j - dirs.len()]);
            } else {
                assert(out@[i] == dirs[i]);
                assert(out@[j] == listed[j - dirs.len()]);
            }
        }
        assert forall|x: EntryView| vo.contains(x) <==> expected(es, *args, x) by {
            if vo.contains(x) {
                let t = choose|t: int| 0 <= t < vo.len() && vo[t] == x;
                if t < dirs.len() {
                    assert(vd[t] == x);
                    assert(vd.contains(x));
                } else {
                    assert(views(listed)[t - dirs.len()] == x);
                    assert(views(listed).contains(x));
                }
            }
            if expected(es, *args, x) {
                if x.is_dir {
                    if x.rel.len() == 0 {
                        assert(x.rel =~= empty);
                        assert(x == rv);
                        assert(vd.contains(x));
                    } else {
                        assert(vd.contains(x));
                    }
                    let t = choose|t: int| 0 <= t < vd.len() && vd[t] == x;
                    assert(vo[t] == x);
                } else {
                    assert(listed_before(es, *args, es.len() as int, x));
                    assert(views(listed).contains(x));
                    let t = choose|t: int| 0 <= t < views(listed).len() && views(listed)[t] == x;
                    assert(vo[t + dirs.len()] == x);
                }
            }
        }
        assert forall|k: int| 0 <= k < out@.len() implies (#[trigger] out@[k]).path@ == joined(root@, out@[k].view().rel) by {
            if k >= dirs.len() {
                assert(out@[k] == listed[k - dirs.len()]);
            }
        }
    }
    out
}

/// The disk usage below `root`, given what the root is and, for a
/// directory, its walk: each directory that holds a file, and each file
/// where `args.all` asks, with the sum of the sizes of the files below it.
pub fn calculate_usage(root: &String, kind: &RootKind, walk: &Vec<WalkEntry>, args: &Args) -> (r: Result<
    Vec<DiskUsage>,
    UsageError,
>)
    requires
        (*kind matches RootKind::File { len, blocks } ==> file_size(args.logical, len, blocks)
            <= u64::MAX),
        *kind is Directory ==> walk_well_formed(walk@) && grand_total(walk@, args.logical) <= u64::MAX,
    ensures
        *kind is Missing ==> (r matches Err(UsageError::NotFound(p)) && p@ == root@),
        (*kind matches RootKind::File { len, blocks } ==> (r matches Ok(v) && is_file_report(
            root@,
            file_size(args.logical, len, blocks),
            v@,
        ))),
        *kind is Directory ==> (r matches Ok(v) && is_report(root@, walk@, *args, v@)),
{
    match kind {
        RootKind::Missing => Err(UsageError::NotFound(root.clone())),
        RootKind::File { len, blocks } => {
            let size = size_of_file(args.logical, *len, *blocks);
            let rel: Vec<String> = Vec::new();
            proof {
                assert(comps(rel@) =~= Seq::<Seq<char>>::empty());
            }
            let mut v: Vec<DiskUsage> = Vec::new();
            v.push(DiskUsage { path: root.clone(), rel, size, is_dir: false });
            Ok(v)
        },
        RootKind::Directory => Ok(directory_report(root, walk, args)),
    }
}

} // verus!

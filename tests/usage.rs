use diru::disk_usage::{decimal_string, join_path, kilobytes};
use diru::order::{name_less, path_equal, path_less};
use diru::traversal::size_of_file;
use diru::{calculate_usage, Args, DiskUsage, DisplayFormat, RootKind, UsageError, WalkEntry};

fn args(max_depth: usize) -> Args {
    Args {
        path: "root".to_string(),
        format: DisplayFormat::Bytes,
        summarize: false,
        all: false,
        max_depth,
        follow_links: false,
        logical: true,
    }
}

fn names(parts: &[&str]) -> Vec<String> {
    parts.iter().map(|p| p.to_string()).collect()
}

fn file(parts: &[&str], len: u64, blocks: u64) -> WalkEntry {
    WalkEntry { rel: names(parts), is_file: true, len, blocks }
}

fn dir(parts: &[&str]) -> WalkEntry {
    WalkEntry { rel: names(parts), is_file: false, len: 4096, blocks: 8 }
}

/// A small tree: root/a/b/f (100), root/a/g (20), root/h (3), root/c (empty dir).
fn tree() -> Vec<WalkEntry> {
    vec![
        dir(&[]),
        dir(&["a"]),
        dir(&["a", "b"]),
        file(&["a", "b", "f"], 100, 8),
        file(&["a", "g"], 20, 8),
        dir(&["c"]),
        file(&["h"], 3, 0),
    ]
}

fn run(a: &Args, walk: &Vec<WalkEntry>) -> Vec<DiskUsage> {
    match calculate_usage(&"root".to_string(), &RootKind::Directory, walk, a) {
        Ok(v) => v,
        Err(e) => panic!("unexpected error {:?}", e),
    }
}

fn shown(r: &[DiskUsage]) -> Vec<(String, u64, bool)> {
    r.iter().map(|u| (u.path.clone(), u.size, u.is_dir)).collect()
}

#[test]
fn directories_sorted_before_files() {
    let mut a = args(999);
    a.all = true;
    let r = run(&a, &tree());
    assert_eq!(
        shown(&r),
        vec![
            ("root".to_string(), 123, true),
            ("root/a".to_string(), 120, true),
            ("root/a/b".to_string(), 100, true),
            ("root/a/b/f".to_string(), 100, false),
            ("root/a/g".to_string(), 20, false),
            ("root/h".to_string(), 3, false),
        ]
    );
}

#[test]
fn subtree_sums_without_listing_files() {
    let r = run(&args(999), &tree());
    assert_eq!(
        shown(&r),
        vec![
            ("root".to_string(), 123, true),
            ("root/a".to_string(), 120, true),
            ("root/a/b".to_string(), 100, true),
        ]
    );
}

#[test]
fn physical_sizes_count_blocks() {
    let mut a = args(999);
    a.logical = false;
    let r = run(&a, &tree());
    assert_eq!(r[0].size, 16 * 512);
    assert_eq!(r[1].size, 16 * 512);
    assert_eq!(r[2].size, 8 * 512);
}

#[test]
fn running_twice_gives_the_same_report() {
    let mut a = args(2);
    a.all = true;
    let w = tree();
    assert_eq!(shown(&run(&a, &w)), shown(&run(&a, &w)));
}

#[test]
fn summary_without_files_is_root_alone() {
    let mut a = args(999);
    a.summarize = true;
    let r = run(&a, &tree());
    assert_eq!(shown(&r), vec![("root".to_string(), 123, true)]);
}

#[test]
fn summary_with_files_lists_everything() {
    let mut a = args(999);
    a.summarize = true;
    a.all = true;
    let r = run(&a, &tree());
    assert_eq!(r.len(), 6);
}

#[test]
fn depth_one_hides_nested_directory() {
    let walk = vec![dir(&[]), dir(&["a"]), dir(&["a", "b"]), file(&["a", "b", "file"], 7, 1)];
    let r = run(&args(1), &walk);
    assert_eq!(shown(&r), vec![("root".to_string(), 7, true)]);
}

#[test]
fn depth_two_shows_first_level() {
    let walk = vec![dir(&[]), dir(&["a"]), dir(&["a", "b"]), file(&["a", "b", "file"], 7, 1)];
    let r = run(&args(2), &walk);
    assert_eq!(
        shown(&r),
        vec![("root".to_string(), 7, true), ("root/a".to_string(), 7, true)]
    );
}

#[test]
fn depth_zero_reports_root_only() {
    let mut a = args(0);
    a.all = true;
    let r = run(&a, &tree());
    assert_eq!(shown(&r), vec![("root".to_string(), 123, true)]);
}

#[test]
fn files_listed_up_to_max_depth() {
    let mut a = args(1);
    a.all = true;
    let r = run(&a, &tree());
    assert_eq!(
        shown(&r),
        vec![("root".to_string(), 123, true), ("root/h".to_string(), 3, false)]
    );
}

#[test]
fn empty_directory_has_zero_total() {
    let r = run(&args(999), &vec![dir(&[])]);
    assert_eq!(shown(&r), vec![("root".to_string(), 0, true)]);
}

#[test]
fn component_order_not_string_order() {
    let mut a = args(999);
    a.all = true;
    let walk = vec![file(&["a-b"], 1, 0), file(&["a", "b"], 2, 0)];
    let r = run(&a, &walk);
    assert_eq!(
        shown(&r),
        vec![
            ("root".to_string(), 3, true),
            ("root/a".to_string(), 2, true),
            ("root/a/b".to_string(), 2, false),
            ("root/a-b".to_string(), 1, false),
        ]
    );
}

#[test]
fn single_file_logical() {
    let mut a = args(999);
    a.logical = true;
    let r = calculate_usage(
        &"f.txt".to_string(),
        &RootKind::File { len: 1000, blocks: 8 },
        &vec![],
        &a,
    )
    .unwrap();
    assert_eq!(shown(&r), vec![("f.txt".to_string(), 1000, false)]);
}

#[test]
fn single_file_physical() {
    let mut a = args(999);
    a.logical = false;
    let r = calculate_usage(
        &"f.txt".to_string(),
        &RootKind::File { len: 1000, blocks: 8 },
        &vec![],
        &a,
    )
    .unwrap();
    assert_eq!(shown(&r), vec![("f.txt".to_string(), 4096, false)]);
}

#[test]
fn missing_root_is_not_found() {
    let r = calculate_usage(&"nope".to_string(), &RootKind::Missing, &vec![], &args(999));
    match r {
        Err(UsageError::NotFound(p)) => assert_eq!(p, "nope"),
        other => panic!("expected NotFound, got {:?}", other.map(|v| v.len())),
    }
}

fn entry(size: u64) -> DiskUsage {
    DiskUsage { path: "dir/x".to_string(), rel: names(&["x"]), size, is_dir: false }
}

#[test]
fn kilobytes_round_up() {
    assert_eq!(entry(1).format(DisplayFormat::Kilobytes), "1\tdir/x");
    assert_eq!(entry(1024).format(DisplayFormat::Kilobytes), "1\tdir/x");
    assert_eq!(entry(1025).format(DisplayFormat::Kilobytes), "2\tdir/x");
    assert_eq!(entry(0).format(DisplayFormat::Kilobytes), "0\tdir/x");
    assert_eq!(kilobytes(u64::MAX), 18014398509481984);
}

#[test]
fn bytes_format_is_decimal() {
    assert_eq!(entry(0).format(DisplayFormat::Bytes), "0\tdir/x");
    assert_eq!(entry(1234567).format(DisplayFormat::Bytes), "1234567\tdir/x");
    assert_eq!(decimal_string(u64::MAX), u64::MAX.to_string());
}

#[test]
fn human_readable_formats() {
    assert_eq!(entry(2048).format(DisplayFormat::Binary), "2 KiB\tdir/x");
    assert_eq!(entry(1536).format(DisplayFormat::Binary), "1.50 KiB\tdir/x");
    assert_eq!(entry(2000).format(DisplayFormat::Decimal), "2 kB\tdir/x");
    assert_eq!(entry(999).format(DisplayFormat::Decimal), "999 B\tdir/x");
}

#[test]
fn default_format_is_decimal() {
    assert_eq!(DisplayFormat::default(), DisplayFormat::Decimal);
}

#[test]
fn joining_paths() {
    assert_eq!(join_path(&"/".to_string(), &names(&["a", "b"])), "/a/b");
    assert_eq!(join_path(&".".to_string(), &names(&["a"])), "./a");
    assert_eq!(join_path(&"x/".to_string(), &names(&["a"])), "x/a");
    assert_eq!(join_path(&"x".to_string(), &names(&[])), "x");
}

#[test]
fn comparing_paths() {
    assert!(path_less(&names(&["a"]), &names(&["a", "b"])));
    assert!(path_less(&names(&["a", "z"]), &names(&["a-b"])));
    assert!(!path_less(&names(&["b"]), &names(&["a", "z"])));
    assert!(path_equal(&names(&["a", "b"]), &names(&["a", "b"])));
    assert!(!path_equal(&names(&["a", "b"]), &names(&["a", "c"])));
    assert!(name_less(&"ab".to_string(), &"b".to_string()));
    assert!(!name_less(&"b".to_string(), &"b".to_string()));
}

#[test]
fn file_sizes() {
    assert_eq!(size_of_file(true, 10, 3), 10);
    assert_eq!(size_of_file(false, 10, 3), 1536);
}

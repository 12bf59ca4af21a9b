use dirindex::allowlist::{Allowlist, Pattern};
use dirindex::builder::PathIndexBuilder;
use dirindex::diff::{diff, Diff, MatchFlags};
use dirindex::duplicates::{potential_file_matches, ChecksumCalculator};
use dirindex::index::{admit_dir, RootIndex, Walked};
use dirindex::model::{Checksum, Dir, File, FileReader, IndexError, Metadata, Timestamp};
use dirindex::path::{compare_paths, is_child_of, name_str, normalized_path, parent_str};
use dirindex::progress::CountdownTimer;
use std::cmp::Ordering;

/// Reads each file's content from its path: the content of `dir/x.txt` is `x`.
struct NameReader;

impl FileReader for NameReader {
    fn read(&self, path: &str, buf: &mut Vec<u8>) -> Result<(), IndexError> {
        let name = path.rsplit('/').next().unwrap_or(path);
        let stem = name.split('.').next().unwrap_or(name);
        buf.extend_from_slice(stem.as_bytes());
        Ok(())
    }
}

/// Every file holds the same bytes.
struct SameReader;

impl FileReader for SameReader {
    fn read(&self, _path: &str, buf: &mut Vec<u8>) -> Result<(), IndexError> {
        buf.extend_from_slice(b"abc");
        Ok(())
    }
}

struct FailingReader;

impl FileReader for FailingReader {
    fn read(&self, path: &str, _buf: &mut Vec<u8>) -> Result<(), IndexError> {
        Err(IndexError::Io(format!("cannot read {path}")))
    }
}

const ABC_SHA512: &str = "ddaf35a193617abacc417349ae20413112e6fa4e89a97ea20a9eeee64b55d39a2192992a274fc1a836ba3c23a3feebbd454d4423643ce80e2a9ac94fa54ca49f";

fn file(path: &str, size: u64, created: u64) -> File {
    File {
        meta: Metadata {
            path: path.to_string(),
            created_time: Timestamp::from_secs(created),
            modified_time: Timestamp::from_secs(created),
            hidden: false,
        },
        size,
        checksum: Checksum::new(),
    }
}

fn dir(path: &str) -> Dir {
    Dir { meta: Metadata::with_path(path) }
}

fn with_checksum(mut f: File, sum: &str) -> File {
    f.checksum = Checksum { sha512: sum.to_string() };
    f
}

#[test]
fn checksum_of_known_content() {
    let mut checksum = Checksum::new();
    let mut buf = Vec::new();
    checksum.calculate(&SameReader, "any", &mut buf).unwrap();
    assert_eq!(checksum.sha512, ABC_SHA512);
    assert_eq!(buf, b"abc".to_vec());
    assert!(!checksum.is_empty());
    checksum.reset();
    assert!(checksum.is_empty());
}

#[test]
fn checksum_read_error_keeps_old_value() {
    let mut checksum = Checksum { sha512: "old".to_string() };
    let mut buf = Vec::new();
    let r = checksum.calculate(&FailingReader, "x", &mut buf);
    assert_eq!(r, Err(IndexError::Io("cannot read x".to_string())));
    assert_eq!(checksum.sha512, "old");
}

#[test]
fn normalize_paths() {
    assert_eq!(normalized_path("a\\b\\c"), "a/b/c");
    assert_eq!(normalized_path("a/b/"), "a/b");
    assert_eq!(normalized_path("a//"), "a/");
    assert_eq!(normalized_path("/"), "/");
    assert_eq!(normalized_path(""), "");
    assert_eq!(parent_str("a/b/c"), Some("a/b"));
    assert_eq!(parent_str("a"), None);
    assert_eq!(name_str("a/b/c.txt"), "c.txt");
    assert_eq!(name_str("c.txt"), "c.txt");
    assert_eq!(Metadata::with_path("x\\y").name(), "y");
}

#[test]
fn path_order_is_code_point_order() {
    assert_eq!(compare_paths("foo.txt", "foo/a"), Ordering::Less);
    assert_eq!(compare_paths("foo", "foo.txt"), Ordering::Less);
    assert_eq!(compare_paths("b", "a/z"), Ordering::Greater);
    assert_eq!(compare_paths("é", "z"), Ordering::Greater);
    assert_eq!(compare_paths("a/b", "a/b"), Ordering::Equal);
}

#[test]
fn child_of_needs_separator() {
    assert!(is_child_of("a/b", "a"));
    assert!(is_child_of("a/b/c", "a"));
    assert!(!is_child_of("a.txt", "a"));
    assert!(!is_child_of("a", "a"));
    assert!(!is_child_of("ab/c", "a"));
    assert!(Metadata::with_path("foo/bar").is_child_of("foo"));
}

#[test]
fn child_of_matches_joined_name() {
    // A path joined from a directory and a name is below the directory.
    for (d, name) in [("a", "b"), ("a/b", "c.txt"), ("", "x")] {
        let joined = normalized_path(&format!("{d}/{name}"));
        assert!(is_child_of(&joined, d));
    }
    assert_eq!(normalized_path("a/b\\c"), "a/b/c");
    assert!(is_child_of("a/b/c", "a"));
}

#[test]
fn allowlist_rules() {
    let all = Allowlist::allow_all();
    assert!(all.is_allowed("anything"));
    let deny_tmp = Allowlist { allow: vec![], deny: vec![Pattern::new(r"\.tmp$").unwrap()] };
    assert!(!deny_tmp.is_allowed("a/x.tmp"));
    assert!(deny_tmp.is_allowed("a/x.txt"));
    let only_foo = Allowlist {
        allow: vec![Pattern::new("^foo").unwrap()],
        deny: vec![Pattern::new("secret").unwrap()],
    };
    assert!(only_foo.is_allowed("foo/a"));
    assert!(!only_foo.is_allowed("bar/a"));
    assert!(!only_foo.is_allowed("foo/secret"));
    assert!(Pattern::new("(").is_err());
    assert!(Pattern::new("a+").unwrap().matches("caab"));
}

#[test]
fn empty_root_has_one_entry() {
    let walked = Walked::Dir { path: "root".to_string(), files: vec![], dirs: vec![dir("root")] };
    let index = RootIndex::from_path(walked).unwrap();
    assert_eq!(index.entry_count(), 1);
    assert_eq!(index.file_count(), 0);
    assert!(!index.dirty());
    assert!(index.duplicates(&Allowlist::allow_all()).is_empty());
    assert!(index.duplicate_dirs(&Allowlist::allow_all()).is_empty());
}

#[test]
fn from_path_single_file_and_other() {
    let index = RootIndex::from_path(Walked::File(file("/data/a.txt", 3, 0))).unwrap();
    assert_eq!(index.file_count(), 1);
    assert_eq!(index.dirs().len(), 0);
    assert!(matches!(RootIndex::from_path(Walked::Other), Err(IndexError::Unsupported)));
}

#[test]
fn from_entries_rejects_broken_lists() {
    let repeated = RootIndex::from_entries(vec![file("a", 1, 0), file("a", 2, 0)], vec![]);
    assert!(matches!(repeated, Err(IndexError::Integrity)));
    let collision = RootIndex::from_entries(vec![file("a", 1, 0)], vec![dir("a")]);
    assert!(matches!(collision, Err(IndexError::Integrity)));
    let backslash = RootIndex::from_entries(vec![file("a\\b", 1, 0)], vec![]);
    assert!(matches!(backslash, Err(IndexError::Integrity)));
    let sorted = RootIndex::from_entries(vec![file("b", 1, 0), file("a", 1, 0)], vec![dir("")]).unwrap();
    assert_eq!(sorted.files()[0].meta.path(), "a");
    assert_eq!(sorted.files()[1].meta.path(), "b");
}

#[test]
fn persisted_lists_round_trip() {
    let files = vec![file("a", 1, 0), file("b/c", 2, 0)];
    let dirs = vec![dir(""), dir("b")];
    let index = RootIndex::from_persisted(files.clone(), dirs.clone()).unwrap();
    assert!(!index.dirty());
    assert_eq!(index.files(), &files);
    assert_eq!(index.dirs(), &dirs);
    let unsorted = RootIndex::from_persisted(vec![file("b", 1, 0), file("a", 1, 0)], vec![]);
    assert!(matches!(unsorted, Err(IndexError::Integrity)));
}

#[test]
fn mutations_keep_order_and_mark_dirty() {
    let mut index = RootIndex::from_entries(vec![file("a", 1, 0), file("c", 1, 0)], vec![dir("")]).unwrap();
    assert!(!index.dirty());
    index.add(Walked::File(file("b", 5, 0))).unwrap();
    assert!(index.dirty());
    let paths: Vec<&str> = index.files().iter().map(|f| f.meta.path()).collect();
    assert_eq!(paths, vec!["a", "b", "c"]);
    index.mark_saved();
    assert!(!index.dirty());
    assert!(index.remove_file("zzz").is_none());
    assert!(!index.dirty());
    let removed = index.remove_file("b").unwrap();
    assert_eq!(removed.size, 5);
    assert!(index.dirty());
    assert_eq!(index.file_count(), 2);
    assert!(matches!(index.add(Walked::Other), Err(IndexError::Unsupported)));
}

#[test]
fn add_file_keeps_checksum_of_same_metadata() {
    let mut index = RootIndex::from_entries(vec![with_checksum(file("a", 1, 7), "sum")], vec![dir("")]).unwrap();
    index.add(Walked::File(file("a", 1, 7))).unwrap();
    assert_eq!(index.files()[0].checksum.sha512, "sum");
    index.add(Walked::File(file("a", 1, 8))).unwrap();
    assert!(index.files()[0].checksum.is_empty());
}

#[test]
fn add_dir_replaces_subtree_and_carries_checksums() {
    let mut index = RootIndex::from_entries(
        vec![with_checksum(file("d/x", 1, 1), "kept"), file("d/y", 2, 1), file("e", 3, 1)],
        vec![dir(""), dir("d")],
    )
    .unwrap();
    let walked = Walked::Dir {
        path: "d".to_string(),
        files: vec![file("d/x", 1, 1), file("d/z", 4, 1)],
        dirs: vec![dir("d")],
    };
    index.add(walked).unwrap();
    let paths: Vec<&str> = index.files().iter().map(|f| f.meta.path()).collect();
    assert_eq!(paths, vec!["d/x", "d/z", "e"]);
    assert_eq!(index.files()[0].checksum.sha512, "kept");
    assert_eq!(index.dirs().len(), 2);
    assert!(index.dirty());
}

#[test]
fn remove_dir_touches_only_its_subtree() {
    let mut builder = PathIndexBuilder::new();
    for p in ["foo/a.txt", "foo.d/b.txt", "foo/bar/c.txt", "food/d.txt"] {
        builder.add_file(p);
    }
    let mut index = builder.build().unwrap();
    let removed = index.remove_dir("foo").unwrap();
    let removed_paths: Vec<&str> = removed.iter().map(|f| f.meta.path()).collect();
    assert_eq!(removed_paths, vec!["foo/a.txt", "foo/bar/c.txt"]);
    let paths: Vec<&str> = index.files().iter().map(|f| f.meta.path()).collect();
    assert_eq!(paths, vec!["foo.d/b.txt", "food/d.txt"]);
    let dirs: Vec<&str> = index.dirs().iter().map(|d| d.meta.path()).collect();
    assert_eq!(dirs, vec!["foo.d", "food"]);
}

#[test]
fn sub_index_of_nested_directory() {
    let mut builder = PathIndexBuilder::new();
    for d in ["foo", "foo/bar", "foo/bar/nested", "foo/empty"] {
        builder.add_dir(d);
    }
    for f in ["foo/bar/f.txt", "foo/bar/g.txt", "foo/bar/nested/d.txt"] {
        builder.add_file(f);
    }
    let index = builder.build().unwrap();
    let sub = index.sub_index("foo/bar").unwrap();
    assert_eq!(sub.dir_count(), 1);
    assert_eq!(sub.file_count(), 3);
    assert_eq!(sub.entry_count(), 4);
    assert!(index.sub_index("").is_none());
    assert!(index.sub_index("nope").is_none());
    let all = index.all();
    assert_eq!(all.file_index("foo/bar/g.txt"), Some(1));
    assert_eq!(all.file_index("foo/bar/h.txt"), None);
    assert_eq!(all.dir_index(""), None);
}

#[test]
fn file_size_sums_sizes() {
    let index = RootIndex::from_entries(
        vec![file("a", u64::MAX, 0), file("b", u64::MAX, 0), file("c", 2, 0)],
        vec![dir("")],
    )
    .unwrap();
    assert_eq!(index.all().file_size(), 2 * (u64::MAX as u128) + 2);
}

#[test]
fn move_is_detected_from_checksums() {
    let mut new = RootIndex::from_entries(vec![with_checksum(file("x/a", 4, 0), "same")], vec![dir("x")]).unwrap();
    let mut old = RootIndex::from_entries(vec![with_checksum(file("y/a", 4, 0), "same")], vec![dir("y")]).unwrap();
    let diffs = new.diff(&mut old, &SameReader, false, false, false).unwrap();
    assert_eq!(diffs, vec![Diff::Moved("y/a".to_string(), "x/a".to_string())]);
}

#[test]
fn moves_need_equal_counts() {
    let mut s = vec![with_checksum(file("a", 1, 0), "k"), with_checksum(file("b", 1, 0), "k")];
    let mut o = vec![with_checksum(file("c", 1, 0), "k")];
    let (mut sd, mut od) = (false, false);
    let flags = MatchFlags { name: false, created: false, modified: false };
    let diffs = diff(&mut s, &mut sd, &mut o, &mut od, &SameReader, flags).unwrap();
    assert_eq!(
        diffs,
        vec![Diff::Added("a".to_string()), Diff::Added("b".to_string()), Diff::Removed("c".to_string())]
    );
}

#[test]
fn diff_with_itself_is_empty_and_hashes() {
    let mut a = vec![file("p", 3, 1), file("q", 4, 1)];
    let mut b = a.clone();
    let (mut ad, mut bd) = (false, false);
    let flags = MatchFlags { name: false, created: false, modified: false };
    let diffs = diff(&mut a, &mut ad, &mut b, &mut bd, &NameReader, flags).unwrap();
    assert!(diffs.is_empty());
    assert!(ad && bd);
    assert_eq!(a[0].checksum.sha512.len(), 128);
}

#[test]
fn diff_flags_skip_checksums() {
    let mut a = vec![file("p", 3, 1)];
    let mut b = vec![file("p", 3, 1)];
    let (mut ad, mut bd) = (false, false);
    let flags = MatchFlags { name: false, created: true, modified: false };
    let diffs = diff(&mut a, &mut ad, &mut b, &mut bd, &FailingReader, flags).unwrap();
    assert!(diffs.is_empty());
    assert!(!ad && !bd);
    let flags = MatchFlags { name: false, created: false, modified: false };
    let r = diff(&mut a, &mut ad, &mut b, &mut bd, &FailingReader, flags);
    assert!(matches!(r, Err(IndexError::Io(_))));
}

#[test]
fn diff_reversed_swaps_sides() {
    let x = vec![file("a", 1, 0), file("b", 2, 0)];
    let y = vec![file("b", 3, 0), file("c", 1, 0)];
    let flags = MatchFlags { name: true, created: false, modified: false };
    let (mut d1, mut d2) = (false, false);
    let forward = diff(&mut x.clone(), &mut d1, &mut y.clone(), &mut d2, &SameReader, flags).unwrap();
    let backward = diff(&mut y.clone(), &mut d1, &mut x.clone(), &mut d2, &SameReader, flags).unwrap();
    assert_eq!(
        forward,
        vec![Diff::Added("a".to_string()), Diff::Changed("b".to_string()), Diff::Removed("c".to_string())]
    );
    assert_eq!(
        backward,
        vec![Diff::Removed("a".to_string()), Diff::Changed("b".to_string()), Diff::Added("c".to_string())]
    );
}

#[test]
fn unique_sizes_give_no_duplicates() {
    let files = vec![file("a", 1, 0), file("b", 2, 0), file("c", 3, 0)];
    for (n, c, m) in [(false, false, false), (true, false, false), (false, true, true)] {
        assert!(potential_file_matches(&files, &Allowlist::allow_all(), n, c, m).is_empty());
    }
    let index = RootIndex::from_entries(
        vec![with_checksum(file("a", 1, 0), "s"), with_checksum(file("b", 2, 0), "s")],
        vec![dir("")],
    )
    .unwrap();
    assert!(index.duplicates(&Allowlist::allow_all()).is_empty());
}

#[test]
fn distinct_created_times_avoid_false_positives() {
    let files = vec![file("a", 1, 1), file("b", 2, 2), file("c", 1, 3)];
    assert!(potential_file_matches(&files, &Allowlist::allow_all(), false, true, false).is_empty());
    assert_eq!(potential_file_matches(&files, &Allowlist::allow_all(), false, false, false), vec![0, 2]);
}

#[test]
fn duplicates_by_content() {
    let mut index = RootIndex::from_entries(
        vec![file("z/one.txt", 3, 1), file("a/two.txt", 3, 2), file("m/other.txt", 5, 3)],
        vec![dir("a"), dir("m"), dir("z")],
    )
    .unwrap();
    let mut calc = ChecksumCalculator::with_file_match(&index, &Allowlist::allow_all(), false, false, false);
    assert_eq!(calc.remaining(), 2);
    while let Some(step) = calc.next(&mut index, &SameReader) {
        step.unwrap();
    }
    assert!(index.dirty());
    assert!(index.files()[1].checksum.is_empty());
    let groups = index.duplicates(&Allowlist::allow_all());
    assert_eq!(groups, vec![vec!["a/two.txt".to_string(), "z/one.txt".to_string()]]);
    let deny_a = Allowlist { allow: vec![], deny: vec![Pattern::new("^a/").unwrap()] };
    assert!(index.duplicates(&deny_a).is_empty());
}

#[test]
fn calculator_reports_read_errors() {
    let mut index = RootIndex::from_entries(vec![file("a", 3, 1), file("b", 3, 1)], vec![dir("")]).unwrap();
    let mut calc = ChecksumCalculator::with_file_match(&index, &Allowlist::allow_all(), false, false, false);
    assert!(matches!(calc.next(&mut index, &FailingReader), Some(Err(IndexError::Io(_)))));
    assert_eq!(calc.remaining(), 1);
    assert!(!index.dirty());
}

#[test]
fn calculate_all_hashes_every_file() {
    let mut index = RootIndex::from_entries(vec![file("a", 3, 1), file("b", 3, 1)], vec![dir("")]).unwrap();
    index.calculate_all(&SameReader).unwrap();
    assert!(index.dirty());
    assert!(index.files().iter().all(|f| f.checksum.sha512 == ABC_SHA512));
    let mut other = RootIndex::from_entries(vec![file("a", 3, 1)], vec![dir("")]).unwrap();
    assert!(other.calculate_all(&FailingReader).is_err());
}

#[test]
fn duplicate_directories() {
    let mut builder = PathIndexBuilder::new();
    for f in ["x/a.txt", "x/b.txt", "y/a.txt", "y/b.txt", "z/c.txt"] {
        builder.add_file(f);
    }
    let mut index = builder.build().unwrap();
    // The builder gives every file size zero, so no directory holds bytes yet.
    let calc = ChecksumCalculator::with_dir_match(&index, &Allowlist::allow_all(), false, false, false);
    assert_eq!(calc.remaining(), 0);
    let files: Vec<File> = index.files().iter().map(|f| File { size: 2, ..f.clone() }).collect();
    let dirs = index.dirs().clone();
    index = RootIndex::from_entries(files, dirs).unwrap();
    let mut calc = ChecksumCalculator::with_dir_match(&index, &Allowlist::allow_all(), false, true, false);
    assert_eq!(calc.remaining(), 4);
    while let Some(step) = calc.next(&mut index, &NameReader) {
        step.unwrap();
    }
    let groups = index.duplicate_dirs(&Allowlist::allow_all());
    assert_eq!(groups, vec![vec!["x".to_string(), "y".to_string()]]);
    let by_name = ChecksumCalculator::with_dir_match(&index, &Allowlist::allow_all(), true, false, false);
    assert_eq!(by_name.remaining(), 0);
}

#[test]
fn walk_skips_system_and_hidden_dirs() {
    assert!(!admit_dir("$RECYCLE.BIN", true, false));
    assert!(!admit_dir("System Volume Information", true, false));
    assert!(admit_dir("$RECYCLE.BIN", false, false));
    assert!(!admit_dir("photos", false, true));
    assert!(admit_dir("photos", true, false));
}

#[test]
fn countdown_fires_once_per_period() {
    let mut timer = CountdownTimer::new(1000, 5000);
    assert!(!timer.passed(5500));
    assert!(timer.passed(6000));
    assert!(!timer.passed(6999));
    assert!(timer.passed(100));
}

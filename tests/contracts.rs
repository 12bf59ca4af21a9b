use dirindex::allowlist::{Allowlist, Pattern};
use dirindex::builder::PathIndexBuilder;
use dirindex::diff::{diff, Diff, MatchFlags};
use dirindex::duplicates::{duplicates, ChecksumCalculator};
use dirindex::index::{admit_file, RootIndex};
use dirindex::model::{Checksum, Dir, File, FileReader, IndexError, Metadata, Timestamp};

/// Fails on every read: any success below needed no read.
struct NoReads;

impl FileReader for NoReads {
    fn read(&self, path: &str, _buf: &mut Vec<u8>) -> Result<(), IndexError> {
        Err(IndexError::Io(format!("unexpected read of {path}")))
    }
}

/// Fails on one path, reads `abc` elsewhere.
struct FailOn(&'static str);

impl FileReader for FailOn {
    fn read(&self, path: &str, buf: &mut Vec<u8>) -> Result<(), IndexError> {
        if path == self.0 {
            return Err(IndexError::Io(path.to_string()));
        }
        buf.extend_from_slice(b"abc");
        Ok(())
    }
}

fn file(path: &str, size: u64) -> File {
    File {
        meta: Metadata {
            path: path.to_string(),
            created_time: Timestamp::from_secs(1),
            modified_time: Timestamp::from_secs(1),
            hidden: false,
        },
        size,
        checksum: Checksum::new(),
    }
}

fn summed(path: &str, size: u64, sum: &str) -> File {
    File { checksum: Checksum { sha512: sum.to_string() }, ..file(path, size) }
}

fn no_flags() -> MatchFlags {
    MatchFlags { name: false, created: false, modified: false }
}

#[test]
fn duplicates_sorts_unsorted_input() {
    let files = vec![summed("b.txt", 3, "c0ffee"), summed("a.txt", 3, "c0ffee")];
    let groups = duplicates(&files, &Allowlist::allow_all());
    assert_eq!(groups, vec![vec!["a.txt".to_string(), "b.txt".to_string()]]);
}

#[test]
fn duplicate_groups_are_ordered_by_first_path() {
    let files = vec![
        summed("z", 1, "k1"),
        summed("c", 2, "k2"),
        summed("y", 1, "k1"),
        summed("b", 2, "k2"),
    ];
    let groups = duplicates(&files, &Allowlist::allow_all());
    assert_eq!(
        groups,
        vec![vec!["b".to_string(), "c".to_string()], vec!["y".to_string(), "z".to_string()]]
    );
}

#[test]
fn diff_needs_no_read_for_moves_sizes_and_one_sided_files() {
    let mut s = vec![summed("a", 1, "dummy_checksum"), file("c", 2), file("d", 5)];
    let mut o = vec![summed("b", 1, "dummy_checksum"), file("c", 3)];
    let (mut sd, mut od) = (false, false);
    let diffs = diff(&mut s, &mut sd, &mut o, &mut od, &NoReads, no_flags()).unwrap();
    assert_eq!(
        diffs,
        vec![
            Diff::Changed("c".to_string()),
            Diff::Added("d".to_string()),
            Diff::Moved("b".to_string(), "a".to_string()),
        ]
    );
    assert!(!sd && !od);
    assert!(s[1].checksum.is_empty() && o[1].checksum.is_empty());
}

#[test]
fn diff_leaves_pairs_matched_by_attributes_alone() {
    let mut s = vec![file("a", 4)];
    let mut o = vec![file("a", 4)];
    let (mut sd, mut od) = (false, false);
    let flags = MatchFlags { name: false, created: false, modified: true };
    assert!(diff(&mut s, &mut sd, &mut o, &mut od, &NoReads, flags).unwrap().is_empty());
    assert!(!sd && !od && s[0].checksum.is_empty());
}

#[test]
fn root_diff_keeps_dirty_when_nothing_is_read() {
    let mut new = RootIndex::from_entries(vec![file("a", 1)], vec![]).unwrap();
    let mut old = RootIndex::from_entries(vec![file("a", 2)], vec![]).unwrap();
    let diffs = new.diff(&mut old, &NoReads, false, false, false).unwrap();
    assert_eq!(diffs, vec![Diff::Changed("a".to_string())]);
    assert!(!new.dirty() && !old.dirty());
}

#[test]
fn calculate_all_keeps_progress_before_a_failed_read() {
    let mut index = RootIndex::from_entries(vec![file("a", 1), file("b", 1), file("c", 1)], vec![]).unwrap();
    assert!(index.calculate_all(&FailOn("b")).is_err());
    assert_eq!(index.files()[0].checksum.sha512.len(), 128);
    assert!(index.files()[1].checksum.is_empty());
    assert!(index.files()[2].checksum.is_empty());
    assert!(index.dirty());
    let mut untouched = RootIndex::from_entries(vec![file("a", 1)], vec![]).unwrap();
    assert!(untouched.calculate_all(&FailOn("a")).is_err());
    assert!(!untouched.dirty());
    let mut empty = RootIndex::new();
    assert!(empty.calculate_all(&NoReads).is_ok());
}

#[test]
fn checksum_digits_are_lower_case_hex() {
    let mut checksum = Checksum::new();
    let mut buf = vec![1, 2, 3];
    checksum.calculate(&FailOn(""), "x", &mut buf).unwrap();
    assert_eq!(buf, b"abc".to_vec());
    assert!(checksum.sha512.chars().all(|c| c.is_ascii_digit() || ('a'..='f').contains(&c)));
}

#[test]
fn calculator_skips_files_already_hashed() {
    let mut index =
        RootIndex::from_entries(vec![summed("a", 3, "s"), summed("b", 3, "s")], vec![]).unwrap();
    let mut calc = ChecksumCalculator::with_file_match(&index, &Allowlist::allow_all(), false, false, false);
    assert!(matches!(calc.next(&mut index, &NoReads), Some(Ok(1))));
    assert!(matches!(calc.next(&mut index, &NoReads), Some(Ok(0))));
    assert!(calc.next(&mut index, &NoReads).is_none());
    assert!(!index.dirty());
}

#[test]
fn patterns_that_do_not_compile_fail() {
    assert!(Pattern::new("a[").is_err());
    assert!(Pattern::new("a[b]").is_ok());
}

#[test]
fn built_index_is_clean_and_has_ancestors() {
    let mut builder = PathIndexBuilder::new();
    builder.add_file("x/y/z.txt");
    let index = builder.build().unwrap();
    assert!(!index.dirty());
    let dirs: Vec<&str> = index.dirs().iter().map(|d| d.meta.path()).collect();
    assert_eq!(dirs, vec!["x", "x/y"]);
    let f = &index.files()[0];
    assert_eq!((f.size, f.meta.hidden, f.meta.created_time), (0, false, Timestamp::epoch()));
}

#[test]
fn children_start_after_the_directory() {
    let index = RootIndex::from_entries(
        vec![],
        vec![
            Dir { meta: Metadata::with_path("foo") },
            Dir { meta: Metadata::with_path("foo.d") },
            Dir { meta: Metadata::with_path("foo/bar") },
            Dir { meta: Metadata::with_path("zed") },
        ],
    )
    .unwrap();
    let all = index.all();
    assert_eq!(all.dir_children_indices(0), (2, 3));
    assert_eq!(all.dir_children_indices(1), (2, 2));
    assert_eq!(all.dir_children_indices(3), (4, 4));
}

#[test]
fn hidden_files_are_skipped() {
    assert!(admit_file(false));
    assert!(!admit_file(true));
}

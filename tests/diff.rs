use dirindex::diff::{diff, Diff, MatchFlags};
use dirindex::model::{Checksum, File, FileReader, IndexError, Metadata, Timestamp};

/// Every file holds the same bytes.
struct FixedReader;

impl FileReader for FixedReader {
    fn read(&self, _path: &str, buf: &mut Vec<u8>) -> Result<(), IndexError> {
        buf.extend_from_slice(b"content");
        Ok(())
    }
}

fn create_file(name: &str, size: u64, created: u64, modified: u64) -> File {
    File {
        meta: Metadata {
            path: name.to_string(),
            created_time: Timestamp::from_secs(created),
            modified_time: Timestamp::from_secs(modified),
            hidden: false,
        },
        size,
        checksum: Checksum::new(),
    }
}

fn no_flags() -> MatchFlags {
    MatchFlags { name: false, created: false, modified: false }
}

#[test]
fn diff_same() {
    let mut self_files = vec![create_file("a", 1, 1, 1)];
    self_files[0].checksum = Checksum { sha512: "dummy_checksum".to_string() };
    let mut other_files = vec![create_file("a", 1, 1, 1)];
    other_files[0].checksum = Checksum { sha512: "dummy_checksum".to_string() };
    let mut self_dirty = false;
    let mut other_dirty = false;
    let diffs = diff(
        &mut self_files,
        &mut self_dirty,
        &mut other_files,
        &mut other_dirty,
        &FixedReader,
        no_flags(),
    )
    .unwrap();
    assert!(diffs.is_empty());
}

#[test]
fn diff_added() {
    let mut self_files = vec![create_file("a", 1, 1, 1)];
    let mut other_files = vec![];
    let mut self_dirty = false;
    let mut other_dirty = false;
    let diffs = diff(
        &mut self_files,
        &mut self_dirty,
        &mut other_files,
        &mut other_dirty,
        &FixedReader,
        no_flags(),
    )
    .unwrap();
    assert_eq!(diffs, vec![Diff::Added("a".to_string())]);
}

#[test]
fn diff_removed() {
    let mut self_files = vec![];
    let mut other_files = vec![create_file("a", 1, 1, 1)];
    let mut self_dirty = false;
    let mut other_dirty = false;
    let diffs = diff(
        &mut self_files,
        &mut self_dirty,
        &mut other_files,
        &mut other_dirty,
        &FixedReader,
        no_flags(),
    )
    .unwrap();
    assert_eq!(diffs.len(), 1);
    assert_eq!(diffs, vec![Diff::Removed("a".to_string())]);
}

#[test]
fn diff_changed() {
    let mut self_files = vec![create_file("a", 2, 1, 1)];
    let mut other_files = vec![create_file("a", 1, 1, 1)];
    let mut self_dirty = false;
    let mut other_dirty = false;
    let diffs = diff(
        &mut self_files,
        &mut self_dirty,
        &mut other_files,
        &mut other_dirty,
        &FixedReader,
        no_flags(),
    )
    .unwrap();
    assert_eq!(diffs, vec![Diff::Changed("a".to_string())]);
}

#[test]
fn diff_moved() {
    let mut self_files = vec![create_file("a", 1, 1, 1)];
    self_files[0].checksum = Checksum { sha512: "dummy_checksum".to_string() };
    let mut other_files = vec![create_file("b", 1, 1, 1)];
    other_files[0].checksum = Checksum { sha512: "dummy_checksum".to_string() };
    let mut self_dirty = false;
    let mut other_dirty = false;
    let diffs = diff(
        &mut self_files,
        &mut self_dirty,
        &mut other_files,
        &mut other_dirty,
        &FixedReader,
        no_flags(),
    )
    .unwrap();
    assert_eq!(diffs, vec![Diff::Moved("b".to_string(), "a".to_string())]);
}

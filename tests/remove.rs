use std::collections::HashSet;

use dirindex::index::RootIndex;
use dirindex::model::{Checksum, Dir, File, Metadata};
use dirindex::path::parent_str;

fn metadata_with_path(path: &str) -> Metadata {
    Metadata::with_path(path)
}

fn dirs_from_files(files: &[File]) -> Vec<Dir> {
    let mut dir_set = HashSet::new();
    for file in files {
        if let Some(mut parent) = file.meta.parent() {
            dir_set.insert(parent.to_string());
            while let Some(inner) = parent_str(parent) {
                parent = inner;
                dir_set.insert(parent.to_string());
            }
        } else {
            dir_set.insert(String::new());
        }
    }
    dir_set.into_iter().map(|dir| Dir { meta: metadata_with_path(&dir) }).collect()
}

fn file_with_path(path: &str) -> File {
    File { meta: metadata_with_path(path), size: 1, checksum: Checksum::new() }
}

fn new_test_index(paths: &[&str]) -> RootIndex {
    let files: Vec<File> = paths.iter().map(|p| file_with_path(p)).collect();
    let dirs = dirs_from_files(&files);
    RootIndex::from_entries(files, dirs).unwrap()
}

#[test]
fn test_test_remove_file_empty() {
    let mut index = new_test_index(&[]);
    index.remove_file("a.txt");
    index.remove_file("foo/a.txt");
    assert_eq!(index.files().len(), 0);
    assert_eq!(index.dirs().len(), 0);
}

#[test]
fn test_test_remove_file_single() {
    let mut index = new_test_index(&["a.txt"]);
    index.remove_file("a.txt");
    assert_eq!(index.files().len(), 0);
    assert_eq!(index.dirs().len(), 1);
}

#[test]
fn test_test_remove_file_single_nested() {
    let mut index = new_test_index(&["foo/a.txt"]);
    index.remove_file("foo/a.txt");
    assert_eq!(index.files().len(), 0);
    assert_eq!(index.dirs().len(), 1);
}

#[test]
fn test_test_remove_file_multiple() {
    let mut index = new_test_index(&["a.txt", "b.txt", "c.txt"]);
    index.remove_file("b.txt");
    assert_eq!(index.files().len(), 2);
    assert_eq!(index.dirs().len(), 1);
    assert_eq!(index.files()[0].meta.path(), "a.txt");
    assert_eq!(index.files()[1].meta.path(), "c.txt");
}

#[test]
fn test_test_remove_file_multiple_nested() {
    let mut index = new_test_index(&["foo/a.txt", "foo/b.txt", "bar/c.txt"]);
    index.remove_file("foo/b.txt");
    assert_eq!(index.files().len(), 2);
    assert_eq!(index.dirs().len(), 2);
    assert_eq!(index.files()[0].meta.path(), "bar/c.txt");
    assert_eq!(index.files()[1].meta.path(), "foo/a.txt");
}

#[test]
fn test_test_remove_file_nonexistent() {
    let mut index = new_test_index(&["a.txt", "foo/b.txt"]);
    index.remove_file("c.txt");
    assert_eq!(index.files().len(), 2);
    assert_eq!(index.dirs().len(), 2);
    index.remove_file("foo/c.txt");
    assert_eq!(index.files().len(), 2);
    assert_eq!(index.dirs().len(), 2);
}

#[test]
fn test_test_remove_file_first() {
    let mut index = new_test_index(&["a.txt", "b.txt", "c.txt"]);
    index.remove_file("a.txt");
    assert_eq!(index.files().len(), 2);
    assert_eq!(index.dirs().len(), 1);
    assert_eq!(index.files()[0].meta.path(), "b.txt");
    assert_eq!(index.files()[1].meta.path(), "c.txt");
}

#[test]
fn test_test_remove_file_last() {
    let mut index = new_test_index(&["a.txt", "b.txt", "c.txt"]);
    index.remove_file("c.txt");
    assert_eq!(index.files().len(), 2);
    assert_eq!(index.dirs().len(), 1);
    assert_eq!(index.files()[0].meta.path(), "a.txt");
    assert_eq!(index.files()[1].meta.path(), "b.txt");
}

#[test]
fn test_test_remove_dir_empty() {
    let mut index = new_test_index(&[]);
    index.remove_dir("foo");
    assert_eq!(index.files().len(), 0);
    assert_eq!(index.dirs().len(), 0);
}

#[test]
fn test_test_remove_dir_single() {
    let mut index = new_test_index(&["foo/a.txt"]);
    index.remove_dir("foo");
    assert_eq!(index.files().len(), 0);
    assert_eq!(index.dirs().len(), 0);
}

#[test]
fn test_test_remove_dir_multiple() {
    let mut index = new_test_index(&["foo/a.txt", "foo/b.txt", "bar/c.txt"]);
    index.remove_dir("foo");
    assert_eq!(index.files().len(), 1);
    assert_eq!(index.dirs().len(), 1);
    assert_eq!(index.files()[0].meta.path(), "bar/c.txt");
}

#[test]
fn test_test_remove_dir_nonexistent() {
    let mut index = new_test_index(&["foo/a.txt", "bar/b.txt"]);
    index.remove_dir("baz");
    assert_eq!(index.files().len(), 2);
    assert_eq!(index.dirs().len(), 2);
}

#[test]
fn test_test_remove_dir_root() {
    let mut index = new_test_index(&["a.txt", "b.txt", "foo/c.txt"]);
    index.remove_dir("");
    assert_eq!(index.files().len(), 0);
    assert_eq!(index.dirs().len(), 0);
}

#[test]
fn test_test_remove_dir_nested() {
    let mut index = new_test_index(&["foo/bar/a.txt", "foo/b.txt", "c.txt"]);
    index.remove_dir("foo/bar");
    assert_eq!(index.files().len(), 2);
    assert_eq!(index.dirs().len(), 2);
    assert_eq!(index.files()[0].meta.path(), "c.txt");
    assert_eq!(index.files()[1].meta.path(), "foo/b.txt");
}

#[test]
fn test_test_remove_dir_nested_children() {
    let mut index = new_test_index(&["foo/bar/baz/a.txt", "foo/bar/b.txt", "c.txt"]);
    index.remove_dir("foo");
    assert_eq!(index.files().len(), 1);
    assert_eq!(index.dirs().len(), 1);
    assert_eq!(index.files()[0].meta.path(), "c.txt");
}

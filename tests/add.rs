use iroh_api::error::ApiError;
use iroh_api::ingest::{add, get_file_info, plan_dir_entries, AddRequest, DirEntry, EntryKind, FileInfo, IngestStep};

fn p(segs: &[&str]) -> Vec<String> {
    segs.iter().map(|s| s.to_string()).collect()
}

fn entry(name: &str, kind: EntryKind, size: u64) -> DirEntry {
    DirEntry { name: name.to_string(), kind, size }
}

#[test]
fn test_get_file_info_stream() {
    let entries = vec![entry("a.txt", EntryKind::RegularFile, 1), entry("sub", EntryKind::Directory, 0)];
    let data = get_file_info(&p(&["fixtures", "root"]), EntryKind::Directory, 0, &entries).unwrap();
    assert_eq!(data, vec![FileInfo::File(p(&["fixtures", "root", "a.txt"]), 1)]);
}

#[test]
fn file_info_of_a_single_file() {
    let data = get_file_info(&p(&["x.bin"]), EntryKind::RegularFile, 42, &Vec::new()).unwrap();
    assert_eq!(data, vec![FileInfo::File(p(&["x.bin"]), 42)]);
}

#[test]
fn file_info_of_a_special_entry_fails() {
    assert_eq!(get_file_info(&p(&["sock"]), EntryKind::Special, 0, &Vec::new()), Err(ApiError::UnsupportedEntryKind));
    assert_eq!(get_file_info(&p(&["link"]), EntryKind::Symlink, 0, &Vec::new()), Err(ApiError::UnsupportedEntryKind));
    assert_eq!(get_file_info(&p(&["gone"]), EntryKind::Missing, 0, &Vec::new()), Err(ApiError::UnsupportedEntryKind));
}

#[test]
fn add_single_file_wraps_unless_told_not_to() {
    assert_eq!(add(EntryKind::RegularFile, false, true), Ok(AddRequest::File { wrap: false }));
    assert_eq!(add(EntryKind::RegularFile, false, false), Ok(AddRequest::File { wrap: true }));
}

#[test]
fn add_directory_passes_recursion_and_ignores_wrapping() {
    assert_eq!(add(EntryKind::Directory, true, false), Ok(AddRequest::Directory { recursive: true }));
    assert_eq!(add(EntryKind::Directory, true, true), Ok(AddRequest::Directory { recursive: true }));
    assert_eq!(add(EntryKind::Directory, false, true), Ok(AddRequest::Directory { recursive: false }));
    assert_eq!(add(EntryKind::Directory, false, false), add(EntryKind::Directory, false, true));
}

#[test]
fn add_special_entry_is_refused() {
    assert_eq!(add(EntryKind::Special, true, true), Err(ApiError::InvalidEntryKind));
    assert_eq!(add(EntryKind::Missing, false, false), Err(ApiError::InvalidEntryKind));
}

#[test]
fn add_symbolic_link_is_unsupported() {
    assert_eq!(add(EntryKind::Symlink, true, true), Err(ApiError::UnsupportedEntryKind));
    assert_eq!(add(EntryKind::Symlink, false, false), Err(ApiError::UnsupportedEntryKind));
}

#[test]
fn non_recursive_walk_skips_sub_directories() {
    let entries = vec![
        entry("a", EntryKind::RegularFile, 3),
        entry("d", EntryKind::Directory, 0),
        entry("b", EntryKind::RegularFile, 4),
    ];
    assert_eq!(
        plan_dir_entries(&entries, false),
        Ok(vec![
            IngestStep::AddFile { name: "a".to_string(), size: 3 },
            IngestStep::AddFile { name: "b".to_string(), size: 4 },
        ])
    );
    assert_eq!(
        plan_dir_entries(&entries, true),
        Ok(vec![
            IngestStep::AddFile { name: "a".to_string(), size: 3 },
            IngestStep::Descend { name: "d".to_string() },
            IngestStep::AddFile { name: "b".to_string(), size: 4 },
        ])
    );
}

#[test]
fn special_child_fails_the_walk() {
    let entries = vec![entry("a", EntryKind::RegularFile, 3), entry("l", EntryKind::Special, 0)];
    assert_eq!(plan_dir_entries(&entries, true), Err(ApiError::UnsupportedEntryKind));
    let linked = vec![entry("l", EntryKind::Symlink, 0), entry("a", EntryKind::RegularFile, 3)];
    assert_eq!(plan_dir_entries(&linked, false), Err(ApiError::UnsupportedEntryKind));
    assert_eq!(plan_dir_entries(&Vec::new(), true), Ok(Vec::new()));
}

use cargo_deb::archive::asset_entries;
use cargo_deb::data::copyright_entries;
use cargo_deb::entry::{ArchiveEntry, EntryKind, CHMOD_BIN_OR_DIR, CHMOD_FILE};
use cargo_deb::error::{AssetError, ConfigError, Error};

fn asset_record(origin: &str, target: &str, mode: &str) -> Vec<String> {
    vec![String::from(origin), String::from(target), String::from(mode)]
}

fn paths_of(entries: &Vec<ArchiveEntry>) -> Vec<String> {
    entries.iter().map(|entry| entry.path.clone()).collect()
}

fn assert_directory(entry: &ArchiveEntry, path: &str, time: u64) {
    assert_eq!(entry.path, path);
    assert_eq!(entry.kind, EntryKind::Directory);
    assert_eq!(entry.mode, 0o755);
    assert_eq!(entry.size, 0);
    assert_eq!(entry.mtime, time);
    assert!(entry.content.is_empty());
}

#[test]
fn permission_constants() {
    assert_eq!(CHMOD_FILE, 0o644);
    assert_eq!(CHMOD_FILE, 420);
    assert_eq!(CHMOD_BIN_OR_DIR, 0o755);
    assert_eq!(CHMOD_BIN_OR_DIR, 493);
}

#[test]
fn directory_entry_has_fixed_mode_and_no_content() {
    let entry = ArchiveEntry::directory(String::from("./usr/"), 99);
    assert_directory(&entry, "./usr/", 99);
}

#[test]
fn file_entry_has_the_size_of_its_content() {
    let content = vec![1u8, 2, 3];
    let entry = ArchiveEntry::file(String::from("./a"), 0o600, 5, &content);
    assert_eq!(entry.path, "./a");
    assert_eq!(entry.kind, EntryKind::File);
    assert_eq!(entry.mode, 0o600);
    assert_eq!(entry.size, 3);
    assert_eq!(entry.mtime, 5);
    assert_eq!(entry.content, &[1u8, 2, 3][..]);
}

#[test]
fn shared_directory_is_synthesized_once_over_all_assets() {
    let records = vec![
        asset_record("one.txt", "d/one.txt", "644"),
        asset_record("two.txt", "d/two.txt", "644"),
    ];
    let contents = vec![b"1".to_vec(), b"22".to_vec()];
    let entries = asset_entries(&records, &contents, 10).unwrap();
    assert_eq!(paths_of(&entries), vec!["./", "./d/", "./d/one.txt", "./d/two.txt"]);
    let count = entries.iter().filter(|entry| entry.path == "./d/").count();
    assert_eq!(count, 1);
}

#[test]
fn ancestors_come_before_the_file() {
    let records = vec![asset_record("c.txt", "a/b/c.txt", "644")];
    let contents = vec![b"c".to_vec()];
    let entries = asset_entries(&records, &contents, 10).unwrap();
    assert_eq!(paths_of(&entries), vec!["./", "./a/", "./a/b/", "./a/b/c.txt"]);
    assert_directory(&entries[0], "./", 10);
    assert_directory(&entries[1], "./a/", 10);
    assert_directory(&entries[2], "./a/b/", 10);
    assert_eq!(entries[3].kind, EntryKind::File);
}

#[test]
fn asset_entries_carry_mode_content_and_time() {
    let records = vec![
        asset_record("target/release/tool", "/usr/bin/", "755"),
        asset_record("README.md", "usr/share/doc/tool/README", "644"),
    ];
    let contents = vec![vec![0x7fu8, b'E', b'L', b'F'], b"read me".to_vec()];
    let entries = asset_entries(&records, &contents, 1500000000).unwrap();
    assert_eq!(
        paths_of(&entries),
        vec![
            "./",
            "./usr/",
            "./usr/bin/",
            "./usr/bin/tool",
            "./usr/share/",
            "./usr/share/doc/",
            "./usr/share/doc/tool/",
            "./usr/share/doc/tool/README",
        ]
    );
    for entry in entries.iter() {
        assert_eq!(entry.mtime, 1500000000);
        assert_eq!(entry.size as usize, entry.content.len());
    }
    assert_eq!(entries[3].kind, EntryKind::File);
    assert_eq!(entries[3].mode, 0o755);
    assert_eq!(entries[3].content, &[0x7fu8, b'E', b'L', b'F'][..]);
    assert_eq!(entries[7].kind, EntryKind::File);
    assert_eq!(entries[7].mode, 0o644);
    assert_eq!(entries[7].size, 7);
    assert_eq!(entries[7].content, &b"read me"[..]);
}

#[test]
fn no_directory_entry_occurs_twice() {
    let records = vec![
        asset_record("a", "x/y/a", "644"),
        asset_record("b", "x/b", "644"),
        asset_record("c", "x/y/z/c", "644"),
        asset_record("d", "w/d", "644"),
        asset_record("e", "x/y/e", "644"),
    ];
    let contents = vec![Vec::new(), Vec::new(), Vec::new(), Vec::new(), Vec::new()];
    let entries = asset_entries(&records, &contents, 0).unwrap();
    let directories: Vec<&String> = entries
        .iter()
        .filter(|entry| entry.kind == EntryKind::Directory)
        .map(|entry| &entry.path)
        .collect();
    assert_eq!(directories, vec!["./", "./x/", "./x/y/", "./x/y/z/", "./w/"]);
    for (place, entry) in entries.iter().enumerate() {
        for (end, _) in entry.path.match_indices('/') {
            let above = &entry.path[..end + 1];
            if above != entry.path {
                assert!(entries[..place]
                    .iter()
                    .any(|earlier| earlier.kind == EntryKind::Directory && earlier.path == above));
            }
        }
    }
}

#[test]
fn same_target_twice_makes_two_file_entries() {
    let records = vec![asset_record("a", "d/f", "644"), asset_record("b", "d/f", "600")];
    let contents = vec![b"a".to_vec(), b"b".to_vec()];
    let entries = asset_entries(&records, &contents, 0).unwrap();
    assert_eq!(paths_of(&entries), vec!["./", "./d/", "./d/f", "./d/f"]);
}

#[test]
fn no_assets_make_no_entries() {
    let contents: Vec<Vec<u8>> = Vec::new();
    let entries = asset_entries(&Vec::new(), &contents, 0).unwrap();
    assert!(entries.is_empty());
}

#[test]
fn malformed_asset_makes_no_entries() {
    let records = vec![asset_record("a", "b", "644"), asset_record("a", "b", "89")];
    let contents = vec![Vec::new(), Vec::new()];
    assert_eq!(
        asset_entries(&records, &contents, 0).unwrap_err(),
        Error::Config(ConfigError::Asset { index: 1, reason: AssetError::InvalidMode })
    );
}

#[test]
fn asset_without_content_makes_no_entries() {
    let records = vec![asset_record("a", "b", "644"), asset_record("c", "d", "644")];
    let contents = vec![Vec::new()];
    assert_eq!(
        asset_entries(&records, &contents, 0).unwrap_err(),
        Error::MissingContent { asset: 1 }
    );
}

#[test]
fn malformed_asset_is_reported_before_missing_content() {
    let records = vec![asset_record("a", "b", "644"), asset_record("c", "", "644")];
    let contents: Vec<Vec<u8>> = Vec::new();
    assert_eq!(
        asset_entries(&records, &contents, 0).unwrap_err(),
        Error::Config(ConfigError::Asset { index: 1, reason: AssetError::EmptyTarget })
    );
}

#[test]
fn copyright_pass_has_fixed_entries() {
    let document = b"Upstream Name: foo\n".to_vec();
    let entries = copyright_entries("foo", &document, 42);
    assert_eq!(entries.len(), 6);
    assert_directory(&entries[0], ".", 42);
    assert_directory(&entries[1], "./usr/", 42);
    assert_directory(&entries[2], "./usr/share/", 42);
    assert_directory(&entries[3], "./usr/share/doc/", 42);
    assert_directory(&entries[4], "./usr/share/doc/foo/", 42);
    assert_eq!(entries[5].path, "./usr/share/doc/foo/copyright");
    assert_eq!(entries[5].kind, EntryKind::File);
    assert_eq!(entries[5].mode, 0o644);
    assert_eq!(entries[5].size, 19);
    assert_eq!(entries[5].mtime, 42);
    assert_eq!(entries[5].content, &document[..]);
}

#[test]
fn copyright_pass_takes_the_name_as_it_is() {
    let entries = copyright_entries("", &[], 0);
    assert_eq!(entries[4].path, "./usr/share/doc//");
    assert_eq!(entries[5].path, "./usr/share/doc//copyright");
    assert_eq!(entries[5].size, 0);
}

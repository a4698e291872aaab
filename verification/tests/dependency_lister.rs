use dependency_lister::DependencyListerError;
use dependency_lister::dep_set::DepSet;
use dependency_lister::file_navigation::find_files;
use dependency_lister::file_navigation::follow_links_if_needed;
use dependency_lister::file_navigation::read_d_file;
use dependency_lister::fs_model::Entry;
use dependency_lister::fs_model::EntryKind;
use dependency_lister::fs_model::FileSystem;
use dependency_lister::get_all_dependencies_from_dir;

fn entry(path: &str, kind: EntryKind) -> Entry {
    Entry { path: path.to_string(), kind }
}

fn dir(names: &[&str]) -> EntryKind {
    EntryKind::Dir(names.iter().map(|n| n.to_string()).collect())
}

fn file(text: &str) -> EntryKind {
    EntryKind::File(text.as_bytes().to_vec())
}

fn link(target: &str) -> EntryKind {
    EntryKind::Symlink(target.to_string())
}

/// The `./test` tree: a `src` subdirectory with two `.rs` files, one `.d`
/// file listing two dependencies (one through a chained link), a regular
/// `source` file, a direct and a chained link to it, and a `readme.md`.
fn test_tree() -> FileSystem {
    FileSystem {
        entries: vec![
            entry(
                "./test",
                dir(&["src", "test.d", "test.rs", "source", "link1", "link2", "readme.md"]),
            ),
            entry("./test/src", dir(&["main.rs", "lib.rs"])),
            entry("./test/src/main.rs", file("")),
            entry("./test/src/lib.rs", file("")),
            entry("./test/test.rs", file("")),
            entry(
                "./test/test.d",
                file("./test/src/main.o: ./test/src/main.rs ./test/link2\n\t./test/src/main.rs \\\n\t./test/link2\n"),
            ),
            entry("./test/source", file("")),
            entry("./test/link1", link("source")),
            entry("./test/link2", link("link1")),
            entry("./test/readme.md", file("")),
        ],
    }
}

fn assert_members(set: &DepSet, members: &[&str]) {
    assert_eq!(set.len(), members.len());
    for m in members {
        assert!(set.contains(&m.to_string()), "missing member: {}", m);
    }
}

#[test]
fn test_find_file() {
    let fs = test_tree();
    let found = find_files(&fs, "./test", ".rs").unwrap();
    assert_members(&found, &["./test/src/main.rs", "./test/src/lib.rs", "./test/test.rs"]);
}

#[test]
fn test_follow_links_if_needed() {
    let fs = test_tree();
    assert_eq!(follow_links_if_needed(&fs, "./test/source"), Ok("./test/source".to_string()));
    assert_eq!(follow_links_if_needed(&fs, "./test/link1"), Ok("./test/source".to_string()));
    assert_eq!(follow_links_if_needed(&fs, "./test/link2"), Ok("./test/source".to_string()));
    assert_eq!(follow_links_if_needed(&fs, "./test/readme.md"), Ok("./test/readme.md".to_string()));
}

#[test]
fn test_read_d_file() {
    let fs = test_tree();
    let mut set = DepSet::new();
    assert_eq!(read_d_file(&fs, &"./test/test.d".to_string(), &mut set), Ok(()));
    assert_members(&set, &["./test/src/main.rs", "./test/source"]);
}

#[test]
fn test_get_all_dependencies_from_dir() {
    let fs = test_tree();
    let deps = get_all_dependencies_from_dir(&fs, "./test").unwrap();
    assert_members(&deps, &["./test/src/main.rs", "./test/source"]);
}

/// A `test/`-rooted tree: `test/test.d` names one dependency directly and
/// one through links, and the whole listing returns the two resolved paths.
#[test]
fn test_collect_dependencies_scenario() {
    let fs = FileSystem {
        entries: vec![
            entry("test", dir(&["src", "test.d", "source", "link1", "link2"])),
            entry("test/src", dir(&["main.rs"])),
            entry("test/src/main.rs", file("")),
            entry(
                "test/test.d",
                file("test/src/main.o: test/src/main.rs test/source\n\ttest/src/main.rs\n\ttest/link2\n"),
            ),
            entry("test/source", file("")),
            entry("test/link1", link("source")),
            entry("test/link2", link("link1")),
        ],
    };
    let deps = get_all_dependencies_from_dir(&fs, "test").unwrap();
    assert_members(&deps, &["test/src/main.rs", "test/source"]);
}

/// Resolving an already-resolved path returns the same value again.
#[test]
fn test_resolve_twice_is_resolve_once() {
    let fs = test_tree();
    let once = follow_links_if_needed(&fs, "./test/link2").unwrap();
    let twice = follow_links_if_needed(&fs, once.as_str()).unwrap();
    assert_eq!(once, twice);
    assert_eq!(twice, "./test/source".to_string());
}

/// An absolute link target stands by itself: no parent directory is joined.
#[test]
fn test_absolute_link_target() {
    let fs = FileSystem {
        entries: vec![
            entry("./here/link", link("/elsewhere/target")),
            entry("/elsewhere/target", file("")),
        ],
    };
    assert_eq!(
        follow_links_if_needed(&fs, "./here/link"),
        Ok("/elsewhere/target".to_string())
    );
}

/// A directory whose path ends with the suffix is collected like a file.
#[test]
fn test_find_files_collects_matching_directory() {
    let fs = FileSystem {
        entries: vec![
            entry("root", dir(&["sub.d", "plain"])),
            entry("root/sub.d", dir(&["inner.d"])),
            entry("root/sub.d/inner.d", file("")),
            entry("root/plain", file("")),
        ],
    };
    let found = find_files(&fs, "root", ".d").unwrap();
    assert_members(&found, &["root/sub.d", "root/sub.d/inner.d"]);
}

/// Entries shorter than the suffix are skipped without a match.
#[test]
fn test_find_files_suffix_longer_than_names() {
    let fs = test_tree();
    let found = find_files(&fs, "./test", "a-suffix-longer-than-every-entry-path").unwrap();
    assert_eq!(found.len(), 0);
}

/// The union over several `.d` files is deduplicated.
#[test]
fn test_union_of_two_d_files() {
    let fs = FileSystem {
        entries: vec![
            entry("top", dir(&["a.d", "b.d", "one", "two"])),
            entry("top/a.d", file("a.o: deps\n\ttop/one\n\ttop/two\n")),
            entry("top/b.d", file("b.o: deps\n\ttop/two\n\ttop/one\n")),
            entry("top/one", file("")),
            entry("top/two", file("")),
        ],
    };
    let deps = get_all_dependencies_from_dir(&fs, "top").unwrap();
    assert_members(&deps, &["top/one", "top/two"]);
}

/// A `.d` file whose only line is the target declaration lists nothing, and
/// lines shorter than four bytes are skipped.
#[test]
fn test_short_and_first_lines_are_skipped() {
    let fs = FileSystem {
        entries: vec![
            entry("top", dir(&["only.d", "dep"])),
            entry("top/only.d", file("a.o: top/dep\n\tab\n\n\ttop/dep\n")),
            entry("top/dep", file("")),
        ],
    };
    let deps = get_all_dependencies_from_dir(&fs, "top").unwrap();
    assert_members(&deps, &["top/dep"]);
}

/// A root that is not a directory of the table fails the whole listing.
#[test]
fn test_directory_reading_error() {
    let fs = test_tree();
    assert_eq!(
        get_all_dependencies_from_dir(&fs, "./absent"),
        Err(DependencyListerError::DirectoryReadingError("./absent".to_string()))
    );
    assert_eq!(
        find_files(&fs, "./test/source", ".d"),
        Err(DependencyListerError::DirectoryReadingError("./test/source".to_string()))
    );
}

/// Parsing a path that is not a regular file fails with `UnableToRead`.
#[test]
fn test_unable_to_read_error() {
    let fs = test_tree();
    let mut set = DepSet::new();
    assert_eq!(
        read_d_file(&fs, &"./test/src".to_string(), &mut set),
        Err(DependencyListerError::UnableToRead("./test/src".to_string()))
    );
    assert_eq!(
        read_d_file(&fs, &"./test/absent.d".to_string(), &mut set),
        Err(DependencyListerError::UnableToRead("./test/absent.d".to_string()))
    );
}

/// A path that cannot be inspected, here the missing target of a broken
/// link, fails with `NotALink`.
#[test]
fn test_not_a_link_error() {
    let fs = FileSystem {
        entries: vec![entry("./t/broken", link("ghost"))],
    };
    assert_eq!(
        follow_links_if_needed(&fs, "./t/absent"),
        Err(DependencyListerError::NotALink("./t/absent".to_string()))
    );
    assert_eq!(
        follow_links_if_needed(&fs, "./t/broken"),
        Err(DependencyListerError::NotALink("./t/ghost".to_string()))
    );
}

/// A cyclic chain of links fails with `LinkCycleError` naming the path the
/// resolution started from.
#[test]
fn test_link_cycle_error() {
    let fs = FileSystem {
        entries: vec![
            entry("./t/a", link("b")),
            entry("./t/b", link("a")),
            entry("./t/self", link("self")),
        ],
    };
    assert_eq!(
        follow_links_if_needed(&fs, "./t/a"),
        Err(DependencyListerError::LinkCycleError("./t/a".to_string()))
    );
    assert_eq!(
        follow_links_if_needed(&fs, "./t/self"),
        Err(DependencyListerError::LinkCycleError("./t/self".to_string()))
    );
}

/// A line fragment that is not valid text fails with
/// `UnsuportedFileEncoding` carrying the raw bytes.
#[test]
fn test_unsupported_encoding_error() {
    let mut content: Vec<u8> = "a.o: deps\n".as_bytes().to_vec();
    content.push(9);
    content.push(255);
    content.push(254);
    content.push(253);
    content.push(10);
    let fs = FileSystem {
        entries: vec![
            entry("top", dir(&["bad.d"])),
            entry("top/bad.d", EntryKind::File(content)),
        ],
    };
    assert_eq!(
        get_all_dependencies_from_dir(&fs, "top"),
        Err(DependencyListerError::UnsuportedFileEncoding(vec![255, 254, 253]))
    );
}

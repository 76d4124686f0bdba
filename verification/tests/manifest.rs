use relaydrop::framed::FileEntry;
use relaydrop::manifest::{
    build_manifest, check_inputs, input_step, walk_step, EntryKind, InputStep, ManifestError,
    ManifestItem, WalkStep,
};
use relaydrop::paths::safe_relpath;

fn item(relpath: &str, source: u32) -> ManifestItem<u32> {
    ManifestItem {
        entry: FileEntry { relpath: relpath.into(), size: 1, sha256: "00".into() },
        source,
    }
}

fn listed(items: &[ManifestItem<u32>]) -> Vec<(String, u32)> {
    items.iter().map(|i| (i.entry.relpath.clone(), i.source)).collect()
}

#[test]
fn manifests_are_sorted_by_path() {
    let items = vec![item("b", 1), item("a/z", 2), item("a", 3), item("a-b", 4), item("ü", 5), item("B", 6)];
    let list = match build_manifest(items) {
        Ok(list) => list,
        Err(e) => panic!("{e:?}"),
    };
    let expected: Vec<(String, u32)> =
        vec![("B", 6), ("a", 3), ("a-b", 4), ("a/z", 2), ("b", 1), ("ü", 5)]
            .into_iter()
            .map(|(n, s)| (n.to_string(), s))
            .collect();
    assert_eq!(listed(&list), expected);
}

#[test]
fn manifests_do_not_depend_on_the_order_found() {
    let one = build_manifest(vec![item("x", 1), item("y", 2), item("z", 3)]);
    let two = build_manifest(vec![item("z", 3), item("x", 1), item("y", 2)]);
    match (one, two) {
        (Ok(a), Ok(b)) => assert_eq!(listed(&a), listed(&b)),
        _ => panic!("both make a manifest"),
    }
}

#[test]
fn the_least_duplicate_is_named() {
    let items = vec![item("z", 1), item("m", 2), item("z", 3), item("m", 4), item("a", 5)];
    assert_eq!(build_manifest(items).err(), Some(ManifestError::Duplicate { name: "m".into() }));
}

#[test]
fn no_files_make_no_manifest() {
    let none: Vec<ManifestItem<u32>> = Vec::new();
    assert_eq!(build_manifest(none).err(), Some(ManifestError::NoFiles));
}

#[test]
fn inputs() {
    assert!(matches!(
        input_step("/tmp/myfolder/", EntryKind::Directory),
        InputStep::Walk { prefix } if prefix == "myfolder"
    ));
    assert!(matches!(
        input_step("./big.iso", EntryKind::File),
        InputStep::Add { relpath } if relpath == "big.iso"
    ));
    assert!(matches!(
        input_step("..", EntryKind::Directory),
        InputStep::Walk { prefix } if prefix == "dir"
    ));
    assert!(matches!(
        input_step("/", EntryKind::File),
        InputStep::Add { relpath } if relpath == "file"
    ));
}

#[test]
fn links_and_special_files_are_skipped_as_inputs() {
    assert!(matches!(input_step("/dev/null", EntryKind::Other), InputStep::SkipSpecial));
    assert!(matches!(input_step("link", EntryKind::Symlink), InputStep::SkipSymlink));
}

#[test]
fn inputs_with_the_same_name_are_refused() {
    let steps = [
        input_step("x/data", EntryKind::Directory),
        input_step("link", EntryKind::Symlink),
        input_step("f", EntryKind::File),
        input_step("y/data", EntryKind::Directory),
        input_step("z/f", EntryKind::File),
    ];
    let names: Vec<String> = steps.iter().filter_map(|s| s.name()).collect();
    assert_eq!(names, vec!["data", "f", "data", "f"]);
    assert_eq!(check_inputs(&names), Err(ManifestError::Duplicate { name: "data".into() }));
    assert_eq!(check_inputs(&names[..2].to_vec()), Ok(()));
    assert_eq!(check_inputs(&Vec::new()), Ok(()));
    let mixed = vec!["a".to_string(), "b".to_string(), "b".to_string(), "a".to_string()];
    assert_eq!(check_inputs(&mixed), Err(ManifestError::Duplicate { name: "a".into() }));
    let sorted_last = vec!["b".to_string(), "b".to_string(), "a".to_string(), "a".to_string()];
    assert_eq!(check_inputs(&sorted_last), Err(ManifestError::Duplicate { name: "a".into() }));
}

#[test]
fn directory_entries() {
    assert!(matches!(walk_step("d", "l", EntryKind::Symlink), WalkStep::SkipSymlink));
    assert!(matches!(walk_step("d", "s", EntryKind::Other), WalkStep::SkipSpecial));
    assert!(matches!(
        walk_step("d", "sub", EntryKind::Directory),
        WalkStep::Descend { prefix } if prefix == "d/sub"
    ));
    assert!(matches!(
        walk_step("d/sub", "f", EntryKind::File),
        WalkStep::Add { relpath } if relpath == "d/sub/f"
    ));
    assert!(matches!(
        walk_step("d", "..\\x", EntryKind::File),
        WalkStep::Add { relpath } if relpath == "d/..\\x"
    ));
}

#[test]
fn walked_paths_keep_the_tree_and_are_stored_as_they_are() {
    let mut prefix = match input_step("/home/me/top", EntryKind::Directory) {
        InputStep::Walk { prefix } => prefix,
        other => panic!("{other:?}"),
    };
    for name in ["a", "b"] {
        prefix = match walk_step(&prefix, name, EntryKind::Directory) {
            WalkStep::Descend { prefix } => prefix,
            other => panic!("{other:?}"),
        };
    }
    let relpath = match walk_step(&prefix, "c.txt", EntryKind::File) {
        WalkStep::Add { relpath } => relpath,
        other => panic!("{other:?}"),
    };
    assert_eq!(relpath, "top/a/b/c.txt");
    assert_eq!(safe_relpath(&relpath), relpath);
}

#[test]
fn what_is_said_about_a_list_that_cannot_be_sent() {
    assert_eq!(
        ManifestError::Duplicate { name: "a.txt".into() }.text(),
        "duplicate entry name: a.txt"
    );
    assert_eq!(
        ManifestError::NoFiles.text(),
        "no files to send (all inputs empty or skipped)"
    );
}

use checkpoint_backup::tree::{
    child_path, clone_dir, find_dir, find_file, make_sidecar_name, name_ends_with_meta,
    name_is_sidecar, path_has_prefix, path_is_ignored, put_file, DirNode, FileNode,
};
use std::path::Path;

fn file(name: &str, content: &str) -> FileNode {
    FileNode { name: name.as_bytes().to_vec(), content: content.as_bytes().to_vec() }
}

fn path(names: &[&str]) -> Vec<Vec<u8>> {
    names.iter().map(|n| n.as_bytes().to_vec()).collect()
}

const NAMES: [&str; 22] = [
    "a.txt", "a", "a.meta", ".meta", "..meta", "meta", "a.b.c", ".bashrc", ".bashrc.bak", "a.",
    "a..", "x.META", "x.meta.bak", "x.metaa", "xmeta", "a.meta.meta", "...", ".a.", "notes.txt.meta",
    "name with spaces.doc", "\u{e9}t\u{e9}.txt", "m.e.t.a",
];

#[test]
fn sidecar_name_is_the_whole_name_with_the_ending_behind_it() {
    assert_eq!(make_sidecar_name(b"a.txt"), b"a.txt.meta".to_vec());
    assert_eq!(make_sidecar_name(b"a"), b"a.meta".to_vec());
    assert_eq!(make_sidecar_name(b"a.b.c"), b"a.b.c.meta".to_vec());
    assert_eq!(make_sidecar_name(b".bashrc"), b".bashrc.meta".to_vec());
    assert_eq!(make_sidecar_name(b"a."), b"a..meta".to_vec());
    assert_eq!(make_sidecar_name(b"a.meta"), b"a.meta.meta".to_vec());
    assert_eq!(make_sidecar_name(b""), b".meta".to_vec());
}

#[test]
fn sidecar_names_are_metadata_names_and_differ_where_the_names_differ() {
    for name in NAMES {
        let side = make_sidecar_name(name.as_bytes());
        assert_eq!(side, format!("{}.meta", name).into_bytes());
        assert!(name_is_sidecar(&side));
        assert!(name_ends_with_meta(&side));
        for other in NAMES {
            assert_eq!(make_sidecar_name(other.as_bytes()) == side, other == name);
        }
    }
}

#[test]
fn metadata_files_are_those_with_the_extension_meta() {
    assert!(name_is_sidecar(b"a.meta"));
    assert!(name_is_sidecar(b"a.b.meta"));
    assert!(!name_is_sidecar(b".meta"));
    assert!(!name_is_sidecar(b"meta"));
    assert!(!name_is_sidecar(b"a.metaa"));
    assert!(!name_is_sidecar(b"a.META"));
    assert!(!name_is_sidecar(b""));
    for name in NAMES {
        let expected = Path::new(name).extension().map(|e| e == "meta").unwrap_or(false);
        assert_eq!(name_is_sidecar(name.as_bytes()), expected, "name {:?}", name);
    }
}

#[test]
fn names_that_end_in_meta_are_told_by_their_last_bytes() {
    assert!(name_ends_with_meta(b".meta"));
    assert!(name_ends_with_meta(b"a.meta"));
    assert!(!name_ends_with_meta(b"meta"));
    assert!(!name_ends_with_meta(b"a.meta "));
    assert!(!name_ends_with_meta(b""));
    for name in NAMES {
        assert_eq!(name_ends_with_meta(name.as_bytes()), name.ends_with(".meta"), "name {:?}", name);
    }
}

#[test]
fn child_path_adds_one_name() {
    assert_eq!(child_path(&path(&["home", "me"]), b"src"), path(&["home", "me", "src"]));
    assert_eq!(child_path(&path(&[]), b"src"), path(&["src"]));
}

#[test]
fn prefix_is_taken_name_by_name() {
    let at = path(&["home", "me", "project", "target"]);
    assert!(path_has_prefix(&at, &path(&["home", "me", "project", "target"])));
    assert!(path_has_prefix(&at, &path(&["home", "me"])));
    assert!(path_has_prefix(&at, &path(&[])));
    assert!(!path_has_prefix(&at, &path(&["home", "me", "project", "tar"])));
    assert!(!path_has_prefix(&at, &path(&["home", "me", "project", "target", "debug"])));
    assert!(!path_has_prefix(&at, &path(&["me"])));
}

#[test]
fn a_directory_is_ignored_when_a_pattern_is_a_prefix_of_its_path() {
    let ignore = vec![path(&["src", "target"]), path(&["src", "node_modules"])];
    assert!(path_is_ignored(&path(&["src", "target"]), &ignore));
    assert!(path_is_ignored(&path(&["src", "target", "debug"]), &ignore));
    assert!(path_is_ignored(&path(&["src", "node_modules"]), &ignore));
    assert!(!path_is_ignored(&path(&["src", "targets"]), &ignore));
    assert!(!path_is_ignored(&path(&["src"]), &ignore));
    assert!(!path_is_ignored(&path(&["other", "src", "target"]), &ignore));
    assert!(!path_is_ignored(&path(&["src", "target"]), &Vec::new()));
}

#[test]
fn find_gives_the_first_entry_of_a_name() {
    let files = vec![file("a", "1"), file("b", "2"), file("a", "3")];
    assert_eq!(find_file(&files, b"a"), Some(0));
    assert_eq!(find_file(&files, b"b"), Some(1));
    assert_eq!(find_file(&files, b"c"), None);
    assert_eq!(find_file(&Vec::new(), b"a"), None);
    let dirs = vec![
        DirNode { name: b"x".to_vec(), files: Vec::new(), dirs: Vec::new() },
        DirNode { name: b"y".to_vec(), files: Vec::new(), dirs: Vec::new() },
    ];
    assert_eq!(find_dir(&dirs, b"y"), Some(1));
    assert_eq!(find_dir(&dirs, b"z"), None);
}

#[test]
fn put_replaces_in_place_or_adds_at_the_end() {
    let mut files = vec![file("a", "1"), file("b", "2")];
    put_file(&mut files, b"a".to_vec(), b"changed".to_vec());
    assert_eq!(files.len(), 2);
    assert_eq!(files[0].name, b"a".to_vec());
    assert_eq!(files[0].content, b"changed".to_vec());
    assert_eq!(files[1].content, b"2".to_vec());
    put_file(&mut files, b"c".to_vec(), b"3".to_vec());
    assert_eq!(files.len(), 3);
    assert_eq!(files[2].name, b"c".to_vec());
    assert_eq!(files[2].content, b"3".to_vec());
}

#[test]
fn clone_copies_the_whole_tree() {
    let tree = DirNode {
        name: b"root".to_vec(),
        files: vec![file("a", "1")],
        dirs: vec![DirNode { name: b"sub".to_vec(), files: vec![file("b", "2")], dirs: Vec::new() }],
    };
    let copy = clone_dir(&tree);
    assert_eq!(copy.name, tree.name);
    assert_eq!(copy.files.len(), 1);
    assert_eq!(copy.files[0].content, b"1".to_vec());
    assert_eq!(copy.dirs.len(), 1);
    assert_eq!(copy.dirs[0].name, b"sub".to_vec());
    assert_eq!(copy.dirs[0].files[0].name, b"b".to_vec());
    assert_eq!(copy.dirs[0].files[0].content, b"2".to_vec());
}

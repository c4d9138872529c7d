use checkpoint_backup::archive::ArchiveError;
use checkpoint_backup::driver::{
    backup, copy_dir_recursive, generate_meta, read_last_checkpoint, resolve_pointer, BackupError,
    BackupPlan, Config, Staging,
};
use checkpoint_backup::fold::{extract_dir, ArchiveFailure};
use checkpoint_backup::record::{FileInfo, MetaError};
use checkpoint_backup::tree::{DirNode, FileNode};
use checkpoint_backup::walker::{WalkError, WalkFault};

const ARCHIVE: &[u8] = b"meta.zip";
const FIRST: i64 = 1_700_000_000;
const SECOND: i64 = 1_700_086_400;

fn file(name: &str, content: &str) -> FileNode {
    FileNode { name: name.as_bytes().to_vec(), content: content.as_bytes().to_vec() }
}

fn dir(name: &str, files: Vec<FileNode>, dirs: Vec<DirNode>) -> DirNode {
    DirNode { name: name.as_bytes().to_vec(), files, dirs }
}

fn path(names: &[&str]) -> Vec<Vec<u8>> {
    names.iter().map(|n| n.as_bytes().to_vec()).collect()
}

fn names(files: &[FileNode]) -> Vec<String> {
    files.iter().map(|f| String::from_utf8_lossy(&f.name).into_owned()).collect()
}

fn dir_names(dirs: &[DirNode]) -> Vec<String> {
    dirs.iter().map(|d| String::from_utf8_lossy(&d.name).into_owned()).collect()
}

fn content_of<'a>(files: &'a [FileNode], name: &str) -> Option<&'a [u8]> {
    files.iter().find(|f| f.name == name.as_bytes()).map(|f| f.content.as_slice())
}

fn config(ignore: Vec<Vec<Vec<u8>>>, remove: bool) -> Config {
    Config { ignore_dirs: ignore, archive_name: ARCHIVE.to_vec(), remove_temp_immediately: remove }
}

fn source(a: &str) -> DirNode {
    dir("src", vec![file("a.txt", a)], vec![dir("sub", vec![file("b.txt", "world")], Vec::new())])
}

fn run(src: &DirNode, last: Option<&DirNode>, name: &str, cfg: &Config, now: i64) -> Result<BackupPlan, BackupError> {
    backup(src, &path(&["src"]), last, &path(&["backup", "temp"]), &path(&["backup", name]), name.as_bytes().to_vec(), cfg, now)
}

fn records(checkpoint: &DirNode, cfg: &Config) -> DirNode {
    extract_dir(checkpoint, &path(&["backup", "look"]), &cfg.ignore_dirs, &cfg.archive_name).unwrap()
}

fn record_of(files: &[FileNode], name: &str) -> FileInfo {
    FileInfo::deserialize(content_of(files, name).unwrap()).unwrap()
}

#[test]
fn pointer_names_the_latest_checkpoint() {
    assert_eq!(read_last_checkpoint(b"2024-01-01_00-00_00"), Some(b"2024-01-01_00-00_00".to_vec()));
    assert_eq!(read_last_checkpoint(b"  2024-01-01_00-00_00 \r\n"), Some(b"2024-01-01_00-00_00".to_vec()));
    assert_eq!(read_last_checkpoint("\u{a0}name\u{2003}".as_bytes()), Some(b"name".to_vec()));
    assert_eq!(read_last_checkpoint(b"two words"), Some(b"two words".to_vec()));
}

#[test]
fn pointer_without_a_name_names_nothing() {
    assert_eq!(read_last_checkpoint(b""), None);
    assert_eq!(read_last_checkpoint(b" \n\t "), None);
    assert_eq!(read_last_checkpoint(&[0xff, 0xfe]), None);
    assert_eq!(resolve_pointer(Vec::new()), None);
    assert_eq!(resolve_pointer(b"x".to_vec()), Some(b"x".to_vec()));
}

#[test]
fn staging_copies_directories_and_archives_only() {
    let checkpoint = dir(
        "2024",
        vec![file("a.txt", "hello"), file("meta.zip", "Z0"), file("meta.zip.bak", "no")],
        vec![dir("sub", vec![file("b.txt", "world"), file("meta.zip", "Z1")], vec![dir("empty", Vec::new(), Vec::new())])],
    );
    let copy = copy_dir_recursive(&checkpoint, ARCHIVE);
    assert_eq!(copy.name, b"2024".to_vec());
    assert_eq!(names(&copy.files), vec!["meta.zip"]);
    assert_eq!(content_of(&copy.files, "meta.zip"), Some(&b"Z0"[..]));
    assert_eq!(dir_names(&copy.dirs), vec!["sub"]);
    assert_eq!(names(&copy.dirs[0].files), vec!["meta.zip"]);
    assert_eq!(content_of(&copy.dirs[0].files, "meta.zip"), Some(&b"Z1"[..]));
    assert_eq!(dir_names(&copy.dirs[0].dirs), vec!["empty"]);
    assert_eq!(copy.dirs[0].dirs[0].files.len(), 0);
}

#[test]
fn generate_meta_writes_and_folds_metadata() {
    let cfg = config(vec![path(&["data", "skip"])], true);
    let tree = dir(
        "data",
        vec![file("a.txt", "hello"), file("b", "")],
        vec![dir("sub", vec![file("c.txt", "world")], Vec::new()), dir("skip", vec![file("d.txt", "left")], Vec::new())],
    );
    let out = generate_meta(&tree, &path(&["data"]), &cfg, FIRST).unwrap();
    assert_eq!(names(&out.files), vec!["a.txt", "b", "meta.zip"]);
    assert_eq!(names(&out.dirs[0].files), vec!["c.txt", "meta.zip"]);
    assert_eq!(names(&out.dirs[1].files), vec!["d.txt"]);
    let open = records(&out, &cfg);
    assert_eq!(names(&open.files), vec!["a.txt", "b", "a.txt.meta", "b.meta"]);
    assert_eq!(record_of(&open.files, "a.txt.meta").size, 5);
    assert_eq!(record_of(&open.files, "a.txt.meta").time_stamp, FIRST);
    assert!(record_of(&open.dirs[0].files, "c.txt.meta").unchanged(&FileInfo::capture_at(b"world", 0)));
}

#[test]
fn generate_meta_of_a_tree_without_files_changes_nothing() {
    let cfg = config(Vec::new(), true);
    let tree = dir("data", Vec::new(), vec![dir("sub", Vec::new(), Vec::new())]);
    let out = generate_meta(&tree, &path(&["data"]), &cfg, FIRST).unwrap();
    assert_eq!(out.files.len(), 0);
    assert_eq!(dir_names(&out.dirs), vec!["sub"]);
}

#[test]
fn first_run_copies_all_files_and_folds_their_records() {
    let cfg = config(Vec::new(), true);
    let plan = run(&source("hello"), None, "2023-11-14_22-13_20", &cfg, FIRST).unwrap();
    assert_eq!(plan.pointer, b"2023-11-14_22-13_20".to_vec());
    assert!(matches!(plan.staging, Staging::Untouched));
    assert_eq!(names(&plan.checkpoint.files), vec!["a.txt", "meta.zip"]);
    assert_eq!(content_of(&plan.checkpoint.files, "a.txt"), Some(&b"hello"[..]));
    assert_eq!(dir_names(&plan.checkpoint.dirs), vec!["sub"]);
    assert_eq!(names(&plan.checkpoint.dirs[0].files), vec!["b.txt", "meta.zip"]);
    assert_eq!(content_of(&plan.checkpoint.dirs[0].files, "b.txt"), Some(&b"world"[..]));
    let open = records(&plan.checkpoint, &cfg);
    assert_eq!(names(&open.files), vec!["a.txt", "a.txt.meta"]);
    assert!(record_of(&open.files, "a.txt.meta").unchanged(&FileInfo::capture_at(b"hello", 0)));
    assert_eq!(names(&open.dirs[0].files), vec!["b.txt", "b.txt.meta"]);
    assert!(record_of(&open.dirs[0].files, "b.txt.meta").unchanged(&FileInfo::capture_at(b"world", 0)));
}

#[test]
fn second_run_on_the_same_tree_copies_nothing() {
    let cfg = config(Vec::new(), true);
    let first = run(&source("hello"), None, "first", &cfg, FIRST).unwrap();
    let second = run(&source("hello"), Some(&first.checkpoint), "second", &cfg, SECOND).unwrap();
    assert_eq!(second.pointer, b"second".to_vec());
    assert!(matches!(second.staging, Staging::Removed));
    assert_eq!(names(&second.checkpoint.files), vec!["meta.zip"]);
    assert_eq!(names(&second.checkpoint.dirs[0].files), vec!["meta.zip"]);
    let before = records(&first.checkpoint, &cfg);
    let after = records(&second.checkpoint, &cfg);
    assert_eq!(names(&after.files), vec!["a.txt.meta"]);
    assert!(record_of(&after.files, "a.txt.meta").unchanged(&record_of(&before.files, "a.txt.meta")));
    assert_eq!(record_of(&after.files, "a.txt.meta").time_stamp, SECOND);
    assert_eq!(names(&after.dirs[0].files), vec!["b.txt.meta"]);
    assert!(record_of(&after.dirs[0].files, "b.txt.meta").unchanged(&record_of(&before.dirs[0].files, "b.txt.meta")));
}

#[test]
fn second_run_copies_the_file_that_changed() {
    let cfg = config(Vec::new(), true);
    let first = run(&source("hello"), None, "first", &cfg, FIRST).unwrap();
    let second = run(&source("hello!"), Some(&first.checkpoint), "second", &cfg, SECOND).unwrap();
    assert_eq!(names(&second.checkpoint.files), vec!["a.txt", "meta.zip"]);
    assert_eq!(content_of(&second.checkpoint.files, "a.txt"), Some(&b"hello!"[..]));
    assert_eq!(names(&second.checkpoint.dirs[0].files), vec!["meta.zip"]);
    let before = record_of(&records(&first.checkpoint, &cfg).files, "a.txt.meta");
    let after = record_of(&records(&second.checkpoint, &cfg).files, "a.txt.meta");
    assert_ne!(after.hash, before.hash);
    assert_ne!(after.size, before.size);
    assert_eq!(after.size, 6);
    assert!(!after.unchanged(&before));
}

#[test]
fn a_directory_that_is_left_out_leaves_no_trace() {
    let cfg = config(vec![path(&["src", "target"])], true);
    let src = dir(
        "src",
        vec![file("a.txt", "hello")],
        vec![dir("target", vec![file("big.bin", "junk")], vec![dir("debug", vec![file("x", "y")], Vec::new())]), dir("sub", Vec::new(), Vec::new())],
    );
    let plan = run(&src, None, "first", &cfg, FIRST).unwrap();
    assert_eq!(dir_names(&plan.checkpoint.dirs), vec!["sub"]);
    assert_eq!(names(&plan.checkpoint.files), vec!["a.txt", "meta.zip"]);
    assert_eq!(plan.checkpoint.dirs[0].files.len(), 0);
    let again = run(&src, Some(&plan.checkpoint), "second", &cfg, SECOND).unwrap();
    assert_eq!(dir_names(&again.checkpoint.dirs), vec!["sub"]);
    assert_eq!(names(&again.checkpoint.files), vec!["meta.zip"]);
}

#[test]
fn staging_is_kept_when_the_settings_say_so() {
    let cfg = config(Vec::new(), false);
    let first = run(&source("hello"), None, "first", &cfg, FIRST).unwrap();
    assert!(matches!(first.staging, Staging::Untouched));
    let second = run(&source("hello"), Some(&first.checkpoint), "second", &cfg, SECOND).unwrap();
    match second.staging {
        Staging::Kept(staged) => {
            assert_eq!(names(&staged.files), vec!["a.txt.meta"]);
            assert_eq!(dir_names(&staged.dirs), vec!["sub"]);
            assert_eq!(names(&staged.dirs[0].files), vec!["b.txt.meta"]);
            assert_eq!(record_of(&staged.files, "a.txt.meta").time_stamp, FIRST);
        },
        _ => panic!("the staged copy should be kept"),
    }
}

#[test]
fn a_run_that_fails_names_no_checkpoint() {
    let cfg = config(Vec::new(), true);
    let broken = dir("old", Vec::new(), vec![dir("sub", vec![file("meta.zip", "no archive at all")], Vec::new())]);
    assert_eq!(
        run(&source("hello"), Some(&broken), "second", &cfg, SECOND).unwrap_err(),
        BackupError::Archive(ArchiveFailure { path: path(&["backup", "temp", "sub"]), error: ArchiveError::InvalidArchive })
    );
    let stale = checkpoint_backup::fold::compress_process(&vec![file("a.txt.meta", "5\nabc\n")], ARCHIVE).unwrap();
    let unreadable = dir("old", stale, Vec::new());
    assert_eq!(
        run(&source("hello"), Some(&unreadable), "second", &cfg, SECOND).unwrap_err(),
        BackupError::Walk(WalkError { path: path(&["src", "a.txt"]), error: WalkFault::Record(MetaError::MissingTimestamp) })
    );
}

#[test]
fn a_previous_checkpoint_without_metadata_makes_every_file_new() {
    let cfg = config(Vec::new(), true);
    let empty = dir("old", vec![file("a.txt", "hello")], Vec::new());
    let plan = run(&source("hello"), Some(&empty), "second", &cfg, SECOND).unwrap();
    assert_eq!(names(&plan.checkpoint.files), vec!["a.txt", "meta.zip"]);
    assert!(matches!(plan.staging, Staging::Removed));
}

#[test]
fn a_run_over_files_that_are_not_named_apart_names_no_checkpoint() {
    let cfg = config(Vec::new(), true);
    let src = dir("src", vec![file("a.txt", "hello"), file("a.txt.meta", "in the way")], Vec::new());
    assert_eq!(
        run(&src, None, "first", &cfg, FIRST).unwrap_err(),
        BackupError::Walk(WalkError { path: path(&["src"]), error: WalkFault::NameClash })
    );
}

#[test]
fn files_with_one_stem_are_followed_apart_from_run_to_run() {
    let cfg = config(Vec::new(), true);
    let src = dir("src", vec![file("a.txt", "text"), file("a.md", "mark")], Vec::new());
    let first = run(&src, None, "first", &cfg, FIRST).unwrap();
    assert_eq!(names(&first.checkpoint.files), vec!["a.txt", "a.md", "meta.zip"]);
    let second = run(&src, Some(&first.checkpoint), "second", &cfg, SECOND).unwrap();
    assert_eq!(names(&second.checkpoint.files), vec!["meta.zip"]);
    let changed = dir("src", vec![file("a.txt", "text"), file("a.md", "down")], Vec::new());
    let third = run(&changed, Some(&second.checkpoint), "third", &cfg, SECOND + 1).unwrap();
    assert_eq!(names(&third.checkpoint.files), vec!["a.md", "meta.zip"]);
    let open = records(&third.checkpoint, &cfg);
    assert!(record_of(&open.files, "a.txt.meta").unchanged(&FileInfo::capture_at(b"text", 0)));
    assert!(record_of(&open.files, "a.md.meta").unchanged(&FileInfo::capture_at(b"down", 0)));
}

#[test]
fn a_file_that_bears_the_name_of_the_archive_gives_way_to_it() {
    let cfg = config(Vec::new(), true);
    let src = dir("src", vec![file("meta.zip", "mine"), file("a.txt", "hello")], Vec::new());
    let plan = run(&src, None, "first", &cfg, FIRST).unwrap();
    assert_eq!(names(&plan.checkpoint.files), vec!["meta.zip", "a.txt"]);
    assert_ne!(content_of(&plan.checkpoint.files, "meta.zip"), Some(&b"mine"[..]));
    let open = records(&plan.checkpoint, &cfg);
    assert_eq!(names(&open.files), vec!["a.txt", "meta.zip.meta", "a.txt.meta"]);
    assert!(record_of(&open.files, "meta.zip.meta").unchanged(&FileInfo::capture_at(b"mine", 0)));
}

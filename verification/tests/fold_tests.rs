use checkpoint_backup::archive::{create_zip, ArchiveError};
use checkpoint_backup::fold::{
    compress_dir, compress_process, delete_meta_files, extract_dir, extract_entries, extract_zip,
    install_archive, remove_named, select_files, wants_entry, ArchiveFailure,
};
use checkpoint_backup::tree::{DirNode, FileNode};
use std::io::{Cursor, Read, Write};

const ARCHIVE: &[u8] = b"meta.zip";

fn file(name: &str, content: &str) -> FileNode {
    FileNode { name: name.as_bytes().to_vec(), content: content.as_bytes().to_vec() }
}

fn dir(name: &str, files: Vec<FileNode>, dirs: Vec<DirNode>) -> DirNode {
    DirNode { name: name.as_bytes().to_vec(), files, dirs }
}

fn listing(files: &[FileNode]) -> Vec<(String, String)> {
    files
        .iter()
        .map(|f| (String::from_utf8_lossy(&f.name).into_owned(), String::from_utf8_lossy(&f.content).into_owned()))
        .collect()
}

fn pairs(items: &[(&str, &str)]) -> Vec<(String, String)> {
    items.iter().map(|(n, c)| (n.to_string(), c.to_string())).collect()
}

fn members(bytes: &[u8]) -> Vec<(String, String)> {
    let mut archive = zip::ZipArchive::new(Cursor::new(bytes.to_vec())).unwrap();
    let mut out = Vec::new();
    for i in 0..archive.len() {
        let mut member = archive.by_index(i).unwrap();
        let name = String::from_utf8_lossy(member.name_raw()).into_owned();
        let mut data = Vec::new();
        member.read_to_end(&mut data).unwrap();
        out.push((name, String::from_utf8_lossy(&data).into_owned()));
    }
    out
}

fn content_of<'a>(files: &'a [FileNode], name: &str) -> Option<&'a [u8]> {
    files.iter().find(|f| f.name == name.as_bytes()).map(|f| f.content.as_slice())
}

#[test]
fn create_zip_stores_every_file_under_its_own_name() {
    let files = vec![file("a.meta", "one"), file("b.meta", ""), file("c.txt", "three")];
    let bytes = create_zip(&files).unwrap();
    assert_eq!(members(&bytes), pairs(&[("a.meta", "one"), ("b.meta", ""), ("c.txt", "three")]));
}

#[test]
fn create_zip_keeps_names_that_are_not_ascii() {
    let files = vec![file("\u{e9}t\u{e9}.meta", "un"), file("\u{65e5}\u{672c}.meta", "deux")];
    let bytes = create_zip(&files).unwrap();
    assert_eq!(members(&bytes), pairs(&[("\u{e9}t\u{e9}.meta", "un"), ("\u{65e5}\u{672c}.meta", "deux")]));
    let out = extract_zip(&vec![FileNode { name: ARCHIVE.to_vec(), content: bytes }], &Vec::new(), ARCHIVE).unwrap();
    assert_eq!(out[0].name, "\u{e9}t\u{e9}.meta".as_bytes().to_vec());
    assert_eq!(out[1].name, "\u{65e5}\u{672c}.meta".as_bytes().to_vec());
}

#[test]
fn create_zip_writes_names_as_text() {
    let files = vec![FileNode { name: vec![0xff, b'.', b'm', b'e', b't', b'a'], content: b"x".to_vec() }];
    let bytes = create_zip(&files).unwrap();
    assert_eq!(members(&bytes), pairs(&[("\u{fffd}.meta", "x")]));
}

#[test]
fn create_zip_of_nothing_is_an_empty_archive() {
    let bytes = create_zip(&Vec::new()).unwrap();
    assert_eq!(members(&bytes), Vec::new());
}

#[test]
fn create_zip_refuses_two_members_of_one_name() {
    let files = vec![file("a.meta", "one"), file("a.meta", "two")];
    assert_eq!(create_zip(&files).unwrap_err(), ArchiveError::InvalidArchive);
}

#[test]
fn create_zip_keeps_large_and_binary_data() {
    let data: Vec<u8> = (0..200_000u32).map(|i| (i % 253) as u8).collect();
    let files = vec![FileNode { name: b"big.meta".to_vec(), content: data.clone() }];
    let bytes = create_zip(&files).unwrap();
    let out = extract_zip(&vec![FileNode { name: ARCHIVE.to_vec(), content: bytes }], &Vec::new(), ARCHIVE).unwrap();
    assert_eq!(out.len(), 1);
    assert_eq!(out[0].name, b"big.meta".to_vec());
    assert_eq!(out[0].content, data);
}

#[test]
fn select_splits_a_listing_into_metadata_and_the_rest() {
    let files = vec![file("a.txt", "1"), file("a.meta", "2"), file(".meta", "3"), file("b.meta", "4")];
    assert_eq!(listing(&select_files(&files, true)), pairs(&[("a.meta", "2"), ("b.meta", "4")]));
    assert_eq!(listing(&select_files(&files, false)), pairs(&[("a.txt", "1"), (".meta", "3")]));
    assert_eq!(listing(&delete_meta_files(&files)), pairs(&[("a.txt", "1"), (".meta", "3")]));
}

#[test]
fn install_archive_replaces_the_metadata_files() {
    let files = vec![file("a.txt", "1"), file("a.meta", "2")];
    let out = install_archive(&files, ARCHIVE, b"zip".to_vec());
    assert_eq!(listing(&out), pairs(&[("a.txt", "1"), ("meta.zip", "zip")]));
    let again = vec![file("meta.zip", "old"), file("a.txt", "1"), file("a.meta", "2")];
    let out = install_archive(&again, ARCHIVE, b"new".to_vec());
    assert_eq!(listing(&out), pairs(&[("meta.zip", "new"), ("a.txt", "1")]));
}

#[test]
fn fold_without_metadata_changes_nothing() {
    let files = vec![file("a.txt", "1"), file("b", "2")];
    let out = compress_process(&files, ARCHIVE).unwrap();
    assert_eq!(listing(&out), pairs(&[("a.txt", "1"), ("b", "2")]));
    assert_eq!(compress_process(&Vec::new(), ARCHIVE).unwrap().len(), 0);
}

#[test]
fn fold_packs_the_metadata_files_and_removes_them() {
    let files = vec![file("a.txt", "hello"), file("a.meta", "one"), file("b.meta", "two"), file("c", "")];
    let out = compress_process(&files, ARCHIVE).unwrap();
    assert_eq!(out.len(), 3);
    assert_eq!(out[0].name, b"a.txt".to_vec());
    assert_eq!(out[0].content, b"hello".to_vec());
    assert_eq!(out[1].name, b"c".to_vec());
    assert_eq!(out[2].name, ARCHIVE.to_vec());
    assert_eq!(members(&out[2].content), pairs(&[("a.meta", "one"), ("b.meta", "two")]));
}

#[test]
fn wants_entry_asks_for_the_ending_and_a_free_name() {
    let files = vec![file("a.meta", "1")];
    let dirs = vec![dir("d.meta", Vec::new(), Vec::new())];
    assert!(wants_entry(&files, &dirs, b"b.meta"));
    assert!(wants_entry(&files, &dirs, b".meta"));
    assert!(!wants_entry(&files, &dirs, b"a.meta"));
    assert!(!wants_entry(&files, &dirs, b"d.meta"));
    assert!(!wants_entry(&files, &dirs, b"b.txt"));
    assert!(!wants_entry(&files, &dirs, b"meta"));
}

#[test]
fn remove_named_takes_out_the_first_file_of_the_name() {
    let mut files = vec![file("a", "1"), file("b", "2"), file("a", "3")];
    remove_named(&mut files, b"a");
    assert_eq!(listing(&files), pairs(&[("b", "2"), ("a", "3")]));
    remove_named(&mut files, b"zzz");
    assert_eq!(listing(&files), pairs(&[("b", "2"), ("a", "3")]));
}

#[test]
fn extract_entries_adds_wanted_members_and_removes_the_archive() {
    let files = vec![file("keep.txt", "k"), file("meta.zip", "zip"), file("b.meta", "loose")];
    let dirs = vec![dir("d.meta", Vec::new(), Vec::new())];
    let given = vec![
        file("a.meta", "A"),
        file("readme.txt", "skipped"),
        file("b.meta", "not written over"),
        file("d.meta", "a directory has the name"),
        file("a.meta", "second of the name"),
        file(".meta", "dot"),
    ];
    let out = extract_entries(&files, &dirs, ARCHIVE, &given);
    assert_eq!(listing(&out), pairs(&[("keep.txt", "k"), ("b.meta", "loose"), ("a.meta", "A"), (".meta", "dot")]));
}

#[test]
fn extract_entries_reads_names_as_text() {
    let given = vec![FileNode { name: vec![0xff, b'.', b'm', b'e', b't', b'a'], content: b"x".to_vec() }];
    let out = extract_entries(&Vec::new(), &Vec::new(), ARCHIVE, &given);
    assert_eq!(out.len(), 1);
    assert_eq!(out[0].name, "\u{fffd}.meta".as_bytes().to_vec());
    assert_eq!(out[0].content, b"x".to_vec());
}

#[test]
fn unfold_without_an_archive_changes_nothing() {
    let files = vec![file("a.txt", "1"), file("a.meta", "2")];
    let out = extract_zip(&files, &Vec::new(), ARCHIVE).unwrap();
    assert_eq!(listing(&out), pairs(&[("a.txt", "1"), ("a.meta", "2")]));
}

#[test]
fn unfold_takes_out_the_members_and_removes_the_archive() {
    let packed = create_zip(&vec![file("a.meta", "one"), file("b.meta", "two")]).unwrap();
    let files = vec![file("a.txt", "hello"), FileNode { name: ARCHIVE.to_vec(), content: packed }];
    let out = extract_zip(&files, &Vec::new(), ARCHIVE).unwrap();
    assert_eq!(listing(&out), pairs(&[("a.txt", "hello"), ("a.meta", "one"), ("b.meta", "two")]));
}

#[test]
fn unfold_skips_members_that_are_no_metadata_and_names_that_are_taken() {
    let packed = create_zip(&vec![file("a.meta", "one"), file("notes.txt", "n"), file("b.meta", "two"), file("c.meta", "three")]).unwrap();
    let files = vec![file("b.meta", "mine"), FileNode { name: ARCHIVE.to_vec(), content: packed }];
    let dirs = vec![dir("c.meta", Vec::new(), Vec::new())];
    let out = extract_zip(&files, &dirs, ARCHIVE).unwrap();
    assert_eq!(listing(&out), pairs(&[("b.meta", "mine"), ("a.meta", "one")]));
}

#[test]
fn unfold_fails_on_bytes_that_are_no_archive() {
    let files = vec![file("meta.zip", "this is no archive")];
    assert_eq!(extract_zip(&files, &Vec::new(), ARCHIVE).unwrap_err(), ArchiveError::InvalidArchive);
}

#[test]
fn unfold_of_an_empty_archive_only_removes_it() {
    let packed = create_zip(&Vec::new()).unwrap();
    let files = vec![file("a.txt", "1"), FileNode { name: ARCHIVE.to_vec(), content: packed }];
    let out = extract_zip(&files, &Vec::new(), ARCHIVE).unwrap();
    assert_eq!(listing(&out), pairs(&[("a.txt", "1")]));
}

#[test]
fn fold_after_unfold_restores_the_archive_members() {
    let stored = vec![file("a.meta", "one"), file("b.meta", "two"), file("c.d.meta", "")];
    let packed = create_zip(&stored).unwrap();
    let at_rest = vec![file("a.txt", "hello"), FileNode { name: ARCHIVE.to_vec(), content: packed.clone() }];
    let unfolded = extract_zip(&at_rest, &Vec::new(), ARCHIVE).unwrap();
    let folded = compress_process(&unfolded, ARCHIVE).unwrap();
    assert_eq!(members(content_of(&folded, "meta.zip").unwrap()), members(&packed));
    assert_eq!(members(content_of(&folded, "meta.zip").unwrap()), pairs(&[("a.meta", "one"), ("b.meta", "two"), ("c.d.meta", "")]));
    assert_eq!(content_of(&folded, "a.txt"), Some(&b"hello"[..]));
    assert_eq!(folded.len(), 2);
}

#[test]
fn unfold_after_fold_restores_the_metadata_files() {
    let files = vec![file("a.txt", "hello"), file("a.meta", "one"), file("b.meta", "two")];
    let folded = compress_process(&files, ARCHIVE).unwrap();
    let unfolded = extract_zip(&folded, &Vec::new(), ARCHIVE).unwrap();
    assert_eq!(listing(&unfolded), pairs(&[("a.txt", "hello"), ("a.meta", "one"), ("b.meta", "two")]));
}

fn sample_tree() -> DirNode {
    dir(
        "root",
        vec![file("a.txt", "hello"), file("a.meta", "ma")],
        vec![
            dir("sub", vec![file("b.meta", "mb"), file("c.meta", "mc")], vec![dir("deep", vec![file("d.meta", "md")], Vec::new())]),
            dir("skip", vec![file("s.meta", "ms")], Vec::new()),
            dir("plain", vec![file("p.txt", "p")], Vec::new()),
        ],
    )
}

fn root_path() -> Vec<Vec<u8>> {
    vec![b"root".to_vec()]
}

fn ignore_skip() -> Vec<Vec<Vec<u8>>> {
    vec![vec![b"root".to_vec(), b"skip".to_vec()]]
}

#[test]
fn fold_tree_folds_every_directory_that_is_not_left_out() {
    let out = compress_dir(&sample_tree(), &root_path(), &ignore_skip(), ARCHIVE).unwrap();
    assert_eq!(out.name, b"root".to_vec());
    assert_eq!(out.files.len(), 2);
    assert_eq!(out.files[0].name, b"a.txt".to_vec());
    assert_eq!(members(content_of(&out.files, "meta.zip").unwrap()), pairs(&[("a.meta", "ma")]));
    assert_eq!(out.dirs.len(), 3);
    let sub = &out.dirs[0];
    assert_eq!(sub.name, b"sub".to_vec());
    assert_eq!(sub.files.len(), 1);
    assert_eq!(members(content_of(&sub.files, "meta.zip").unwrap()), pairs(&[("b.meta", "mb"), ("c.meta", "mc")]));
    assert_eq!(members(content_of(&sub.dirs[0].files, "meta.zip").unwrap()), pairs(&[("d.meta", "md")]));
    assert_eq!(listing(&out.dirs[1].files), pairs(&[("s.meta", "ms")]));
    assert_eq!(listing(&out.dirs[2].files), pairs(&[("p.txt", "p")]));
}

#[test]
fn unfold_tree_reverses_fold_tree() {
    let folded = compress_dir(&sample_tree(), &root_path(), &ignore_skip(), ARCHIVE).unwrap();
    let out = extract_dir(&folded, &root_path(), &ignore_skip(), ARCHIVE).unwrap();
    assert_eq!(listing(&out.files), pairs(&[("a.txt", "hello"), ("a.meta", "ma")]));
    assert_eq!(listing(&out.dirs[0].files), pairs(&[("b.meta", "mb"), ("c.meta", "mc")]));
    assert_eq!(listing(&out.dirs[0].dirs[0].files), pairs(&[("d.meta", "md")]));
    assert_eq!(listing(&out.dirs[1].files), pairs(&[("s.meta", "ms")]));
    assert_eq!(listing(&out.dirs[2].files), pairs(&[("p.txt", "p")]));
}

#[test]
fn unfold_tree_leaves_archives_in_directories_that_are_left_out() {
    let folded = compress_dir(&sample_tree(), &root_path(), &Vec::new(), ARCHIVE).unwrap();
    assert_eq!(folded.dirs[1].files.len(), 1);
    assert_eq!(folded.dirs[1].files[0].name, ARCHIVE.to_vec());
    let out = extract_dir(&folded, &root_path(), &ignore_skip(), ARCHIVE).unwrap();
    assert_eq!(out.dirs[1].files.len(), 1);
    assert_eq!(out.dirs[1].files[0].name, ARCHIVE.to_vec());
    assert_eq!(listing(&out.dirs[0].files), pairs(&[("b.meta", "mb"), ("c.meta", "mc")]));
}

#[test]
fn fold_tree_without_metadata_changes_nothing() {
    let tree = dir("root", vec![file("a.txt", "1")], vec![dir("sub", vec![file("b", "2")], Vec::new())]);
    let out = compress_dir(&tree, &root_path(), &Vec::new(), ARCHIVE).unwrap();
    assert_eq!(listing(&out.files), pairs(&[("a.txt", "1")]));
    assert_eq!(listing(&out.dirs[0].files), pairs(&[("b", "2")]));
    let same = extract_dir(&tree, &root_path(), &Vec::new(), ARCHIVE).unwrap();
    assert_eq!(listing(&same.files), pairs(&[("a.txt", "1")]));
}

fn stored_archive(name: &str, data: &[u8]) -> Vec<u8> {
    let mut writer = zip::ZipWriter::new(Cursor::new(Vec::new()));
    let options = zip::write::SimpleFileOptions::default().compression_method(zip::CompressionMethod::Stored);
    writer.start_file(name, options).unwrap();
    writer.write_all(data).unwrap();
    writer.finish().unwrap().into_inner()
}

fn position(bytes: &[u8], pattern: &[u8]) -> usize {
    bytes.windows(pattern.len()).position(|w| w == pattern).unwrap()
}

#[test]
fn unfold_fails_on_a_member_whose_data_is_damaged() {
    let mut bytes = stored_archive("a.meta", b"some stored data");
    let at = position(&bytes, b"some stored data");
    bytes[at] = b'S';
    let files = vec![FileNode { name: ARCHIVE.to_vec(), content: bytes }];
    assert_eq!(extract_zip(&files, &Vec::new(), ARCHIVE).unwrap_err(), ArchiveError::Io);
}

#[test]
fn unfold_does_not_read_the_data_of_members_it_skips() {
    let mut bytes = stored_archive("notes.txt", b"some stored data");
    let at = position(&bytes, b"some stored data");
    bytes[at] = b'S';
    let files = vec![FileNode { name: ARCHIVE.to_vec(), content: bytes }];
    assert_eq!(extract_zip(&files, &Vec::new(), ARCHIVE).unwrap().len(), 0);
}

#[test]
fn unfold_fails_on_a_member_that_is_encrypted() {
    let mut bytes = stored_archive("a.meta", b"some stored data");
    let central = position(&bytes, &[b'P', b'K', 1, 2]);
    bytes[central + 8] |= 1;
    let files = vec![FileNode { name: ARCHIVE.to_vec(), content: bytes }];
    assert_eq!(extract_zip(&files, &Vec::new(), ARCHIVE).unwrap_err(), ArchiveError::UnsupportedArchive);
}

#[test]
fn fold_tree_names_the_directory_whose_archive_cannot_be_written() {
    let tree = dir(
        "root",
        vec![file("a.meta", "ma")],
        vec![dir("sub", vec![file("b.meta", "one"), file("b.meta", "two")], Vec::new())],
    );
    assert_eq!(
        compress_dir(&tree, &root_path(), &Vec::new(), ARCHIVE).unwrap_err(),
        ArchiveFailure { path: vec![b"root".to_vec(), b"sub".to_vec()], error: ArchiveError::InvalidArchive }
    );
}

#[test]
fn unfold_tree_names_the_directory_whose_archive_cannot_be_read() {
    let tree = dir("root", vec![file("meta.zip", "garbage")], vec![dir("sub", Vec::new(), Vec::new())]);
    assert_eq!(
        extract_dir(&tree, &root_path(), &Vec::new(), ARCHIVE).unwrap_err(),
        ArchiveFailure { path: vec![b"root".to_vec()], error: ArchiveError::InvalidArchive }
    );
}

#[test]
fn create_zip_keeps_unusual_names_and_their_data() {
    for name in ["dir/", "back\\", "/abs.meta", "../up.meta", "a/b.meta", "", " ", "nul\0.meta", "a.meta/", "\u{feff}x.meta", "."] {
        let files = vec![file(name, "payload of this member"), file("plain.meta", "p")];
        let bytes = create_zip(&files).unwrap();
        assert_eq!(members(&bytes), pairs(&[(name, "payload of this member"), ("plain.meta", "p")]), "name {:?}", name);
    }
}

#[test]
fn create_zip_refuses_a_name_that_is_too_long() {
    let long = "x".repeat(65_536);
    assert_eq!(create_zip(&vec![file(&long, "data")]).unwrap_err(), ArchiveError::NameTooLong);
    assert_eq!(create_zip(&vec![file("a.meta", "a"), file(&long, "data")]).unwrap_err(), ArchiveError::NameTooLong);
    let fits = "x".repeat(65_535);
    assert_eq!(members(&create_zip(&vec![file(&fits, "data")]).unwrap()), pairs(&[(fits.as_str(), "data")]));
}

#[test]
fn unfold_fails_without_a_crash_on_truncated_and_empty_archives() {
    let whole = create_zip(&vec![file("a.meta", "one"), file("b.meta", "two")]).unwrap();
    for cut in 0..whole.len() {
        let files = vec![FileNode { name: ARCHIVE.to_vec(), content: whole[..cut].to_vec() }];
        assert!(extract_zip(&files, &Vec::new(), ARCHIVE).is_err(), "cut at {}", cut);
    }
    for start in 1..whole.len() {
        let files = vec![FileNode { name: ARCHIVE.to_vec(), content: whole[start..].to_vec() }];
        let _ = extract_zip(&files, &Vec::new(), ARCHIVE);
    }
}

#[test]
fn unfold_does_not_crash_on_archives_with_a_damaged_byte() {
    let whole = create_zip(&vec![file("a.meta", "one"), file("b.meta", "two")]).unwrap();
    for at in 0..whole.len() {
        for flip in [0x01u8, 0x80, 0xff] {
            let mut bytes = whole.clone();
            bytes[at] ^= flip;
            let files = vec![FileNode { name: ARCHIVE.to_vec(), content: bytes }];
            let _ = extract_zip(&files, &Vec::new(), ARCHIVE);
        }
    }
}

#[test]
fn create_zip_looks_at_all_names_before_it_packs() {
    let long = "x".repeat(65_536);
    let files = vec![file("a.meta", "one"), file("a.meta", "two"), file(&long, "data")];
    assert_eq!(create_zip(&files).unwrap_err(), ArchiveError::NameTooLong);
    assert_eq!(compress_process(&vec![file("a.meta", "one"), FileNode { name: format!("{}.meta", long).into_bytes(), content: Vec::new() }], ARCHIVE).unwrap_err(), ArchiveError::NameTooLong);
    assert_eq!(compress_process(&vec![file(&long, "no metadata file")], ARCHIVE).unwrap().len(), 1);
}

#[test]
fn fold_tree_stops_at_the_first_directory_that_fails_and_tells_why() {
    let long = format!("{}.meta", "x".repeat(65_536));
    let tree = dir(
        "root",
        vec![file("a.meta", "ma")],
        vec![
            dir("fine", vec![file("b.meta", "mb")], Vec::new()),
            dir("long", vec![file("c.meta", "mc"), file(&long, "")], vec![dir("twice", vec![file("d.meta", "1"), file("d.meta", "2")], Vec::new())]),
            dir("twice", vec![file("e.meta", "1"), file("e.meta", "2")], Vec::new()),
        ],
    );
    assert_eq!(
        compress_dir(&tree, &root_path(), &Vec::new(), ARCHIVE).unwrap_err(),
        ArchiveFailure { path: vec![b"root".to_vec(), b"long".to_vec()], error: ArchiveError::NameTooLong }
    );
    let without_long = vec![vec![b"root".to_vec(), b"long".to_vec()]];
    assert_eq!(
        compress_dir(&tree, &root_path(), &without_long, ARCHIVE).unwrap_err(),
        ArchiveFailure { path: vec![b"root".to_vec(), b"twice".to_vec()], error: ArchiveError::InvalidArchive }
    );
}

#[test]
fn unfold_tree_stops_at_the_first_directory_that_fails() {
    let tree = dir(
        "root",
        Vec::new(),
        vec![
            dir("fine", Vec::new(), vec![dir("bad", vec![file("meta.zip", "garbage")], Vec::new())]),
            dir("worse", vec![file("meta.zip", "more garbage")], Vec::new()),
        ],
    );
    assert_eq!(
        extract_dir(&tree, &root_path(), &Vec::new(), ARCHIVE).unwrap_err(),
        ArchiveFailure { path: vec![b"root".to_vec(), b"fine".to_vec(), b"bad".to_vec()], error: ArchiveError::InvalidArchive }
    );
}

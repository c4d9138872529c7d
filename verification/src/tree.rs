//! Directory trees held in memory: files as named runs of bytes,
//! directories as lists of files and of directories, and the rules on
//! names and paths.
//!
//! A name is the name of one directory entry, as bytes. A path is a list
//! of names. A listing keeps the order in which its entries were handed
//! in; looking a name up finds the first entry of that name.

use vstd::prelude::*;
use crate::text::bytes_equal;

verus! {

/// A file as a mathematical value.
pub struct FileView {
    pub name: Seq<u8>,
    pub content: Seq<u8>,
}

/// A directory as a mathematical value.
pub struct DirView {
    pub name: Seq<u8>,
    pub files: Seq<FileView>,
    pub dirs: Seq<DirView>,
}

/// A file: its name and its content.
#[derive(Debug)]
pub struct FileNode {
    pub name: Vec<u8>,
    pub content: Vec<u8>,
}

/// A directory: its name, its files and its subdirectories.
#[derive(Debug)]
pub struct DirNode {
    pub name: Vec<u8>,
    pub files: Vec<FileNode>,
    pub dirs: Vec<DirNode>,
}

impl View for FileNode {
    type V = FileView;

    open spec fn view(&self) -> FileView {
        FileView { name: self.name@, content: self.content@ }
    }
}

/// The files of a listing as mathematical values.
pub open spec fn files_view(files: Seq<FileNode>) -> Seq<FileView> {
    Seq::new(files.len(), |i: int| files[i]@)
}

/// The directory `d` as a mathematical value.
pub open spec fn dir_view(d: DirNode) -> DirView
    decreases d,
{
    DirView {
        name: d.name@,
        files: files_view(d.files@),
        dirs: Seq::new(
            d.dirs@.len(),
            |i: int|
                if 0 <= i < d.dirs@.len() {
                    dir_view(d.dirs@[i])
                } else {
                    arbitrary()
                },
        ),
    }
}

/// The directories of a listing as mathematical values.
pub open spec fn dirs_view(dirs: Seq<DirNode>) -> Seq<DirView> {
    Seq::new(dirs.len(), |i: int| dir_view(dirs[i]))
}

impl View for DirNode {
    type V = DirView;

    open spec fn view(&self) -> DirView {
        dir_view(*self)
    }
}

/// The view of a directory is made of the views of its parts.
pub proof fn lemma_dir_view(d: DirNode)
    ensures
        d@.name == d.name@,
        d@.files == files_view(d.files@),
        d@.dirs == dirs_view(d.dirs@),
{
    assert(dir_view(d).dirs =~= dirs_view(d.dirs@));
}

/// A path as a mathematical value.
pub open spec fn path_view(path: Seq<Vec<u8>>) -> Seq<Seq<u8>> {
    Seq::new(path.len(), |i: int| path[i]@)
}

/// A list of paths as a mathematical value.
pub open spec fn paths_view(paths: Seq<Vec<Vec<u8>>>) -> Seq<Seq<Seq<u8>>> {
    Seq::new(paths.len(), |i: int| path_view(paths[i]@))
}

/// The text `.meta`, which ends the name of every metadata file.
pub open spec fn meta_suffix() -> Seq<u8> {
    seq![46u8, 109u8, 101u8, 116u8, 97u8]
}

/// Whether `name` ends in `.meta`.
pub open spec fn ends_with_meta(name: Seq<u8>) -> bool {
    name.len() >= 5 && name.skip(name.len() - 5) == meta_suffix()
}

/// Whether `name` is the name of a metadata file: it has the extension
/// `meta`, that is, it ends in `.meta` and has something before it.
pub open spec fn is_sidecar_name(name: Seq<u8>) -> bool {
    name.len() > 5 && ends_with_meta(name)
}

/// The name of the metadata file that goes with the file `name`: the
/// whole name of the file with `.meta` behind it. So two files have the
/// same metadata file only if they have the same name.
pub open spec fn sidecar_name(name: Seq<u8>) -> Seq<u8> {
    name + meta_suffix()
}

/// Whether no two files of a listing share a name.
pub open spec fn unique_names(files: Seq<FileView>) -> bool {
    forall|i: int, j: int|
        0 <= i < j < files.len() ==> (#[trigger] files[i]).name != (#[trigger] files[j]).name
}

/// Whether `pattern` is a prefix of `path`, name by name.
pub open spec fn is_path_prefix(pattern: Seq<Seq<u8>>, path: Seq<Seq<u8>>) -> bool {
    pattern.len() <= path.len() && path.take(pattern.len() as int) == pattern
}

/// Whether the directory at `path` is left out: one of the patterns is a
/// prefix of its path.
pub open spec fn is_ignored(path: Seq<Seq<u8>>, ignore: Seq<Seq<Seq<u8>>>) -> bool {
    exists|k: int| 0 <= k < ignore.len() && is_path_prefix(#[trigger] ignore[k], path)
}

/// The index of the first entry of `names` that equals `name`, or the
/// length of `names` when none does.
pub open spec fn name_index(names: Seq<Seq<u8>>, name: Seq<u8>) -> int
    decreases names.len(),
{
    if names.len() == 0 || names[0] == name {
        0
    } else {
        1 + name_index(names.skip(1), name)
    }
}

/// The names of the files of a listing, in order.
pub open spec fn file_names(files: Seq<FileView>) -> Seq<Seq<u8>> {
    Seq::new(files.len(), |i: int| files[i].name)
}

/// The names of the directories of a listing, in order.
pub open spec fn dir_names(dirs: Seq<DirView>) -> Seq<Seq<u8>> {
    Seq::new(dirs.len(), |i: int| dirs[i].name)
}

/// Whether a file called `name` is in the listing.
pub open spec fn has_file(files: Seq<FileView>, name: Seq<u8>) -> bool {
    name_index(file_names(files), name) < files.len()
}

/// Whether a directory called `name` is in the listing.
pub open spec fn has_dir(dirs: Seq<DirView>, name: Seq<u8>) -> bool {
    name_index(dir_names(dirs), name) < dirs.len()
}

/// The content of the first file called `name`, if there is one.
pub open spec fn file_content(files: Seq<FileView>, name: Seq<u8>) -> Option<Seq<u8>> {
    if has_file(files, name) {
        Some(files[name_index(file_names(files), name)].content)
    } else {
        None
    }
}

/// The first directory called `name`, if there is one.
pub open spec fn subdir(dirs: Seq<DirView>, name: Seq<u8>) -> Option<DirView> {
    if has_dir(dirs, name) {
        Some(dirs[name_index(dir_names(dirs), name)])
    } else {
        None
    }
}

/// The listing after a file called `name` was written with `content`: the
/// first file of that name is replaced where it stands, and without one the
/// file is added at the end.
pub open spec fn put(files: Seq<FileView>, name: Seq<u8>, content: Seq<u8>) -> Seq<FileView> {
    if has_file(files, name) {
        files.update(name_index(file_names(files), name), FileView { name, content })
    } else {
        files.push(FileView { name, content })
    }
}

/// Where the first entry of a name stands: no entry before it has that
/// name.
pub proof fn lemma_name_index(names: Seq<Seq<u8>>, name: Seq<u8>)
    ensures
        0 <= name_index(names, name) <= names.len(),
        forall|i: int| 0 <= i < name_index(names, name) ==> #[trigger] names[i] != name,
        name_index(names, name) < names.len() ==> names[name_index(names, name)] == name,
    decreases names.len(),
{
    if names.len() == 0 || names[0] == name {
    } else {
        let rest = names.skip(1);
        lemma_name_index(rest, name);
        let p = name_index(names, name);
        assert forall|i: int| 0 <= i < p implies #[trigger] names[i] != name by {
            if i > 0 {
                assert(names[i] == rest[i - 1]);
            }
        }
        if p < names.len() {
            assert(names[p] == rest[p - 1]);
        }
    }
}

/// An index with no entry of the name before it, which holds the name or is
/// the length of the list, is the index of the first entry of that name.
pub proof fn lemma_name_index_is(names: Seq<Seq<u8>>, name: Seq<u8>, p: int)
    requires
        0 <= p <= names.len(),
        forall|i: int| 0 <= i < p ==> #[trigger] names[i] != name,
        p < names.len() ==> names[p] == name,
    ensures
        name_index(names, name) == p,
{
    lemma_name_index(names, name);
    let q = name_index(names, name);
    if q < p {
        assert(names[q] != name);
    } else if p < q {
        assert(names[p] != name);
    }
}

/// The name of a metadata file ends in `.meta` and is the name of a
/// metadata file, unless it goes with the empty name. It is longer than
/// the name of the file it goes with, and so another name.
pub proof fn lemma_sidecar_name_is_sidecar(name: Seq<u8>)
    ensures
        ends_with_meta(sidecar_name(name)),
        name.len() > 0 ==> is_sidecar_name(sidecar_name(name)),
        sidecar_name(name).len() == name.len() + 5,
        sidecar_name(name) != name,
{
    let s = sidecar_name(name);
    assert(s.skip(s.len() - 5) =~= meta_suffix());
}

/// Files of different names have different metadata files.
pub proof fn lemma_sidecar_names_differ(one: Seq<u8>, other: Seq<u8>)
    requires
        one != other,
    ensures
        sidecar_name(one) != sidecar_name(other),
{
    if sidecar_name(one) == sidecar_name(other) {
        assert(sidecar_name(one).take(one.len() as int) =~= one);
        assert(sidecar_name(other).take(other.len() as int) =~= other);
        assert(sidecar_name(one).len() == one.len() + 5);
        assert(sidecar_name(other).len() == other.len() + 5);
        assert(one =~= other);
    }
}

/// Whether `name` ends in `.meta`.
pub fn name_ends_with_meta(name: &[u8]) -> (b: bool)
    ensures
        b == ends_with_meta(name@),
{
    let n: usize = name.len();
    if n < 5 {
        return false;
    }
    let b: bool = name[n - 5] == 46 && name[n - 4] == 109 && name[n - 3] == 101 && name[n - 2]
        == 116 && name[n - 1] == 97;
    proof {
        let tail = name@.skip(n - 5);
        if b {
            assert(tail =~= meta_suffix());
        } else {
            assert(tail[0] == name@[n - 5]);
            assert(tail[1] == name@[n - 4]);
            assert(tail[2] == name@[n - 3]);
            assert(tail[3] == name@[n - 2]);
            assert(tail[4] == name@[n - 1]);
        }
    }
    b
}

/// Whether `name` is the name of a metadata file.
pub fn name_is_sidecar(name: &[u8]) -> (b: bool)
    ensures
        b == is_sidecar_name(name@),
{
    name.len() > 5 && name_ends_with_meta(name)
}

/// The name of the metadata file that goes with the file `name`.
pub fn make_sidecar_name(name: &[u8]) -> (out: Vec<u8>)
    ensures
        out@ == sidecar_name(name@),
{
    let mut out: Vec<u8> = copy_bytes(name);
    out.push(46);
    out.push(109);
    out.push(101);
    out.push(116);
    out.push(97);
    assert(out@ =~= sidecar_name(name@));
    out
}

/// A copy of `bytes`.
pub fn copy_bytes(bytes: &[u8]) -> (out: Vec<u8>)
    ensures
        out@ == bytes@,
{
    let out = crate::text::copy_range(bytes, 0, bytes.len());
    assert(bytes@.subrange(0, bytes.len() as int) =~= bytes@);
    out
}

/// The path of the entry called `name` in the directory at `path`.
pub fn child_path(path: &Vec<Vec<u8>>, name: &[u8]) -> (out: Vec<Vec<u8>>)
    ensures
        path_view(out@) == path_view(path@).push(name@),
{
    let mut out: Vec<Vec<u8>> = Vec::new();
    let mut i: usize = 0;
    while i < path.len()
        invariant
            i <= path.len(),
            out.len() == i,
            forall|j: int| 0 <= j < i ==> #[trigger] out@[j]@ == path@[j]@,
        decreases path.len() - i,
    {
        out.push(copy_bytes(path[i].as_slice()));
        i += 1;
    }
    out.push(copy_bytes(name));
    assert(path_view(out@) =~= path_view(path@).push(name@));
    out
}

/// A copy of `path`.
pub fn copy_path(path: &Vec<Vec<u8>>) -> (out: Vec<Vec<u8>>)
    ensures
        path_view(out@) == path_view(path@),
{
    let mut out: Vec<Vec<u8>> = Vec::new();
    let mut i: usize = 0;
    while i < path.len()
        invariant
            i <= path.len(),
            out.len() == i,
            forall|j: int| 0 <= j < i ==> #[trigger] out@[j]@ == path@[j]@,
        decreases path.len() - i,
    {
        out.push(copy_bytes(path[i].as_slice()));
        i += 1;
    }
    assert(path_view(out@) =~= path_view(path@));
    out
}

/// Whether `pattern` is a prefix of `path`, name by name.
pub fn path_has_prefix(path: &Vec<Vec<u8>>, pattern: &Vec<Vec<u8>>) -> (b: bool)
    ensures
        b == is_path_prefix(path_view(pattern@), path_view(path@)),
{
    if pattern.len() > path.len() {
        return false;
    }
    let ghost want = path_view(pattern@);
    let ghost have = path_view(path@);
    let mut i: usize = 0;
    while i < pattern.len()
        invariant
            i <= pattern.len() <= path.len(),
            want == path_view(pattern@),
            have == path_view(path@),
            forall|j: int| 0 <= j < i ==> want[j] == have[j],
        decreases pattern.len() - i,
    {
        if !bytes_equal(pattern[i].as_slice(), path[i].as_slice()) {
            assert(have.take(want.len() as int)[i as int] != want[i as int]);
            return false;
        }
        i += 1;
    }
    assert(have.take(want.len() as int) =~= want);
    true
}

/// Whether the directory at `path` is left out by one of the patterns.
pub fn path_is_ignored(path: &Vec<Vec<u8>>, ignore: &Vec<Vec<Vec<u8>>>) -> (b: bool)
    ensures
        b == is_ignored(path_view(path@), paths_view(ignore@)),
{
    let ghost patterns = paths_view(ignore@);
    let mut k: usize = 0;
    while k < ignore.len()
        invariant
            k <= ignore.len(),
            patterns == paths_view(ignore@),
            forall|j: int| 0 <= j < k ==> !is_path_prefix(#[trigger] patterns[j], path_view(path@)),
        decreases ignore.len() - k,
    {
        if path_has_prefix(path, &ignore[k]) {
            assert(is_path_prefix(patterns[k as int], path_view(path@)));
            return true;
        }
        k += 1;
    }
    false
}

/// The index of the first file called `name`, if there is one.
pub fn find_file(files: &Vec<FileNode>, name: &[u8]) -> (r: Option<usize>)
    ensures
        r is Some <==> has_file(files_view(files@), name@),
        r matches Some(i) ==> i == name_index(file_names(files_view(files@)), name@) && i
            < files.len(),
{
    let ghost names = file_names(files_view(files@));
    let mut i: usize = 0;
    while i < files.len()
        invariant
            i <= files.len(),
            names == file_names(files_view(files@)),
            forall|j: int| 0 <= j < i ==> #[trigger] names[j] != name@,
        decreases files.len() - i,
    {
        if bytes_equal(files[i].name.as_slice(), name) {
            proof {
                lemma_name_index_is(names, name@, i as int);
            }
            return Some(i);
        }
        i += 1;
    }
    proof {
        lemma_name_index_is(names, name@, i as int);
    }
    None
}

/// The index of the first directory called `name`, if there is one.
pub fn find_dir(dirs: &Vec<DirNode>, name: &[u8]) -> (r: Option<usize>)
    ensures
        r is Some <==> has_dir(dirs_view(dirs@), name@),
        r matches Some(i) ==> i == name_index(dir_names(dirs_view(dirs@)), name@) && i
            < dirs.len(),
{
    let ghost names = dir_names(dirs_view(dirs@));
    let mut i: usize = 0;
    while i < dirs.len()
        invariant
            i <= dirs.len(),
            names == dir_names(dirs_view(dirs@)),
            forall|j: int| 0 <= j < i ==> #[trigger] names[j] != name@,
        decreases dirs.len() - i,
    {
        proof {
            lemma_dir_view(dirs@[i as int]);
        }
        if bytes_equal(dirs[i].name.as_slice(), name) {
            proof {
                lemma_name_index_is(names, name@, i as int);
            }
            return Some(i);
        }
        i += 1;
    }
    proof {
        lemma_name_index_is(names, name@, i as int);
    }
    None
}

/// Writes a file called `name` with `content` into the listing: over the
/// first file of that name, or else at the end.
pub fn put_file(files: &mut Vec<FileNode>, name: Vec<u8>, content: Vec<u8>)
    ensures
        files_view(final(files)@) == put(files_view(old(files)@), name@, content@),
{
    let found = find_file(files, name.as_slice());
    let node = FileNode { name, content };
    match found {
        Some(i) => {
            files.set(i, node);
            assert(files_view(files@) =~= put(files_view(old(files)@), node.name@, node.content@));
        },
        None => {
            files.push(node);
            assert(files_view(files@) =~= put(files_view(old(files)@), node.name@, node.content@));
        },
    }
}

/// A copy of a file.
pub fn clone_file(file: &FileNode) -> (out: FileNode)
    ensures
        out@ == file@,
{
    FileNode { name: copy_bytes(file.name.as_slice()), content: copy_bytes(file.content.as_slice()) }
}

/// A copy of a listing of files.
pub fn clone_files(files: &Vec<FileNode>) -> (out: Vec<FileNode>)
    ensures
        files_view(out@) == files_view(files@),
{
    let mut out: Vec<FileNode> = Vec::new();
    let mut i: usize = 0;
    while i < files.len()
        invariant
            i <= files.len(),
            out.len() == i,
            forall|j: int| 0 <= j < i ==> #[trigger] out@[j]@ == files@[j]@,
        decreases files.len() - i,
    {
        out.push(clone_file(&files[i]));
        i += 1;
    }
    assert(files_view(out@) =~= files_view(files@));
    out
}

/// A copy of a directory and of all that is below it.
pub fn clone_dir(dir: &DirNode) -> (out: DirNode)
    ensures
        out@ == dir@,
    decreases dir,
{
    let mut dirs: Vec<DirNode> = Vec::new();
    let mut i: usize = 0;
    while i < dir.dirs.len()
        invariant
            i <= dir.dirs.len(),
            dirs.len() == i,
            forall|j: int| 0 <= j < i ==> dir_view(#[trigger] dirs@[j]) == dir_view(dir.dirs@[j]),
        decreases dir.dirs.len() - i,
    {
        dirs.push(clone_dir(&dir.dirs[i]));
        i += 1;
    }
    let out = DirNode {
        name: copy_bytes(dir.name.as_slice()),
        files: clone_files(&dir.files),
        dirs,
    };
    proof {
        lemma_dir_view(out);
        lemma_dir_view(*dir);
        assert(dirs_view(out.dirs@) =~= dirs_view(dir.dirs@));
    }
    out
}

/// The view of a directory that may be absent.
pub open spec fn opt_dir_view(dir: Option<&DirNode>) -> Option<DirView> {
    match dir {
        Some(d) => Some(d@),
        None => None,
    }
}

/// A file that was just written is found under its name, with the content
/// it was written with.
pub proof fn lemma_put_same(files: Seq<FileView>, name: Seq<u8>, content: Seq<u8>)
    ensures
        file_content(put(files, name, content), name) == Some(content),
        put(files, name, content).len() >= files.len(),
{
    let names = file_names(files);
    let after = put(files, name, content);
    lemma_name_index(names, name);
    let p = name_index(names, name);
    assert forall|i: int| 0 <= i < p implies #[trigger] file_names(after)[i] != name by {
        assert(names[i] != name);
    }
    lemma_name_index_is(file_names(after), name, p);
}

/// Writing a file leaves the files of every other name as they were.
pub proof fn lemma_put_other(
    files: Seq<FileView>,
    name: Seq<u8>,
    content: Seq<u8>,
    other: Seq<u8>,
)
    requires
        other != name,
    ensures
        file_content(put(files, name, content), other) == file_content(files, other),
{
    let names = file_names(files);
    let after = put(files, name, content);
    lemma_name_index(names, other);
    lemma_name_index(names, name);
    let q = name_index(names, other);
    assert forall|i: int| 0 <= i < q implies #[trigger] file_names(after)[i] != other by {
        assert(names[i] != other);
    }
    if q < names.len() {
        assert(file_names(after)[q] == other);
        lemma_name_index_is(file_names(after), other, q);
    } else {
        lemma_name_index_is(file_names(after), other, after.len() as int);
    }
}

} // verus!

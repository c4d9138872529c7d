//! Folding the metadata files of a directory into one archive, and
//! unfolding such an archive back into metadata files.

use vstd::prelude::*;
use crate::archive::{
    archive_entry_data, archive_entry_name, archive_len, archive_open, archive_opens,
    archive_source, data_read, name_read, packs,
    create_zip, error_kind, has_long_name, lossy_text, member_entries, utf8_lossy, zip_entries,
    ArchiveError,
};
use crate::tree::{
    child_path, clone_dir, clone_file, clone_files, copy_bytes, copy_path, dir_view, dirs_view,
    ends_with_meta,
    file_content, file_names, files_view, find_dir, find_file, has_dir, has_file, is_ignored,
    is_sidecar_name, lemma_dir_view, name_ends_with_meta, name_index, name_is_sidecar,
    path_is_ignored, path_view, paths_view, put, put_file, DirNode, DirView, FileNode, FileView,
};

verus! {

/// Those of the first `n` files of a listing that are metadata files, or
/// those that are not, in the order of the listing.
pub open spec fn select(files: Seq<FileView>, n: nat, sidecar: bool) -> Seq<FileView>
    decreases n,
{
    if n == 0 || n > files.len() {
        Seq::<FileView>::empty()
    } else {
        let head = select(files, (n - 1) as nat, sidecar);
        if is_sidecar_name(files[n - 1].name) == sidecar {
            head.push(files[n - 1])
        } else {
            head
        }
    }
}

/// The metadata files of a listing.
pub open spec fn meta_files_of(files: Seq<FileView>) -> Seq<FileView> {
    select(files, files.len(), true)
}

/// The files of a listing that are no metadata files.
pub open spec fn other_files_of(files: Seq<FileView>) -> Seq<FileView> {
    select(files, files.len(), false)
}

/// The listing after its metadata files gave way to the archive `bytes`,
/// which is written under `archive_name`: in the place of a file that
/// bore that name before, whatever it held, and else at the end.
pub open spec fn with_archive(
    files: Seq<FileView>,
    archive_name: Seq<u8>,
    bytes: Seq<u8>,
) -> Seq<FileView> {
    put(other_files_of(files), archive_name, bytes)
}

/// Whether `after` is the listing `before` with its metadata files folded
/// into one archive: a listing without metadata files stays as it is; in
/// any other the metadata files give way to an archive that holds exactly
/// them, in the order of the listing.
pub open spec fn folded(before: Seq<FileView>, after: Seq<FileView>, archive_name: Seq<u8>) -> bool {
    if meta_files_of(before).len() == 0 {
        after == before
    } else {
        exists|bytes: Seq<u8>|
            #[trigger] zip_entries(bytes) == member_entries(meta_files_of(before)) && after
                == with_archive(before, archive_name, bytes)
    }
}

/// The listing without the first file called `name`.
pub open spec fn remove_file(files: Seq<FileView>, name: Seq<u8>) -> Seq<FileView> {
    if has_file(files, name) {
        files.remove(name_index(file_names(files), name))
    } else {
        files
    }
}

/// Whether the member called `name` is taken out of an archive into a
/// directory: its name ends in `.meta`, and the directory has neither a
/// file nor a subdirectory of that name yet.
pub open spec fn wanted(files: Seq<FileView>, dirs: Seq<DirView>, name: Seq<u8>) -> bool {
    ends_with_meta(name) && !has_file(files, name) && !has_dir(dirs, name)
}

/// The files of a directory after one member of its archive was looked
/// at: a member that is wanted is added as a file under its name as text.
pub open spec fn entry_step(
    files: Seq<FileView>,
    dirs: Seq<DirView>,
    entry: (Seq<u8>, Seq<u8>),
) -> Seq<FileView> {
    if wanted(files, dirs, utf8_lossy(entry.0)) {
        files.push(FileView { name: utf8_lossy(entry.0), content: entry.1 })
    } else {
        files
    }
}

/// The files of a directory after the first `n` members of its archive
/// were looked at, in order.
pub open spec fn extracted(
    files: Seq<FileView>,
    dirs: Seq<DirView>,
    entries: Seq<(Seq<u8>, Seq<u8>)>,
    n: nat,
) -> Seq<FileView>
    decreases n,
{
    if n == 0 {
        files
    } else {
        entry_step(extracted(files, dirs, entries, (n - 1) as nat), dirs, entries[n - 1])
    }
}

/// The files of a directory after the members `entries` of its archive
/// were taken out and the archive was removed.
pub open spec fn unfolded_with(
    files: Seq<FileView>,
    dirs: Seq<DirView>,
    archive_name: Seq<u8>,
    entries: Seq<(Seq<u8>, Seq<u8>)>,
) -> Seq<FileView> {
    remove_file(extracted(files, dirs, entries, entries.len()), archive_name)
}

/// Whether `after` is the listing `before` with its archive unfolded: a
/// listing without an archive stays as it is; in any other the wanted
/// members of the archive are added and the archive is removed.
pub open spec fn unfolded(
    before: Seq<FileView>,
    dirs: Seq<DirView>,
    after: Seq<FileView>,
    archive_name: Seq<u8>,
) -> bool {
    match file_content(before, archive_name) {
        None => after == before,
        Some(bytes) => after == unfolded_with(before, dirs, archive_name, zip_entries(bytes)),
    }
}

/// The members of an archive, given as files, in the form in which an
/// archive holds them: the names as they are stored.
pub open spec fn raw_entries(members: Seq<FileView>) -> Seq<(Seq<u8>, Seq<u8>)> {
    Seq::new(members.len(), |i: int| (members[i].name, members[i].content))
}

/// Whether folding one directory succeeds: it holds no metadata file, or
/// none of its metadata files has a name that is too long for an archive
/// and the `zip` crate packs them.
pub open spec fn fold_succeeds(files: Seq<FileView>) -> bool {
    meta_files_of(files).len() == 0 || (!has_long_name(meta_files_of(files)) && packs(
        member_entries(meta_files_of(files)),
    ))
}

/// Whether the member at `index` of the archive `bytes` can be dealt with
/// when the archive is unfolded into a directory with the given files and
/// subdirectories: its name can be read, and its data too if the member is
/// wanted after those before it were dealt with.
pub open spec fn member_unpacks(
    files: Seq<FileView>,
    dirs: Seq<DirView>,
    bytes: Seq<u8>,
    index: int,
) -> bool {
    &&& name_read(bytes, index)
    &&& wanted(
        extracted(files, dirs, zip_entries(bytes), index as nat),
        dirs,
        utf8_lossy(zip_entries(bytes)[index].0),
    ) ==> data_read(bytes, index)
}

/// Whether the archive `bytes` can be unfolded into a directory with the
/// given files and subdirectories: it opens, and each of its members can
/// be dealt with.
pub open spec fn unpacks(files: Seq<FileView>, dirs: Seq<DirView>, bytes: Seq<u8>) -> bool {
    &&& archive_opens(bytes)
    &&& forall|i: int|
        0 <= i < zip_entries(bytes).len() ==> #[trigger] member_unpacks(files, dirs, bytes, i)
}

/// Whether unfolding one directory succeeds: it holds no archive, or the
/// `zip` crate reads what is wanted of the archive it holds.
pub open spec fn unfold_succeeds(
    files: Seq<FileView>,
    dirs: Seq<DirView>,
    archive_name: Seq<u8>,
) -> bool {
    match file_content(files, archive_name) {
        None => true,
        Some(bytes) => unpacks(files, dirs, bytes),
    }
}

/// Whether folding succeeds in the directory and in every directory below
/// it that is not left out.
pub open spec fn tree_folds(dir: DirView, path: Seq<Seq<u8>>, ignore: Seq<Seq<Seq<u8>>>) -> bool
    decreases dir,
{
    &&& fold_succeeds(dir.files)
    &&& forall|i: int|
        0 <= i < dir.dirs.len() ==> is_ignored(path.push((#[trigger] dir.dirs[i]).name), ignore)
            || tree_folds(dir.dirs[i], path.push(dir.dirs[i].name), ignore)
}

/// Whether unfolding succeeds in the directory and in every directory
/// below it that is not left out.
pub open spec fn tree_unfolds(
    dir: DirView,
    path: Seq<Seq<u8>>,
    ignore: Seq<Seq<Seq<u8>>>,
    archive_name: Seq<u8>,
) -> bool
    decreases dir,
{
    &&& unfold_succeeds(dir.files, dir.dirs, archive_name)
    &&& forall|i: int|
        0 <= i < dir.dirs.len() ==> is_ignored(path.push((#[trigger] dir.dirs[i]).name), ignore)
            || tree_unfolds(dir.dirs[i], path.push(dir.dirs[i].name), ignore, archive_name)
}

/// Whether folding has anything to do in the directory or below it: it
/// holds a metadata file, or a subdirectory that is not left out has
/// something to fold.
pub open spec fn needs_fold(dir: DirView, path: Seq<Seq<u8>>, ignore: Seq<Seq<Seq<u8>>>) -> bool
    decreases dir,
{
    meta_files_of(dir.files).len() > 0 || exists|i: int|
        0 <= i < dir.dirs.len() && !is_ignored(path.push((#[trigger] dir.dirs[i]).name), ignore)
            && needs_fold(dir.dirs[i], path.push(dir.dirs[i].name), ignore)
}

/// Whether `after` is the tree `before`, which stands at `path`, with the
/// metadata files of every directory folded into an archive of that
/// directory. Subdirectories that are left out stay as they are.
pub open spec fn folded_tree(
    before: DirView,
    after: DirView,
    path: Seq<Seq<u8>>,
    ignore: Seq<Seq<Seq<u8>>>,
    archive_name: Seq<u8>,
) -> bool
    decreases before,
{
    &&& after.name == before.name
    &&& folded(before.files, after.files, archive_name)
    &&& after.dirs.len() == before.dirs.len()
    &&& forall|i: int|
        0 <= i < before.dirs.len() ==> if is_ignored(path.push((#[trigger] before.dirs[i]).name), ignore) {
            after.dirs[i] == before.dirs[i]
        } else {
            folded_tree(
                before.dirs[i],
                after.dirs[i],
                path.push(before.dirs[i].name),
                ignore,
                archive_name,
            )
        }
}

/// Whether unfolding has anything to do in the directory or below it: it
/// holds an archive, or a subdirectory that is not left out has something
/// to unfold.
pub open spec fn needs_unfold(
    dir: DirView,
    path: Seq<Seq<u8>>,
    ignore: Seq<Seq<Seq<u8>>>,
    archive_name: Seq<u8>,
) -> bool
    decreases dir,
{
    has_file(dir.files, archive_name) || exists|i: int|
        0 <= i < dir.dirs.len() && !is_ignored(path.push((#[trigger] dir.dirs[i]).name), ignore)
            && needs_unfold(dir.dirs[i], path.push(dir.dirs[i].name), ignore, archive_name)
}

/// Why folding or unfolding a tree stopped, and in which directory.
#[derive(Debug, PartialEq, Eq)]
pub struct ArchiveFailure {
    /// The path of the directory whose archive could not be written or
    /// read.
    pub path: Vec<Vec<u8>>,
    /// What went wrong with the archive.
    pub error: ArchiveError,
}

/// How many of the first `n` subdirectories are folded before folding
/// stops: the index of the first that is not left out and in which folding
/// fails, and `n` where there is none.
pub open spec fn dirs_folded(
    dirs: Seq<DirView>,
    n: nat,
    path: Seq<Seq<u8>>,
    ignore: Seq<Seq<Seq<u8>>>,
) -> nat
    decreases n,
{
    if n == 0 {
        0
    } else if dirs_folded(dirs, (n - 1) as nat, path, ignore) < n - 1 {
        dirs_folded(dirs, (n - 1) as nat, path, ignore)
    } else if !is_ignored(path.push(dirs[n - 1].name), ignore) && !tree_folds(
        dirs[n - 1],
        path.push(dirs[n - 1].name),
        ignore,
    ) {
        (n - 1) as nat
    } else {
        n
    }
}

/// The directory at which folding a tree stops where it fails, as its
/// path and its files: the first directory in which folding fails, the
/// directory itself coming before its subdirectories and these in the
/// order of the listing.
pub open spec fn fold_failure(dir: DirView, path: Seq<Seq<u8>>, ignore: Seq<Seq<Seq<u8>>>) -> (
    Seq<Seq<u8>>,
    Seq<FileView>,
)
    decreases dir,
{
    let d = dirs_folded(dir.dirs, dir.dirs.len(), path, ignore);
    if fold_succeeds(dir.files) && d < dir.dirs.len() {
        fold_failure(dir.dirs[d as int], path.push(dir.dirs[d as int].name), ignore)
    } else {
        (path, dir.files)
    }
}

/// Whether the path `at` and the reason `error` tell where and why
/// folding the tree fails: the path is that of the first directory in
/// which folding fails, and the reason is a name that is too long exactly
/// if a metadata file of that directory has one.
pub open spec fn fold_failed(
    dir: DirView,
    path: Seq<Seq<u8>>,
    ignore: Seq<Seq<Seq<u8>>>,
    at: Seq<Seq<u8>>,
    error: ArchiveError,
) -> bool {
    &&& at == fold_failure(dir, path, ignore).0
    &&& error == ArchiveError::NameTooLong <==> has_long_name(
        meta_files_of(fold_failure(dir, path, ignore).1),
    )
}

/// How many of the first `n` subdirectories are unfolded before
/// unfolding stops: the index of the first that is not left out and in
/// which unfolding fails, and `n` where there is none.
pub open spec fn dirs_unfolded(
    dirs: Seq<DirView>,
    n: nat,
    path: Seq<Seq<u8>>,
    ignore: Seq<Seq<Seq<u8>>>,
    archive_name: Seq<u8>,
) -> nat
    decreases n,
{
    if n == 0 {
        0
    } else if dirs_unfolded(dirs, (n - 1) as nat, path, ignore, archive_name) < n - 1 {
        dirs_unfolded(dirs, (n - 1) as nat, path, ignore, archive_name)
    } else if !is_ignored(path.push(dirs[n - 1].name), ignore) && !tree_unfolds(
        dirs[n - 1],
        path.push(dirs[n - 1].name),
        ignore,
        archive_name,
    ) {
        (n - 1) as nat
    } else {
        n
    }
}

/// The path of the directory at which unfolding a tree stops where it
/// fails: the first directory in which unfolding fails, the directory
/// itself coming before its subdirectories and these in the order of the
/// listing.
pub open spec fn unfold_failure(
    dir: DirView,
    path: Seq<Seq<u8>>,
    ignore: Seq<Seq<Seq<u8>>>,
    archive_name: Seq<u8>,
) -> Seq<Seq<u8>>
    decreases dir,
{
    let d = dirs_unfolded(dir.dirs, dir.dirs.len(), path, ignore, archive_name);
    if unfold_succeeds(dir.files, dir.dirs, archive_name) && d < dir.dirs.len() {
        unfold_failure(
            dir.dirs[d as int],
            path.push(dir.dirs[d as int].name),
            ignore,
            archive_name,
        )
    } else {
        path
    }
}

/// Whether the path `at` and the reason `error` tell where and why
/// unfolding the tree fails: the path is that of the first directory in
/// which unfolding fails, and the reason is one of the `zip` crate.
pub open spec fn unfold_failed(
    dir: DirView,
    path: Seq<Seq<u8>>,
    ignore: Seq<Seq<Seq<u8>>>,
    archive_name: Seq<u8>,
    at: Seq<Seq<u8>>,
    error: ArchiveError,
) -> bool {
    at == unfold_failure(dir, path, ignore, archive_name) && error != ArchiveError::NameTooLong
}

/// Once folding has stopped in a subdirectory, more subdirectories change
/// nothing.
pub proof fn lemma_dirs_folded_stops(
    dirs: Seq<DirView>,
    n: nat,
    m: nat,
    path: Seq<Seq<u8>>,
    ignore: Seq<Seq<Seq<u8>>>,
)
    requires
        n <= m,
        dirs_folded(dirs, n, path, ignore) < n,
    ensures
        dirs_folded(dirs, m, path, ignore) == dirs_folded(dirs, n, path, ignore),
    decreases m,
{
    if n < m {
        lemma_dirs_folded_stops(dirs, n, (m - 1) as nat, path, ignore);
    }
}

/// Once unfolding has stopped in a subdirectory, more subdirectories
/// change nothing.
pub proof fn lemma_dirs_unfolded_stops(
    dirs: Seq<DirView>,
    n: nat,
    m: nat,
    path: Seq<Seq<u8>>,
    ignore: Seq<Seq<Seq<u8>>>,
    archive_name: Seq<u8>,
)
    requires
        n <= m,
        dirs_unfolded(dirs, n, path, ignore, archive_name) < n,
    ensures
        dirs_unfolded(dirs, m, path, ignore, archive_name) == dirs_unfolded(
            dirs,
            n,
            path,
            ignore,
            archive_name,
        ),
    decreases m,
{
    if n < m {
        lemma_dirs_unfolded_stops(dirs, n, (m - 1) as nat, path, ignore, archive_name);
    }
}

/// Whether `after` is the tree `before`, which stands at `path`, with the
/// archive of every directory unfolded into metadata files. Subdirectories
/// that are left out stay as they are.
pub open spec fn unfolded_tree(
    before: DirView,
    after: DirView,
    path: Seq<Seq<u8>>,
    ignore: Seq<Seq<Seq<u8>>>,
    archive_name: Seq<u8>,
) -> bool
    decreases before,
{
    &&& after.name == before.name
    &&& unfolded(before.files, before.dirs, after.files, archive_name)
    &&& after.dirs.len() == before.dirs.len()
    &&& forall|i: int|
        0 <= i < before.dirs.len() ==> if is_ignored(path.push((#[trigger] before.dirs[i]).name), ignore) {
            after.dirs[i] == before.dirs[i]
        } else {
            unfolded_tree(
                before.dirs[i],
                after.dirs[i],
                path.push(before.dirs[i].name),
                ignore,
                archive_name,
            )
        }
}

/// Where unfolding has nothing to do, a tree that counts as unfolded is
/// the tree itself.
pub proof fn lemma_nothing_to_unfold(
    before: DirView,
    after: DirView,
    path: Seq<Seq<u8>>,
    ignore: Seq<Seq<Seq<u8>>>,
    archive_name: Seq<u8>,
)
    requires
        !needs_unfold(before, path, ignore, archive_name),
        unfolded_tree(before, after, path, ignore, archive_name),
    ensures
        after == before,
    decreases before,
{
    assert forall|i: int| 0 <= i < before.dirs.len() implies after.dirs[i] == before.dirs[i] by {
        let child = before.dirs[i];
        if !is_ignored(path.push(child.name), ignore) {
            lemma_nothing_to_unfold(
                child,
                after.dirs[i],
                path.push(child.name),
                ignore,
                archive_name,
            );
        }
    }
    assert(after.dirs =~= before.dirs);
}

/// A tree has one unfolding only: two trees that both count as the tree
/// `before` unfolded are the same.
pub proof fn lemma_unfolded_tree_is_unique(
    before: DirView,
    one: DirView,
    other: DirView,
    path: Seq<Seq<u8>>,
    ignore: Seq<Seq<Seq<u8>>>,
    archive_name: Seq<u8>,
)
    requires
        unfolded_tree(before, one, path, ignore, archive_name),
        unfolded_tree(before, other, path, ignore, archive_name),
    ensures
        one == other,
    decreases before,
{
    assert forall|i: int| 0 <= i < before.dirs.len() implies one.dirs[i] == other.dirs[i] by {
        let child = before.dirs[i];
        if !is_ignored(path.push(child.name), ignore) {
            lemma_unfolded_tree_is_unique(
                child,
                one.dirs[i],
                other.dirs[i],
                path.push(child.name),
                ignore,
                archive_name,
            );
        }
    }
    assert(one.dirs =~= other.dirs);
}

/// The metadata files of a listing, or its other files, in order.
pub fn select_files(files: &Vec<FileNode>, sidecar: bool) -> (out: Vec<FileNode>)
    ensures
        files_view(out@) == select(files_view(files@), files.len() as nat, sidecar),
{
    let ghost all = files_view(files@);
    let mut out: Vec<FileNode> = Vec::new();
    let mut i: usize = 0;
    assert(files_view(out@) =~= Seq::<FileView>::empty());
    while i < files.len()
        invariant
            i <= files.len(),
            all == files_view(files@),
            files_view(out@) == select(all, i as nat, sidecar),
        decreases files.len() - i,
    {
        let file = &files[i];
        assert(all[i as int] == file@);
        if name_is_sidecar(file.name.as_slice()) == sidecar {
            let ghost before = files_view(out@);
            out.push(clone_file(file));
            assert(files_view(out@) =~= before.push(file@));
        }
        i += 1;
    }
    out
}

/// The listing without its metadata files.
pub fn delete_meta_files(files: &Vec<FileNode>) -> (out: Vec<FileNode>)
    ensures
        files_view(out@) == other_files_of(files_view(files@)),
{
    select_files(files, false)
}

/// The listing after its metadata files gave way to the archive `bytes`.
pub fn install_archive(files: &Vec<FileNode>, archive_name: &[u8], bytes: Vec<u8>) -> (out: Vec<
    FileNode,
>)
    ensures
        files_view(out@) == with_archive(files_view(files@), archive_name@, bytes@),
{
    let mut out = delete_meta_files(files);
    put_file(&mut out, copy_bytes(archive_name), bytes);
    out
}

/// Folds the metadata files of one directory into an archive. A
/// directory without metadata files is handed back as it is; in any other
/// a metadata file whose name is too long for an archive is refused, and
/// otherwise the directory is folded exactly if the `zip` crate packs its
/// metadata files.
pub fn compress_process(files: &Vec<FileNode>, archive_name: &[u8]) -> (r: Result<
    Vec<FileNode>,
    ArchiveError,
>)
    ensures
        r is Ok <==> fold_succeeds(files_view(files@)),
        r == Err::<Vec<FileNode>, ArchiveError>(ArchiveError::NameTooLong) <==> has_long_name(
            meta_files_of(files_view(files@)),
        ),
        r matches Ok(out) ==> folded(files_view(files@), files_view(out@), archive_name@),
{
    let meta_files = select_files(files, true);
    if meta_files.len() == 0 {
        assert(!has_long_name(meta_files_of(files_view(files@))));
        return Ok(clone_files(files));
    }
    match create_zip(&meta_files) {
        Err(e) => Err(e),
        Ok(bytes) => {
            let out = install_archive(files, archive_name, bytes);
            assert(zip_entries(bytes@) == member_entries(meta_files_of(files_view(files@))));
            Ok(out)
        },
    }
}

/// Removes the first file called `name` from the listing, if there is
/// one.
pub fn remove_named(files: &mut Vec<FileNode>, name: &[u8])
    ensures
        files_view(final(files)@) == remove_file(files_view(old(files)@), name@),
{
    match find_file(files, name) {
        Some(i) => {
            let _ = files.remove(i);
            assert(files_view(files@) =~= remove_file(files_view(old(files)@), name@));
        },
        None => {},
    }
}

/// Whether a member called `name` is taken out of an archive into the
/// directory with the given files and subdirectories.
pub fn wants_entry(files: &Vec<FileNode>, dirs: &Vec<DirNode>, name: &[u8]) -> (b: bool)
    ensures
        b == wanted(files_view(files@), dirs_view(dirs@), name@),
{
    name_ends_with_meta(name) && find_file(files, name).is_none() && find_dir(dirs, name).is_none()
}

/// Takes the given members of an archive out into a directory with the
/// given files and subdirectories, and removes the archive. `members`
/// holds each member under its name as it is stored.
pub fn extract_entries(
    files: &Vec<FileNode>,
    dirs: &Vec<DirNode>,
    archive_name: &[u8],
    members: &Vec<FileNode>,
) -> (out: Vec<FileNode>)
    ensures
        files_view(out@) == unfolded_with(
            files_view(files@),
            dirs_view(dirs@),
            archive_name@,
            raw_entries(files_view(members@)),
        ),
{
    let ghost entries = raw_entries(files_view(members@));
    let ghost start = files_view(files@);
    let mut out = clone_files(files);
    let mut i: usize = 0;
    while i < members.len()
        invariant
            i <= members.len(),
            entries == raw_entries(files_view(members@)),
            files_view(out@) == extracted(start, dirs_view(dirs@), entries, i as nat),
        decreases members.len() - i,
    {
        let member = &members[i];
        assert(entries[i as int] == (member.name@, member.content@));
        let name = lossy_text(member.name.as_slice());
        if wants_entry(&out, dirs, name.as_slice()) {
            let ghost before = files_view(out@);
            out.push(FileNode { name, content: copy_bytes(member.content.as_slice()) });
            assert(files_view(out@) =~= before.push(
                FileView { name: utf8_lossy(member.name@), content: member.content@ },
            ));
        }
        i += 1;
    }
    remove_named(&mut out, archive_name);
    out
}

/// Unfolds the archive of one directory: every member whose name ends in
/// `.meta` becomes a file of the directory, unless an entry of that name
/// is there already, and the archive is removed. A directory without an
/// archive is handed back as it is; any other is unfolded exactly if the
/// `zip` crate opens the archive, reads the name of every member and reads
/// the data of every member that is wanted.
pub fn extract_zip(files: &Vec<FileNode>, dirs: &Vec<DirNode>, archive_name: &[u8]) -> (r: Result<
    Vec<FileNode>,
    ArchiveError,
>)
    ensures
        r is Ok <==> unfold_succeeds(files_view(files@), dirs_view(dirs@), archive_name@),
        r matches Err(e) ==> e != ArchiveError::NameTooLong,
        r matches Ok(out) ==> unfolded(
            files_view(files@),
            dirs_view(dirs@),
            files_view(out@),
            archive_name@,
        ),
{
    let ghost start = files_view(files@);
    let at = match find_file(files, archive_name) {
        Some(at) => at,
        None => {
            return Ok(clone_files(files));
        },
    };
    assert(has_file(start, archive_name@));
    let bytes = copy_bytes(files[at].content.as_slice());
    assert(start[at as int] == files@[at as int]@);
    let ghost source = bytes@;
    assert(file_content(start, archive_name@) == Some(source));
    let mut archive = match archive_open(bytes) {
        Ok(archive) => archive,
        Err(e) => {
            return Err(error_kind(e));
        },
    };
    let ghost entries = zip_entries(source);
    let count: usize = archive_len(&archive);
    let mut out = clone_files(files);
    let mut i: usize = 0;
    while i < count
        invariant
            i <= count,
            count == entries.len(),
            start == files_view(files@),
            has_file(start, archive_name@),
            file_content(start, archive_name@) == Some(source),
            archive_opens(source),
            archive_source(archive) == source,
            entries == zip_entries(source),
            files_view(out@) == extracted(start, dirs_view(dirs@), entries, i as nat),
            forall|j: int|
                0 <= j < i ==> #[trigger] member_unpacks(start, dirs_view(dirs@), source, j),
        decreases count - i,
    {
        let raw = match archive_entry_name(&mut archive, i) {
            Ok(raw) => raw,
            Err(e) => {
                assert(!member_unpacks(start, dirs_view(dirs@), source, i as int));
                return Err(error_kind(e));
            },
        };
        let name = lossy_text(raw.as_slice());
        if wants_entry(&out, dirs, name.as_slice()) {
            let content = match archive_entry_data(&mut archive, i) {
                Ok(content) => content,
                Err(e) => {
                    assert(!member_unpacks(start, dirs_view(dirs@), source, i as int));
                    return Err(error_kind(e));
                },
            };
            let ghost before = files_view(out@);
            out.push(FileNode { name, content });
            assert(files_view(out@) =~= before.push(
                FileView { name: utf8_lossy(entries[i as int].0), content: entries[i as int].1 },
            ));
        }
        assert(member_unpacks(start, dirs_view(dirs@), source, i as int));
        i += 1;
    }
    assert(unpacks(start, dirs_view(dirs@), source));
    remove_named(&mut out, archive_name);
    Ok(out)
}

/// Folds the metadata files of every directory of the tree `root_dir`,
/// which stands at `path`, into an archive of that directory.
/// Subdirectories that are left out are not entered. Where no directory
/// holds a metadata file the tree comes back as it is. The tree is folded
/// exactly if folding succeeds in every directory that is entered; a
/// failure names the first directory whose archive could not be written,
/// and tells of a name that is too long exactly if that directory has one.
pub fn compress_dir(
    root_dir: &DirNode,
    path: &Vec<Vec<u8>>,
    ignore: &Vec<Vec<Vec<u8>>>,
    archive_name: &[u8],
) -> (r: Result<DirNode, ArchiveFailure>)
    ensures
        r is Ok <==> tree_folds(root_dir@, path_view(path@), paths_view(ignore@)),
        !needs_fold(root_dir@, path_view(path@), paths_view(ignore@)) ==> r is Ok,
        r matches Ok(out) ==> folded_tree(
            root_dir@,
            out@,
            path_view(path@),
            paths_view(ignore@),
            archive_name@,
        ),
        r matches Err(failure) ==> fold_failed(
            root_dir@,
            path_view(path@),
            paths_view(ignore@),
            path_view(failure.path@),
            failure.error,
        ),
    decreases root_dir,
{
    let ghost src = root_dir@;
    let ghost at = path_view(path@);
    let ghost patterns = paths_view(ignore@);
    proof {
        lemma_dir_view(*root_dir);
    }
    let files = match compress_process(&root_dir.files, archive_name) {
        Ok(files) => files,
        Err(e) => {
            return Err(ArchiveFailure { path: copy_path(path), error: e });
        },
    };
    let mut dirs: Vec<DirNode> = Vec::new();
    let mut j: usize = 0;
    while j < root_dir.dirs.len()
        invariant
            j <= root_dir.dirs.len(),
            dirs.len() == j,
            src == root_dir@,
            src.dirs == dirs_view(root_dir.dirs@),
            at == path_view(path@),
            patterns == paths_view(ignore@),
            fold_succeeds(src.files),
            dirs_folded(src.dirs, j as nat, at, patterns) == j,
            forall|k: int|
                0 <= k < j ==> is_ignored(at.push((#[trigger] src.dirs[k]).name), patterns)
                    || tree_folds(src.dirs[k], at.push(src.dirs[k].name), patterns),
            forall|k: int|
                0 <= k < j ==> if is_ignored(at.push(src.dirs[k].name), patterns) {
                    dir_view(#[trigger] dirs@[k]) == src.dirs[k]
                } else {
                    folded_tree(
                        src.dirs[k],
                        dir_view(dirs@[k]),
                        at.push(src.dirs[k].name),
                        patterns,
                        archive_name@,
                    )
                },
        decreases root_dir.dirs.len() - j,
    {
        let sub = &root_dir.dirs[j];
        assert(src.dirs[j as int] == sub@);
        proof {
            lemma_dir_view(*sub);
        }
        let sub_path = child_path(path, sub.name.as_slice());
        let done = if path_is_ignored(&sub_path, ignore) {
            clone_dir(sub)
        } else {
            match compress_dir(sub, &sub_path, ignore, archive_name) {
                Ok(done) => done,
                Err(e) => {
                    assert(needs_fold(src, at, patterns));
                    assert(!tree_folds(src.dirs[j as int], at.push(src.dirs[j as int].name), patterns));
                    assert(!tree_folds(src, at, patterns));
                    proof {
                        assert(dirs_folded(src.dirs, (j + 1) as nat, at, patterns) == j);
                        lemma_dirs_folded_stops(
                            src.dirs,
                            (j + 1) as nat,
                            src.dirs.len(),
                            at,
                            patterns,
                        );
                    }
                    return Err(e);
                },
            }
        };
        dirs.push(done);
        j += 1;
    }
    let out = DirNode { name: copy_bytes(root_dir.name.as_slice()), files, dirs };
    proof {
        lemma_dir_view(out);
        assert forall|i: int| 0 <= i < src.dirs.len() implies if is_ignored(
            at.push((#[trigger] src.dirs[i]).name),
            patterns,
        ) {
            out@.dirs[i] == src.dirs[i]
        } else {
            folded_tree(
                src.dirs[i],
                out@.dirs[i],
                at.push(src.dirs[i].name),
                patterns,
                archive_name@,
            )
        } by {
            assert(out@.dirs[i] == dir_view(dirs@[i]));
        }
    }
    Ok(out)
}

/// Unfolds the archive of every directory of the tree `root_dir`, which
/// stands at `path`, into metadata files. Subdirectories that are left out
/// are not entered. Where no directory holds an archive the tree comes
/// back as it is. The tree is unfolded exactly if unfolding succeeds in
/// every directory that is entered; a failure names the first directory
/// whose archive could not be read.
pub fn extract_dir(
    root_dir: &DirNode,
    path: &Vec<Vec<u8>>,
    ignore: &Vec<Vec<Vec<u8>>>,
    archive_name: &[u8],
) -> (r: Result<DirNode, ArchiveFailure>)
    ensures
        r is Ok <==> tree_unfolds(
            root_dir@,
            path_view(path@),
            paths_view(ignore@),
            archive_name@,
        ),
        !needs_unfold(root_dir@, path_view(path@), paths_view(ignore@), archive_name@) ==> r
            is Ok,
        r matches Ok(out) ==> unfolded_tree(
            root_dir@,
            out@,
            path_view(path@),
            paths_view(ignore@),
            archive_name@,
        ),
        r matches Err(failure) ==> unfold_failed(
            root_dir@,
            path_view(path@),
            paths_view(ignore@),
            archive_name@,
            path_view(failure.path@),
            failure.error,
        ),
    decreases root_dir,
{
    let ghost src = root_dir@;
    let ghost at = path_view(path@);
    let ghost patterns = paths_view(ignore@);
    proof {
        lemma_dir_view(*root_dir);
    }
    let files = match extract_zip(&root_dir.files, &root_dir.dirs, archive_name) {
        Ok(files) => files,
        Err(e) => {
            return Err(ArchiveFailure { path: copy_path(path), error: e });
        },
    };
    let mut dirs: Vec<DirNode> = Vec::new();
    let mut j: usize = 0;
    while j < root_dir.dirs.len()
        invariant
            j <= root_dir.dirs.len(),
            dirs.len() == j,
            src == root_dir@,
            src.dirs == dirs_view(root_dir.dirs@),
            at == path_view(path@),
            patterns == paths_view(ignore@),
            unfold_succeeds(src.files, src.dirs, archive_name@),
            dirs_unfolded(src.dirs, j as nat, at, patterns, archive_name@) == j,
            forall|k: int|
                0 <= k < j ==> is_ignored(at.push((#[trigger] src.dirs[k]).name), patterns)
                    || tree_unfolds(
                    src.dirs[k],
                    at.push(src.dirs[k].name),
                    patterns,
                    archive_name@,
                ),
            forall|k: int|
                0 <= k < j ==> if is_ignored(at.push(src.dirs[k].name), patterns) {
                    dir_view(#[trigger] dirs@[k]) == src.dirs[k]
                } else {
                    unfolded_tree(
                        src.dirs[k],
                        dir_view(dirs@[k]),
                        at.push(src.dirs[k].name),
                        patterns,
                        archive_name@,
                    )
                },
        decreases root_dir.dirs.len() - j,
    {
        let sub = &root_dir.dirs[j];
        assert(src.dirs[j as int] == sub@);
        proof {
            lemma_dir_view(*sub);
        }
        let sub_path = child_path(path, sub.name.as_slice());
        let done = if path_is_ignored(&sub_path, ignore) {
            clone_dir(sub)
        } else {
            match extract_dir(sub, &sub_path, ignore, archive_name) {
                Ok(done) => done,
                Err(e) => {
                    assert(needs_unfold(src, at, patterns, archive_name@));
                    assert(!tree_unfolds(
                        src.dirs[j as int],
                        at.push(src.dirs[j as int].name),
                        patterns,
                        archive_name@,
                    ));
                    assert(!tree_unfolds(src, at, patterns, archive_name@));
                    proof {
                        assert(dirs_unfolded(src.dirs, (j + 1) as nat, at, patterns, archive_name@)
                            == j);
                        lemma_dirs_unfolded_stops(
                            src.dirs,
                            (j + 1) as nat,
                            src.dirs.len(),
                            at,
                            patterns,
                            archive_name@,
                        );
                    }
                    return Err(e);
                },
            }
        };
        dirs.push(done);
        j += 1;
    }
    let out = DirNode { name: copy_bytes(root_dir.name.as_slice()), files, dirs };
    proof {
        lemma_dir_view(out);
        assert forall|i: int| 0 <= i < src.dirs.len() implies if is_ignored(
            at.push((#[trigger] src.dirs[i]).name),
            patterns,
        ) {
            out@.dirs[i] == src.dirs[i]
        } else {
            unfolded_tree(
                src.dirs[i],
                out@.dirs[i],
                at.push(src.dirs[i].name),
                patterns,
                archive_name@,
            )
        } by {
            assert(out@.dirs[i] == dir_view(dirs@[i]));
        }
    }
    Ok(out)
}

} // verus!

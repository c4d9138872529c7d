//! The walk over a source tree that builds a new checkpoint: a metadata
//! file for every file, the content of the files that changed since the
//! previous checkpoint, and a mirror of the directories that are not left
//! out.

use vstd::prelude::*;
use crate::clock::valid_timestamp;
use crate::record::{captured, parsed, serialized, unchanged, FileInfo, MetaError, RecordView};
use crate::tree::{
    child_path, clone_dir, clone_files, copy_bytes, copy_path, dirs_view, file_content, files_view,
    find_dir,
    find_file, is_ignored, is_sidecar_name, lemma_dir_view, make_sidecar_name, name_is_sidecar,
    opt_dir_view, path_is_ignored, path_view, paths_view, put, put_file, sidecar_name, subdir,
    DirNode, DirView, FileNode, FileView,
};

verus! {

/// Why a walk stopped.
#[derive(Debug, Clone, Copy, PartialEq, Eq)]
pub enum WalkFault {
    /// Two files of one directory share a name, or one of them bears the
    /// name of the metadata file of a file of that directory: the new
    /// checkpoint could not hold a metadata file for each of them alone.
    NameClash,
    /// The record that the previous checkpoint keeps for a file cannot be
    /// read.
    Record(MetaError),
}

/// Whether the files of a directory are named apart: no two share a name,
/// and none bears the name of the metadata file of a file of the
/// directory. Then what the walk writes for one file is written over for
/// no other.
pub open spec fn named_apart(files: Seq<FileView>) -> bool {
    forall|i: int, j: int|
        0 <= i < files.len() && 0 <= j < files.len() ==> {
            &&& (#[trigger] files[i]).name != sidecar_name((#[trigger] files[j]).name)
            &&& i != j ==> files[i].name != files[j].name
        }
}

/// Whether the file at `i` is named apart from the file at `j`.
pub open spec fn pair_apart(files: Seq<FileView>, i: int, j: int) -> bool {
    &&& files[i].name != sidecar_name(files[j].name)
    &&& i != j ==> files[i].name != files[j].name
}

/// What the walk does with one file.
#[derive(Debug)]
pub struct FileOutcome {
    /// The content of the file's new metadata file.
    pub meta: Vec<u8>,
    /// Whether the file's content goes into the new checkpoint.
    pub copy: bool,
}

/// The record that the previous checkpoint holds for a file, where it
/// holds metadata for it at all, or why that metadata cannot be read.
pub open spec fn previous_record(last_meta: Option<Seq<u8>>) -> Result<
    Option<RecordView>,
    MetaError,
> {
    match last_meta {
        None => Ok(None),
        Some(text) => match parsed(text) {
            Ok(record) => Ok(Some(record)),
            Err(e) => Err(e),
        },
    }
}

/// Whether a file's content has to be copied: always, unless the previous
/// checkpoint holds a record for it that tells of the same content.
pub open spec fn must_copy(last: Option<RecordView>, current: RecordView) -> bool {
    !(last is Some && unchanged(last->0, current))
}

/// The metadata that the previous checkpoint keeps for the file `name`.
pub open spec fn previous_meta(prev: Option<Seq<FileView>>, name: Seq<u8>) -> Option<Seq<u8>> {
    match prev {
        Some(files) => file_content(files, sidecar_name(name)),
        None => None,
    }
}

/// The files of a new checkpoint directory after one more source file was
/// dealt with: its metadata file is written in any case, its content only
/// where it has to be copied.
pub open spec fn file_step(
    out: Seq<FileView>,
    file: FileView,
    prev: Option<Seq<FileView>>,
    now: int,
) -> Result<Seq<FileView>, MetaError> {
    let current = captured(file.content, now);
    match previous_record(previous_meta(prev, file.name)) {
        Err(e) => Err(e),
        Ok(last) => {
            let with_meta = put(out, sidecar_name(file.name), serialized(current));
            if must_copy(last, current) {
                Ok(put(with_meta, file.name, file.content))
            } else {
                Ok(with_meta)
            }
        },
    }
}

/// The files of a new checkpoint directory after the first `n` source
/// files were dealt with in order, or the first error met on the way.
pub open spec fn backup_files(
    files: Seq<FileView>,
    n: nat,
    prev: Option<Seq<FileView>>,
    now: int,
) -> Result<Seq<FileView>, MetaError>
    decreases n,
{
    if n == 0 {
        Ok(Seq::<FileView>::empty())
    } else {
        match backup_files(files, (n - 1) as nat, prev, now) {
            Err(e) => Err(e),
            Ok(out) => file_step(out, files[n - 1], prev, now),
        }
    }
}

/// The files of a directory of the previous checkpoint that may be absent.
pub open spec fn previous_files(prev: Option<DirView>) -> Option<Seq<FileView>> {
    match prev {
        Some(d) => Some(d.files),
        None => None,
    }
}

/// The directory of the previous checkpoint that goes with the
/// subdirectory `name`.
pub open spec fn previous_subdir(prev: Option<DirView>, name: Seq<u8>) -> Option<DirView> {
    match prev {
        Some(d) => subdir(d.dirs, name),
        None => None,
    }
}

/// The new checkpoint that a walk over `src` builds. `path` is the path of
/// `src`, `prev` the directory of the previous checkpoint that goes with
/// it, with its metadata files unpacked. A directory whose files are not
/// named apart is refused. The files are dealt with first, then the
/// subdirectories, each in the order of its listing.
pub open spec fn backup_tree(
    src: DirView,
    path: Seq<Seq<u8>>,
    prev: Option<DirView>,
    ignore: Seq<Seq<Seq<u8>>>,
    now: int,
) -> Result<DirView, WalkFault>
    decreases src, 0nat,
{
    if !named_apart(src.files) {
        Err(WalkFault::NameClash)
    } else {
        match backup_files(src.files, src.files.len(), previous_files(prev), now) {
            Err(e) => Err(WalkFault::Record(e)),
            Ok(files) => match backup_dirs(src.dirs, src.dirs.len(), path, prev, ignore, now) {
                Err(e) => Err(e),
                Ok(dirs) => Ok(DirView { name: src.name, files, dirs }),
            },
        }
    }
}

/// The mirrors of the first `n` subdirectories, without those that are
/// left out, or the first error met on the way.
pub open spec fn backup_dirs(
    dirs: Seq<DirView>,
    n: nat,
    path: Seq<Seq<u8>>,
    prev: Option<DirView>,
    ignore: Seq<Seq<Seq<u8>>>,
    now: int,
) -> Result<Seq<DirView>, WalkFault>
    decreases dirs, n,
{
    if n == 0 || n > dirs.len() {
        Ok(Seq::<DirView>::empty())
    } else {
        let dir = dirs[n - 1];
        match backup_dirs(dirs, (n - 1) as nat, path, prev, ignore, now) {
            Err(e) => Err(e),
            Ok(out) => if is_ignored(path.push(dir.name), ignore) {
                Ok(out)
            } else {
                match backup_tree(
                    dir,
                    path.push(dir.name),
                    previous_subdir(prev, dir.name),
                    ignore,
                    now,
                ) {
                    Err(e) => Err(e),
                    Ok(mirror) => Ok(out.push(mirror)),
                }
            },
        }
    }
}

/// An error met while dealing with the first files is the error of the
/// whole listing.
pub proof fn lemma_backup_files_error(
    files: Seq<FileView>,
    n: nat,
    m: nat,
    prev: Option<Seq<FileView>>,
    now: int,
)
    requires
        n <= m,
        backup_files(files, n, prev, now) is Err,
    ensures
        backup_files(files, m, prev, now) == backup_files(files, n, prev, now),
    decreases m,
{
    if n < m {
        lemma_backup_files_error(files, n, (m - 1) as nat, prev, now);
    }
}

/// An error met while mirroring the first subdirectories is the error of
/// the whole listing.
pub proof fn lemma_backup_dirs_error(
    dirs: Seq<DirView>,
    n: nat,
    m: nat,
    path: Seq<Seq<u8>>,
    prev: Option<DirView>,
    ignore: Seq<Seq<Seq<u8>>>,
    now: int,
)
    requires
        n <= m <= dirs.len(),
        backup_dirs(dirs, n, path, prev, ignore, now) is Err,
    ensures
        backup_dirs(dirs, m, path, prev, ignore, now) == backup_dirs(
            dirs,
            n,
            path,
            prev,
            ignore,
            now,
        ),
    decreases m,
{
    if n < m {
        lemma_backup_dirs_error(dirs, n, (m - 1) as nat, path, prev, ignore, now);
    }
}

/// Without a previous checkpoint no file can fail.
pub proof fn lemma_backup_files_without_previous(files: Seq<FileView>, n: nat, now: int)
    ensures
        backup_files(files, n, None, now) is Ok,
    decreases n,
{
    if n > 0 {
        lemma_backup_files_without_previous(files, (n - 1) as nat, now);
    }
}

/// Why a walk stopped, and where.
#[derive(Debug, PartialEq, Eq)]
pub struct WalkError {
    /// The path of the source file whose record in the previous checkpoint
    /// cannot be read, or of the directory whose files are not named
    /// apart.
    pub path: Vec<Vec<u8>>,
    /// Why the walk stopped.
    pub error: WalkFault,
}

/// How many of the first `n` files are dealt with before the walk stops:
/// the index of the first file whose record in the previous checkpoint
/// cannot be read, and `n` where all can.
pub open spec fn files_done(files: Seq<FileView>, n: nat, prev: Option<Seq<FileView>>) -> nat
    decreases n,
{
    if n == 0 {
        0
    } else if files_done(files, (n - 1) as nat, prev) < n - 1 {
        files_done(files, (n - 1) as nat, prev)
    } else if previous_record(previous_meta(prev, files[n - 1].name)) is Err {
        (n - 1) as nat
    } else {
        n
    }
}

/// How many of the first `n` subdirectories are dealt with before the
/// walk stops: the index of the first that is not left out and in which
/// the walk fails, and `n` where there is none.
pub open spec fn dirs_done(
    dirs: Seq<DirView>,
    n: nat,
    path: Seq<Seq<u8>>,
    prev: Option<DirView>,
    ignore: Seq<Seq<Seq<u8>>>,
    now: int,
) -> nat
    decreases n,
{
    if n == 0 {
        0
    } else if dirs_done(dirs, (n - 1) as nat, path, prev, ignore, now) < n - 1 {
        dirs_done(dirs, (n - 1) as nat, path, prev, ignore, now)
    } else if !is_ignored(path.push(dirs[n - 1].name), ignore) && backup_tree(
        dirs[n - 1],
        path.push(dirs[n - 1].name),
        previous_subdir(prev, dirs[n - 1].name),
        ignore,
        now,
    ) is Err {
        (n - 1) as nat
    } else {
        n
    }
}

/// The path at which a walk that fails stops: the directory itself where
/// its files are not named apart, else the first file of the directory
/// whose record in the previous checkpoint cannot be read, and else the
/// path at which the walk stops in the first subdirectory in which it
/// fails.
pub open spec fn failure_path(
    src: DirView,
    path: Seq<Seq<u8>>,
    prev: Option<DirView>,
    ignore: Seq<Seq<Seq<u8>>>,
    now: int,
) -> Seq<Seq<u8>>
    decreases src,
{
    let f = files_done(src.files, src.files.len(), previous_files(prev));
    let d = dirs_done(src.dirs, src.dirs.len(), path, prev, ignore, now);
    if !named_apart(src.files) {
        path
    } else if f < src.files.len() {
        path.push(src.files[f as int].name)
    } else if d < src.dirs.len() {
        failure_path(
            src.dirs[d as int],
            path.push(src.dirs[d as int].name),
            previous_subdir(prev, src.dirs[d as int].name),
            ignore,
            now,
        )
    } else {
        path
    }
}

/// The walk over the files of a directory succeeds exactly if every file
/// is dealt with, and else it fails for the reason that the record of the
/// first file that is not dealt with cannot be read.
pub proof fn lemma_files_done(files: Seq<FileView>, n: nat, prev: Option<Seq<FileView>>, now: int)
    ensures
        files_done(files, n, prev) <= n,
        files_done(files, n, prev) == n <==> backup_files(files, n, prev, now) is Ok,
        files_done(files, n, prev) < n ==> previous_record(
            previous_meta(prev, files[files_done(files, n, prev) as int].name),
        ) is Err && backup_files(files, n, prev, now) == Err::<Seq<FileView>, MetaError>(
            previous_record(
                previous_meta(prev, files[files_done(files, n, prev) as int].name),
            )->Err_0,
        ),
    decreases n,
{
    if n > 0 {
        lemma_files_done(files, (n - 1) as nat, prev, now);
    }
}

/// Once the walk has stopped at a file, more files change nothing.
pub proof fn lemma_files_done_stops(
    files: Seq<FileView>,
    n: nat,
    m: nat,
    prev: Option<Seq<FileView>>,
)
    requires
        n <= m,
        files_done(files, n, prev) < n,
    ensures
        files_done(files, m, prev) == files_done(files, n, prev),
    decreases m,
{
    if n < m {
        lemma_files_done_stops(files, n, (m - 1) as nat, prev);
    }
}

/// The walk over the subdirectories succeeds exactly if every one of them
/// is dealt with.
pub proof fn lemma_dirs_done(
    dirs: Seq<DirView>,
    n: nat,
    path: Seq<Seq<u8>>,
    prev: Option<DirView>,
    ignore: Seq<Seq<Seq<u8>>>,
    now: int,
)
    requires
        n <= dirs.len(),
    ensures
        dirs_done(dirs, n, path, prev, ignore, now) <= n,
        dirs_done(dirs, n, path, prev, ignore, now) == n <==> backup_dirs(
            dirs,
            n,
            path,
            prev,
            ignore,
            now,
        ) is Ok,
    decreases n,
{
    if n > 0 {
        lemma_dirs_done(dirs, (n - 1) as nat, path, prev, ignore, now);
    }
}

/// Once the walk has stopped in a subdirectory, more subdirectories
/// change nothing.
pub proof fn lemma_dirs_done_stops(
    dirs: Seq<DirView>,
    n: nat,
    m: nat,
    path: Seq<Seq<u8>>,
    prev: Option<DirView>,
    ignore: Seq<Seq<Seq<u8>>>,
    now: int,
)
    requires
        n <= m,
        dirs_done(dirs, n, path, prev, ignore, now) < n,
    ensures
        dirs_done(dirs, m, path, prev, ignore, now) == dirs_done(dirs, n, path, prev, ignore, now),
    decreases m,
{
    if n < m {
        lemma_dirs_done_stops(dirs, n, (m - 1) as nat, path, prev, ignore, now);
    }
}

/// Decides what becomes of one source file: the content of its new
/// metadata file, and whether its content is copied. `last_meta` is the
/// metadata that the previous checkpoint keeps for the file, if any.
pub fn dealing_with_file(content: &[u8], last_meta: Option<&[u8]>, now: i64) -> (r: Result<
    FileOutcome,
    MetaError,
>)
    requires
        valid_timestamp(now as int),
    ensures
        match previous_record(
            match last_meta {
                Some(text) => Some(text@),
                None => None,
            },
        ) {
            Err(e) => r == Err::<FileOutcome, MetaError>(e),
            Ok(last) => r matches Ok(outcome) && outcome.meta@ == serialized(
                captured(content@, now as int),
            ) && outcome.copy == must_copy(last, captured(content@, now as int)),
        },
        last_meta is None ==> (r matches Ok(outcome) && outcome.copy),
{
    let last_info: Option<FileInfo> = match last_meta {
        Some(text) => match FileInfo::deserialize(text) {
            Ok(info) => Some(info),
            Err(e) => {
                return Err(e);
            },
        },
        None => None,
    };
    let current = FileInfo::capture_at(content, now);
    let meta = current.serialize();
    let copy: bool = match &last_info {
        Some(last) => !last.unchanged(&current),
        None => true,
    };
    Ok(FileOutcome { meta, copy })
}

/// Whether `name` is the name of the metadata file that goes with the
/// file `of`.
pub fn is_sidecar_of(name: &[u8], of: &[u8]) -> (b: bool)
    ensures
        b == (name@ == sidecar_name(of@)),
{
    let side = make_sidecar_name(of);
    crate::text::bytes_equal(name, side.as_slice())
}

/// Whether the files of a directory are named apart.
pub fn files_named_apart(files: &Vec<FileNode>) -> (b: bool)
    ensures
        b == named_apart(files_view(files@)),
{
    let ghost all = files_view(files@);
    let mut i: usize = 0;
    while i < files.len()
        invariant
            i <= files.len(),
            all == files_view(files@),
            forall|a: int, c: int|
                0 <= a < i && 0 <= c < all.len() ==> #[trigger] pair_apart(all, a, c),
        decreases files.len() - i,
    {
        let mut j: usize = 0;
        while j < files.len()
            invariant
                i < files.len(),
                j <= files.len(),
                all == files_view(files@),
                forall|c: int| 0 <= c < j ==> #[trigger] pair_apart(all, i as int, c),
            decreases files.len() - j,
        {
            let clash: bool = is_sidecar_of(files[i].name.as_slice(), files[j].name.as_slice())
                || (i != j && crate::text::bytes_equal(
                files[i].name.as_slice(),
                files[j].name.as_slice(),
            ));
            assert(all[i as int] == files@[i as int]@);
            assert(all[j as int] == files@[j as int]@);
            if clash {
                assert(!pair_apart(all, i as int, j as int));
                return false;
            }
            j += 1;
        }
        i += 1;
    }
    assert forall|a: int, c: int| 0 <= a < all.len() && 0 <= c < all.len() implies {
        &&& (#[trigger] all[a]).name != sidecar_name((#[trigger] all[c]).name)
        &&& a != c ==> all[a].name != all[c].name
    } by {
        assert(pair_apart(all, a, c));
    }
    true
}

/// Walks the source directory `dir`, which stands at `path`, and builds
/// the directory of the new checkpoint that goes with it.
/// `last_checkpoint` is the directory of the previous checkpoint that goes
/// with `dir`, with its metadata files unpacked; without one every file
/// counts as new. A directory whose files are not named apart is refused,
/// so that every file gets a metadata file of its own. The walk stops at
/// the first such directory, or at the first metadata of the previous
/// checkpoint that cannot be read, and names the directory or the source
/// file that the metadata belongs to.
pub fn traverse_backup(
    dir: &DirNode,
    path: &Vec<Vec<u8>>,
    last_checkpoint: Option<&DirNode>,
    ignore: &Vec<Vec<Vec<u8>>>,
    now: i64,
) -> (r: Result<DirNode, WalkError>)
    requires
        valid_timestamp(now as int),
    ensures
        match backup_tree(
            dir@,
            path_view(path@),
            opt_dir_view(last_checkpoint),
            paths_view(ignore@),
            now as int,
        ) {
            Ok(tree) => r matches Ok(built) && built@ == tree,
            Err(e) => r matches Err(failure) && failure.error == e && path_view(failure.path@)
                == failure_path(
                dir@,
                path_view(path@),
                opt_dir_view(last_checkpoint),
                paths_view(ignore@),
                now as int,
            ),
        },
        r matches Ok(built) ==> forall|k: int|
            0 <= k < dir@.files.len() ==> file_content(
                built@.files,
                sidecar_name((#[trigger] dir@.files[k]).name),
            ) == Some(serialized(captured(dir@.files[k].content, now as int))),
    decreases dir,
{
    let ghost src = dir@;
    let ghost prev = opt_dir_view(last_checkpoint);
    let ghost prev_files = previous_files(prev);
    let ghost at = path_view(path@);
    let ghost patterns = paths_view(ignore@);
    proof {
        lemma_dir_view(*dir);
        if let Some(last) = last_checkpoint {
            lemma_dir_view(*last);
        }
    }
    if !files_named_apart(&dir.files) {
        return Err(WalkError { path: copy_path(path), error: WalkFault::NameClash });
    }
    let mut files: Vec<FileNode> = Vec::new();
    let mut i: usize = 0;
    assert(files_view(files@) =~= Seq::<FileView>::empty());
    while i < dir.files.len()
        invariant
            i <= dir.files.len(),
            valid_timestamp(now as int),
            named_apart(src.files),
            src == dir@,
            src.files == files_view(dir.files@),
            prev == opt_dir_view(last_checkpoint),
            prev_files == previous_files(prev),
            last_checkpoint matches Some(last) ==> last@.files == files_view(last.files@),
            at == path_view(path@),
            files_done(src.files, i as nat, prev_files) == i,
            backup_files(src.files, i as nat, prev_files, now as int) == Ok::<
                Seq<FileView>,
                MetaError,
            >(files_view(files@)),
        decreases dir.files.len() - i,
    {
        let file = &dir.files[i];
        assert(src.files[i as int] == file@);
        let side = make_sidecar_name(file.name.as_slice());
        let last_meta: Option<&[u8]> = match last_checkpoint {
            Some(last) => match find_file(&last.files, side.as_slice()) {
                Some(k) => Some(last.files[k].content.as_slice()),
                None => None,
            },
            None => None,
        };
        assert((match last_meta {
            Some(text) => Some(text@),
            None => None,
        }) == previous_meta(prev_files, file@.name));
        match dealing_with_file(file.content.as_slice(), last_meta, now) {
            Err(e) => {
                proof {
                    lemma_backup_files_error(
                        src.files,
                        (i + 1) as nat,
                        src.files.len(),
                        prev_files,
                        now as int,
                    );
                    assert(files_done(src.files, (i + 1) as nat, prev_files) == i);
                    lemma_files_done_stops(
                        src.files,
                        (i + 1) as nat,
                        src.files.len(),
                        prev_files,
                    );
                }
                return Err(
                    WalkError {
                        path: child_path(path, file.name.as_slice()),
                        error: WalkFault::Record(e),
                    },
                );
            },
            Ok(outcome) => {
                put_file(&mut files, side, outcome.meta);
                if outcome.copy {
                    put_file(
                        &mut files,
                        copy_bytes(file.name.as_slice()),
                        copy_bytes(file.content.as_slice()),
                    );
                }
            },
        }
        i += 1;
    }
    let mut dirs: Vec<DirNode> = Vec::new();
    let mut j: usize = 0;
    assert(dirs_view(dirs@) =~= Seq::<DirView>::empty());
    while j < dir.dirs.len()
        invariant
            j <= dir.dirs.len(),
            valid_timestamp(now as int),
            src == dir@,
            src.dirs == dirs_view(dir.dirs@),
            prev == opt_dir_view(last_checkpoint),
            last_checkpoint matches Some(last) ==> last@.dirs == dirs_view(last.dirs@),
            at == path_view(path@),
            patterns == paths_view(ignore@),
            named_apart(src.files),
            backup_files(src.files, src.files.len(), previous_files(prev), now as int) is Ok,
            files_done(src.files, src.files.len(), previous_files(prev)) == src.files.len(),
            dirs_done(src.dirs, j as nat, at, prev, patterns, now as int) == j,
            backup_dirs(src.dirs, j as nat, at, prev, patterns, now as int) == Ok::<
                Seq<DirView>,
                WalkFault,
            >(dirs_view(dirs@)),
        decreases dir.dirs.len() - j,
    {
        let sub = &dir.dirs[j];
        assert(src.dirs[j as int] == sub@);
        proof {
            lemma_dir_view(*sub);
        }
        let sub_path = child_path(path, sub.name.as_slice());
        if !path_is_ignored(&sub_path, ignore) {
            let last_sub: Option<&DirNode> = match last_checkpoint {
                Some(last) => match find_dir(&last.dirs, sub.name.as_slice()) {
                    Some(k) => Some(&last.dirs[k]),
                    None => None,
                },
                None => None,
            };
            assert(opt_dir_view(last_sub) == previous_subdir(prev, sub@.name));
            match traverse_backup(sub, &sub_path, last_sub, ignore, now) {
                Err(e) => {
                    proof {
                        lemma_backup_dirs_error(
                            src.dirs,
                            (j + 1) as nat,
                            src.dirs.len(),
                            at,
                            prev,
                            patterns,
                            now as int,
                        );
                        assert(dirs_done(src.dirs, (j + 1) as nat, at, prev, patterns, now as int)
                            == j);
                        lemma_dirs_done_stops(
                            src.dirs,
                            (j + 1) as nat,
                            src.dirs.len(),
                            at,
                            prev,
                            patterns,
                            now as int,
                        );
                    }
                    return Err(e);
                },
                Ok(mirror) => {
                    let ghost before = dirs_view(dirs@);
                    dirs.push(mirror);
                    assert(dirs_view(dirs@) =~= before.push(mirror@));
                },
            }
        }
        j += 1;
    }
    let built = DirNode { name: copy_bytes(dir.name.as_slice()), files, dirs };
    proof {
        lemma_dir_view(built);
        assert forall|k: int| 0 <= k < src.files.len() implies file_content(
            files_view(built.files@),
            sidecar_name((#[trigger] src.files[k]).name),
        ) == Some(serialized(captured(src.files[k].content, now as int))) by {
            crate::walker_laws::lemma_file_outcome(
                src.files,
                src.files.len(),
                previous_files(prev),
                now as int,
                k,
            );
        }
    }
    Ok(built)
}

/// The files of a directory after a metadata file was written for one of
/// them. A file that is itself a metadata file gets none.
pub open spec fn meta_step(out: Seq<FileView>, file: FileView, now: int) -> Seq<FileView> {
    if is_sidecar_name(file.name) {
        out
    } else {
        put(out, sidecar_name(file.name), serialized(captured(file.content, now)))
    }
}

/// The files of a directory after metadata files were written for the
/// first `n` of them, in order.
pub open spec fn meta_files(files: Seq<FileView>, n: nat, now: int) -> Seq<FileView>
    decreases n,
{
    if n == 0 {
        files
    } else {
        meta_step(meta_files(files, (n - 1) as nat, now), files[n - 1], now)
    }
}

/// The directory `dir`, which stands at `path`, after metadata files were
/// written for all files in it and below it. Subdirectories that are left
/// out stay as they are.
pub open spec fn meta_tree(
    dir: DirView,
    path: Seq<Seq<u8>>,
    ignore: Seq<Seq<Seq<u8>>>,
    now: int,
) -> DirView
    decreases dir, 0nat,
{
    DirView {
        name: dir.name,
        files: meta_files(dir.files, dir.files.len(), now),
        dirs: meta_dirs(dir.dirs, dir.dirs.len(), path, ignore, now),
    }
}

/// The first `n` subdirectories after metadata files were written in
/// those that are not left out.
pub open spec fn meta_dirs(
    dirs: Seq<DirView>,
    n: nat,
    path: Seq<Seq<u8>>,
    ignore: Seq<Seq<Seq<u8>>>,
    now: int,
) -> Seq<DirView>
    decreases dirs, n,
{
    if n == 0 || n > dirs.len() {
        Seq::<DirView>::empty()
    } else {
        let dir = dirs[n - 1];
        let done = meta_dirs(dirs, (n - 1) as nat, path, ignore, now);
        if is_ignored(path.push(dir.name), ignore) {
            done.push(dir)
        } else {
            done.push(meta_tree(dir, path.push(dir.name), ignore, now))
        }
    }
}

/// Writes a metadata file beside every file in `checkpoint` and below it
/// that is not itself a metadata file, and hands back the tree with them.
/// `checkpoint` stands at `path`; subdirectories that are left out are not
/// entered.
pub fn traverse_meta(
    checkpoint: &DirNode,
    path: &Vec<Vec<u8>>,
    ignore: &Vec<Vec<Vec<u8>>>,
    now: i64,
) -> (out: DirNode)
    requires
        valid_timestamp(now as int),
    ensures
        out@ == meta_tree(checkpoint@, path_view(path@), paths_view(ignore@), now as int),
    decreases checkpoint,
{
    let ghost src = checkpoint@;
    let ghost at = path_view(path@);
    let ghost patterns = paths_view(ignore@);
    proof {
        lemma_dir_view(*checkpoint);
    }
    let mut files: Vec<FileNode> = clone_files(&checkpoint.files);
    let mut i: usize = 0;
    while i < checkpoint.files.len()
        invariant
            i <= checkpoint.files.len(),
            valid_timestamp(now as int),
            src.files == files_view(checkpoint.files@),
            files_view(files@) == meta_files(src.files, i as nat, now as int),
        decreases checkpoint.files.len() - i,
    {
        let file = &checkpoint.files[i];
        assert(src.files[i as int] == file@);
        if !name_is_sidecar(file.name.as_slice()) {
            let record = FileInfo::capture_at(file.content.as_slice(), now);
            put_file(&mut files, make_sidecar_name(file.name.as_slice()), record.serialize());
        }
        i += 1;
    }
    let mut dirs: Vec<DirNode> = Vec::new();
    let mut j: usize = 0;
    assert(dirs_view(dirs@) =~= Seq::<DirView>::empty());
    while j < checkpoint.dirs.len()
        invariant
            j <= checkpoint.dirs.len(),
            valid_timestamp(now as int),
            src.dirs == dirs_view(checkpoint.dirs@),
            at == path_view(path@),
            patterns == paths_view(ignore@),
            dirs_view(dirs@) == meta_dirs(src.dirs, j as nat, at, patterns, now as int),
        decreases checkpoint.dirs.len() - j,
    {
        let sub = &checkpoint.dirs[j];
        assert(src.dirs[j as int] == sub@);
        proof {
            lemma_dir_view(*sub);
        }
        let sub_path = child_path(path, sub.name.as_slice());
        let done = if path_is_ignored(&sub_path, ignore) {
            clone_dir(sub)
        } else {
            traverse_meta(sub, &sub_path, ignore, now)
        };
        let ghost before = dirs_view(dirs@);
        dirs.push(done);
        assert(dirs_view(dirs@) =~= before.push(done@));
        j += 1;
    }
    let out = DirNode { name: copy_bytes(checkpoint.name.as_slice()), files, dirs };
    proof {
        lemma_dir_view(out);
    }
    out
}

} // verus!

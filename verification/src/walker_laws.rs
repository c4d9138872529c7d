//! What holds of every walk: which files are copied, which only get
//! metadata, and which directories are mirrored.

use vstd::prelude::*;
use crate::clock::valid_timestamp;
use crate::hashing::{digest_text, xxh3_64};
use crate::record::{
    captured, lemma_digest_text_is_digest, lemma_record_round_trip, serialized, MetaError,
    RecordView,
};
use crate::text::lemma_hex16_injective;
use crate::tree::{
    file_content, has_file, is_ignored, is_sidecar_name, lemma_put_other, lemma_put_same,
    lemma_sidecar_names_differ, put, sidecar_name, unique_names, DirView, FileView,
};
use crate::walker::{
    backup_dirs, backup_files, backup_tree, file_step, meta_files, must_copy, named_apart,
    previous_files, previous_meta, previous_record, previous_subdir, WalkFault,
};

verus! {

/// A file without a record in the previous checkpoint is copied, whatever
/// it holds.
pub proof fn lemma_new_file_is_copied(current: RecordView)
    ensures
        previous_record(None) == Ok::<Option<RecordView>, MetaError>(None),
        must_copy(None, current),
{
}

/// A file whose bytes are the same as when its record was stored is not
/// copied: the stored record reads back, and it tells of the same content
/// as the record of the file now, whenever the two were captured.
pub proof fn lemma_unchanged_file_is_not_copied(content: Seq<u8>, earlier: int, now: int)
    requires
        content.len() <= u64::MAX,
        valid_timestamp(earlier),
    ensures
        previous_record(Some(serialized(captured(content, earlier)))) == Ok::<
            Option<RecordView>,
            MetaError,
        >(Some(captured(content, earlier))),
        !must_copy(Some(captured(content, earlier)), captured(content, now)),
{
    lemma_digest_text_is_digest(content);
    lemma_record_round_trip(captured(content, earlier));
}

/// A file whose bytes differ from those its record was stored for is
/// copied, also where the size is the same, provided that the two contents
/// differ in size or in digest.
pub proof fn lemma_changed_file_is_copied(old: Seq<u8>, new: Seq<u8>, earlier: int, now: int)
    requires
        old.len() <= u64::MAX,
        valid_timestamp(earlier),
        old.len() != new.len() || xxh3_64(old) != xxh3_64(new),
    ensures
        previous_record(Some(serialized(captured(old, earlier)))) == Ok::<
            Option<RecordView>,
            MetaError,
        >(Some(captured(old, earlier))),
        must_copy(Some(captured(old, earlier)), captured(new, now)),
{
    lemma_digest_text_is_digest(old);
    lemma_record_round_trip(captured(old, earlier));
    if digest_text(old) == digest_text(new) {
        lemma_hex16_injective(xxh3_64(old), xxh3_64(new));
    }
}

/// Every file that the walk has written after `n` source files goes back
/// to one of them: it is named like that file or like its metadata file.
pub proof fn lemma_outputs_are_named(
    files: Seq<FileView>,
    n: nat,
    prev: Option<Seq<FileView>>,
    now: int,
    name: Seq<u8>,
)
    requires
        n <= files.len(),
        backup_files(files, n, prev, now) is Ok,
        has_file(backup_files(files, n, prev, now)->Ok_0, name),
    ensures
        exists|i: int|
            0 <= i < n && (name == (#[trigger] files[i]).name || name == sidecar_name(
                files[i].name,
            )),
    decreases n,
{
    if n == 0 {
        assert(!has_file(Seq::<FileView>::empty(), name));
    } else {
        let before = backup_files(files, (n - 1) as nat, prev, now)->Ok_0;
        let file = files[n - 1];
        let side = sidecar_name(file.name);
        let meta = serialized(captured(file.content, now));
        let with_meta = put(before, side, meta);
        if name == file.name || name == side {
        } else {
            lemma_put_other(before, side, meta, name);
            lemma_put_other(with_meta, file.name, file.content, name);
            assert(has_file(before, name));
            lemma_outputs_are_named(files, (n - 1) as nat, prev, now, name);
        }
    }
}

/// In a directory whose files are named apart, the new checkpoint holds
/// for every source file its metadata file, and its content exactly where
/// the file had to be copied: where the previous checkpoint has no record
/// for it or one that tells of other content.
pub proof fn lemma_file_outcome(
    files: Seq<FileView>,
    n: nat,
    prev: Option<Seq<FileView>>,
    now: int,
    k: int,
)
    requires
        0 <= k < n <= files.len(),
        named_apart(files),
        backup_files(files, n, prev, now) is Ok,
    ensures
        file_content(backup_files(files, n, prev, now)->Ok_0, sidecar_name(files[k].name))
            == Some(serialized(captured(files[k].content, now))),
        previous_record(previous_meta(prev, files[k].name)) is Ok,
        file_content(backup_files(files, n, prev, now)->Ok_0, files[k].name) == (if must_copy(
            previous_record(previous_meta(prev, files[k].name))->Ok_0,
            captured(files[k].content, now),
        ) {
            Some(files[k].content)
        } else {
            None
        }),
    decreases n,
{
    let before = backup_files(files, (n - 1) as nat, prev, now)->Ok_0;
    let file = files[n - 1];
    let side = sidecar_name(file.name);
    let meta = serialized(captured(file.content, now));
    let with_meta = put(before, side, meta);
    let mine = files[k];
    assert(file_step(before, file, prev, now) is Ok);
    let last = previous_record(previous_meta(prev, file.name))->Ok_0;
    if k == n - 1 {
        lemma_put_same(before, side, meta);
        lemma_put_other(before, side, meta, file.name);
        if has_file(before, file.name) {
            lemma_outputs_are_named(files, (n - 1) as nat, prev, now, file.name);
            let i = choose|i: int|
                0 <= i < n - 1 && (file.name == (#[trigger] files[i]).name || file.name
                    == sidecar_name(files[i].name));
            assert(files[i].name != files[k].name);
            assert(files[k].name != sidecar_name(files[i].name));
        }
        if must_copy(last, captured(file.content, now)) {
            lemma_put_same(with_meta, file.name, file.content);
            lemma_put_other(with_meta, file.name, file.content, side);
        }
    } else {
        lemma_file_outcome(files, (n - 1) as nat, prev, now, k);
        lemma_sidecar_names_differ(files[n - 1].name, files[k].name);
        assert(files[n - 1].name != sidecar_name(files[k].name));
        assert(files[k].name != sidecar_name(files[n - 1].name));
        assert(files[n - 1].name != files[k].name);
        lemma_put_other(before, side, meta, sidecar_name(mine.name));
        lemma_put_other(before, side, meta, mine.name);
        lemma_put_other(with_meta, file.name, file.content, sidecar_name(mine.name));
        lemma_put_other(with_meta, file.name, file.content, mine.name);
    }
}

/// Every file of a directory that was walked has a metadata file of its
/// own in the new checkpoint, which holds the record of that file: no
/// other file of the directory has a metadata file of that name, and none
/// bears that name itself. The content of the file stands beside it
/// exactly where the file had to be copied.
pub proof fn lemma_every_file_has_its_record(
    src: DirView,
    path: Seq<Seq<u8>>,
    prev: Option<DirView>,
    ignore: Seq<Seq<Seq<u8>>>,
    now: int,
    k: int,
)
    requires
        backup_tree(src, path, prev, ignore, now) is Ok,
        0 <= k < src.files.len(),
    ensures
        named_apart(src.files),
        file_content(
            backup_tree(src, path, prev, ignore, now)->Ok_0.files,
            sidecar_name(src.files[k].name),
        ) == Some(serialized(captured(src.files[k].content, now))),
        forall|j: int|
            0 <= j < src.files.len() ==> (#[trigger] src.files[j]).name != sidecar_name(
                src.files[k].name,
            ) && (j != k ==> sidecar_name(src.files[j].name) != sidecar_name(src.files[k].name)),
        file_content(backup_tree(src, path, prev, ignore, now)->Ok_0.files, src.files[k].name) == (
        if must_copy(
            previous_record(previous_meta(previous_files(prev), src.files[k].name))->Ok_0,
            captured(src.files[k].content, now),
        ) {
            Some(src.files[k].content)
        } else {
            None
        }),
{
    lemma_file_outcome(src.files, src.files.len(), previous_files(prev), now, k);
    assert forall|j: int| 0 <= j < src.files.len() implies (#[trigger] src.files[j]).name
        != sidecar_name(src.files[k].name) && (j != k ==> sidecar_name(src.files[j].name)
        != sidecar_name(src.files[k].name)) by {
        assert(src.files[j].name != sidecar_name(src.files[k].name));
        if j != k {
            lemma_sidecar_names_differ(src.files[j].name, src.files[k].name);
        }
    }
}

/// Where metadata is written anew for a directory, every file that is
/// not itself a metadata file gets a metadata file of its own, which holds
/// the record of that file. The files of the directory share no name.
pub proof fn lemma_metadata_for_every_file(files: Seq<FileView>, n: nat, now: int, k: int)
    requires
        0 <= k < n <= files.len(),
        unique_names(files),
        !is_sidecar_name(files[k].name),
    ensures
        file_content(meta_files(files, n, now), sidecar_name(files[k].name)) == Some(
            serialized(captured(files[k].content, now)),
        ),
    decreases n,
{
    let before = meta_files(files, (n - 1) as nat, now);
    let file = files[n - 1];
    if k == n - 1 {
        lemma_put_same(before, sidecar_name(file.name), serialized(captured(file.content, now)));
    } else {
        lemma_metadata_for_every_file(files, (n - 1) as nat, now, k);
        if !is_sidecar_name(file.name) {
            assert(files[k].name != files[n - 1].name);
            lemma_sidecar_names_differ(file.name, files[k].name);
            lemma_put_other(
                before,
                sidecar_name(file.name),
                serialized(captured(file.content, now)),
                sidecar_name(files[k].name),
            );
        }
    }
}

/// Those of the first `n` directories of a listing that are not left
/// out, in order.
pub open spec fn kept_dirs(
    dirs: Seq<DirView>,
    n: nat,
    path: Seq<Seq<u8>>,
    ignore: Seq<Seq<Seq<u8>>>,
) -> Seq<DirView>
    decreases n,
{
    if n == 0 || n > dirs.len() {
        Seq::<DirView>::empty()
    } else if is_ignored(path.push(dirs[n - 1].name), ignore) {
        kept_dirs(dirs, (n - 1) as nat, path, ignore)
    } else {
        kept_dirs(dirs, (n - 1) as nat, path, ignore).push(dirs[n - 1])
    }
}

/// The mirrors of the first `n` subdirectories stand for exactly those of
/// them that are not left out, one for one and in order, and each is what
/// the walk builds for its subdirectory.
pub proof fn lemma_mirrored_dirs(
    dirs: Seq<DirView>,
    n: nat,
    path: Seq<Seq<u8>>,
    prev: Option<DirView>,
    ignore: Seq<Seq<Seq<u8>>>,
    now: int,
)
    requires
        n <= dirs.len(),
        backup_dirs(dirs, n, path, prev, ignore, now) is Ok,
    ensures
        backup_dirs(dirs, n, path, prev, ignore, now)->Ok_0.len() == kept_dirs(
            dirs,
            n,
            path,
            ignore,
        ).len(),
        forall|i: int|
            0 <= i < kept_dirs(dirs, n, path, ignore).len() ==> {
                let source = #[trigger] kept_dirs(dirs, n, path, ignore)[i];
                let mirror = backup_dirs(dirs, n, path, prev, ignore, now)->Ok_0[i];
                &&& mirror.name == source.name
                &&& backup_tree(
                    source,
                    path.push(source.name),
                    previous_subdir(prev, source.name),
                    ignore,
                    now,
                ) == Ok::<DirView, WalkFault>(mirror)
            },
    decreases n,
{
    if n > 0 {
        lemma_mirrored_dirs(dirs, (n - 1) as nat, path, prev, ignore, now);
        let dir = dirs[n - 1];
        let before = backup_dirs(dirs, (n - 1) as nat, path, prev, ignore, now)->Ok_0;
        let kept_before = kept_dirs(dirs, (n - 1) as nat, path, ignore);
        let kept = kept_dirs(dirs, n, path, ignore);
        let out = backup_dirs(dirs, n, path, prev, ignore, now)->Ok_0;
        if !is_ignored(path.push(dir.name), ignore) {
            let mirror = backup_tree(
                dir,
                path.push(dir.name),
                previous_subdir(prev, dir.name),
                ignore,
                now,
            )->Ok_0;
            assert(out == before.push(mirror));
            assert(kept == kept_before.push(dir));
            assert forall|i: int| 0 <= i < kept.len() implies {
                let source = #[trigger] kept[i];
                let built = out[i];
                &&& built.name == source.name
                &&& backup_tree(
                    source,
                    path.push(source.name),
                    previous_subdir(prev, source.name),
                    ignore,
                    now,
                ) == Ok::<DirView, WalkFault>(built)
            } by {
                if i < kept_before.len() {
                    assert(kept[i] == kept_before[i]);
                    assert(out[i] == before[i]);
                }
            }
        }
    }
}

/// Directory mirroring: the new checkpoint of a directory has the name of
/// that directory, and its subdirectories stand for exactly the source
/// subdirectories that are not left out, one for one and in order, each
/// being the new checkpoint of its source subdirectory. So the same holds
/// again of each of them, all the way down.
pub proof fn lemma_directories_are_mirrored(
    src: DirView,
    path: Seq<Seq<u8>>,
    prev: Option<DirView>,
    ignore: Seq<Seq<Seq<u8>>>,
    now: int,
)
    requires
        backup_tree(src, path, prev, ignore, now) is Ok,
    ensures
        backup_tree(src, path, prev, ignore, now)->Ok_0.name == src.name,
        backup_tree(src, path, prev, ignore, now)->Ok_0.dirs.len() == kept_dirs(
            src.dirs,
            src.dirs.len(),
            path,
            ignore,
        ).len(),
        forall|i: int|
            0 <= i < kept_dirs(src.dirs, src.dirs.len(), path, ignore).len() ==> {
                let source = #[trigger] kept_dirs(src.dirs, src.dirs.len(), path, ignore)[i];
                let mirror = backup_tree(src, path, prev, ignore, now)->Ok_0.dirs[i];
                &&& mirror.name == source.name
                &&& !is_ignored(path.push(source.name), ignore)
                &&& backup_tree(
                    source,
                    path.push(source.name),
                    previous_subdir(prev, source.name),
                    ignore,
                    now,
                ) == Ok::<DirView, WalkFault>(mirror)
            },
{
    lemma_mirrored_dirs(src.dirs, src.dirs.len(), path, prev, ignore, now);
    lemma_kept_dirs_are_kept(src.dirs, src.dirs.len(), path, ignore);
}

/// Every directory that is kept is a directory of the listing that is not
/// left out.
pub proof fn lemma_kept_dirs_are_kept(
    dirs: Seq<DirView>,
    n: nat,
    path: Seq<Seq<u8>>,
    ignore: Seq<Seq<Seq<u8>>>,
)
    requires
        n <= dirs.len(),
    ensures
        forall|i: int|
            0 <= i < kept_dirs(dirs, n, path, ignore).len() ==> !is_ignored(
                path.push((#[trigger] kept_dirs(dirs, n, path, ignore)[i]).name),
                ignore,
            ) && dirs.contains(kept_dirs(dirs, n, path, ignore)[i]),
    decreases n,
{
    if n > 0 {
        lemma_kept_dirs_are_kept(dirs, (n - 1) as nat, path, ignore);
        let kept = kept_dirs(dirs, n, path, ignore);
        let kept_before = kept_dirs(dirs, (n - 1) as nat, path, ignore);
        assert forall|i: int| 0 <= i < kept.len() implies !is_ignored(
            path.push((#[trigger] kept[i]).name),
            ignore,
        ) && dirs.contains(kept[i]) by {
            if i < kept_before.len() {
                assert(kept[i] == kept_before[i]);
            } else {
                assert(kept[i] == dirs[n - 1]);
            }
        }
    }
}

/// Whether two trees that stand at `path` are the same but for what the
/// directories that are left out hold: the same names and files, and as
/// many subdirectories with the same names, each of which is left out or
/// again the same but for what is left out.
pub open spec fn same_but_ignored(
    a: DirView,
    b: DirView,
    path: Seq<Seq<u8>>,
    ignore: Seq<Seq<Seq<u8>>>,
) -> bool
    decreases a,
{
    &&& a.name == b.name
    &&& a.files == b.files
    &&& a.dirs.len() == b.dirs.len()
    &&& forall|i: int|
        0 <= i < a.dirs.len() ==> (#[trigger] a.dirs[i]).name == b.dirs[i].name && (is_ignored(
            path.push(a.dirs[i].name),
            ignore,
        ) || same_but_ignored(a.dirs[i], b.dirs[i], path.push(a.dirs[i].name), ignore))
}

/// A directory that is left out leaves no trace: whatever it holds, the
/// walk builds the same checkpoint, or fails in the same way.
pub proof fn lemma_ignored_directories_leave_no_trace(
    a: DirView,
    b: DirView,
    path: Seq<Seq<u8>>,
    prev: Option<DirView>,
    ignore: Seq<Seq<Seq<u8>>>,
    now: int,
)
    requires
        same_but_ignored(a, b, path, ignore),
    ensures
        backup_tree(a, path, prev, ignore, now) == backup_tree(b, path, prev, ignore, now),
    decreases a, a.dirs.len() + 1,
{
    lemma_ignored_subdirectories_leave_no_trace(a, b, a.dirs.len(), path, prev, ignore, now);
}

/// The mirrors of the first `n` subdirectories do not depend on what the
/// subdirectories that are left out hold.
pub proof fn lemma_ignored_subdirectories_leave_no_trace(
    a: DirView,
    b: DirView,
    n: nat,
    path: Seq<Seq<u8>>,
    prev: Option<DirView>,
    ignore: Seq<Seq<Seq<u8>>>,
    now: int,
)
    requires
        same_but_ignored(a, b, path, ignore),
        n <= a.dirs.len(),
    ensures
        backup_dirs(a.dirs, n, path, prev, ignore, now) == backup_dirs(
            b.dirs,
            n,
            path,
            prev,
            ignore,
            now,
        ),
    decreases a, n,
{
    if n > 0 {
        lemma_ignored_subdirectories_leave_no_trace(a, b, (n - 1) as nat, path, prev, ignore, now);
        let child = a.dirs[n - 1];
        assert(child.name == b.dirs[n - 1].name);
        if !is_ignored(path.push(child.name), ignore) {
            lemma_ignored_directories_leave_no_trace(
                child,
                b.dirs[n - 1],
                path.push(child.name),
                previous_subdir(prev, child.name),
                ignore,
                now,
            );
        }
    }
}

} // verus!

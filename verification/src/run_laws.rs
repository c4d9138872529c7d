//! What holds of two runs in a row: the record that the first run stores
//! for a file is the record that the second run finds for it, so that the
//! second run copies the file exactly if its bytes have changed.

use vstd::prelude::*;
use crate::archive::{member_entries, utf8_lossy, zip_entries};
use crate::clock::valid_timestamp;
use crate::driver::{
    archives_only, archives_only_dirs, checkpoint_of, files_named, staged_from, ConfigView,
};
use crate::fold::{
    folded, folded_tree, meta_files_of, other_files_of, select, unfolded, unfolded_tree,
    with_archive,
};
use crate::fold_laws::{
    lemma_all_members_extracted, lemma_has_file, member_files, members_are_sidecars,
};
use crate::hashing::xxh3_64;
use crate::record::{captured, serialized};
use crate::tree::{
    dir_names, ends_with_meta, file_content, file_names, has_dir, has_file, is_ignored,
    is_sidecar_name, lemma_name_index, lemma_name_index_is, lemma_put_same,
    lemma_sidecar_name_is_sidecar, name_index, put, sidecar_name, unique_names, DirView,
    FileView,
};
use crate::walker::{
    backup_dirs, backup_files, backup_tree, named_apart, previous_files, previous_subdir,
};
use crate::walker_laws::{
    kept_dirs, lemma_changed_file_is_copied, lemma_file_outcome,
    lemma_mirrored_dirs, lemma_outputs_are_named, lemma_unchanged_file_is_not_copied,
};

verus! {

/// Looking a name up in a listing with one more file at its end finds
/// what the listing held under that name, and else the new file if it has
/// that name.
pub proof fn lemma_lookup_push(files: Seq<FileView>, file: FileView, name: Seq<u8>)
    ensures
        file_content(files.push(file), name) == (if has_file(files, name) {
            file_content(files, name)
        } else if file.name == name {
            Some(file.content)
        } else {
            None
        }),
{
    let names = file_names(files);
    let longer = file_names(files.push(file));
    lemma_name_index(names, name);
    let p = name_index(names, name);
    assert forall|i: int| 0 <= i < p implies #[trigger] longer[i] != name by {
        assert(names[i] != name);
    }
    if p < files.len() {
        assert(longer[p] == names[p]);
        lemma_name_index_is(longer, name, p);
    } else if file.name == name {
        lemma_name_index_is(longer, name, p);
    } else {
        lemma_name_index_is(longer, name, p + 1);
    }
}

/// Writing a file into a listing without shared names leaves it without
/// shared names.
pub proof fn lemma_put_keeps_unique(files: Seq<FileView>, name: Seq<u8>, content: Seq<u8>)
    requires
        unique_names(files),
    ensures
        unique_names(put(files, name, content)),
{
    let after = put(files, name, content);
    lemma_name_index(file_names(files), name);
    lemma_has_file(files, name);
    let p = name_index(file_names(files), name);
    assert forall|i: int, j: int| 0 <= i < j < after.len() implies (#[trigger] after[i]).name != (
    #[trigger] after[j]).name by {
        if has_file(files, name) {
            assert(file_names(files)[p] == name);
            assert(after[i].name == files[i].name);
            assert(after[j].name == files[j].name);
        } else {
            if j < files.len() {
                assert(after[i] == files[i] && after[j] == files[j]);
            } else {
                assert(after[i] == files[i]);
                assert(files[i].name != name);
            }
        }
    }
}

/// No two files that a walk writes into a directory share a name.
pub proof fn lemma_outputs_are_unique(
    files: Seq<FileView>,
    n: nat,
    prev: Option<Seq<FileView>>,
    now: int,
)
    requires
        n <= files.len(),
        backup_files(files, n, prev, now) is Ok,
    ensures
        unique_names(backup_files(files, n, prev, now)->Ok_0),
    decreases n,
{
    if n > 0 {
        lemma_outputs_are_unique(files, (n - 1) as nat, prev, now);
        let before = backup_files(files, (n - 1) as nat, prev, now)->Ok_0;
        let file = files[n - 1];
        let side = sidecar_name(file.name);
        let meta = serialized(captured(file.content, now));
        lemma_put_keeps_unique(before, side, meta);
        lemma_put_keeps_unique(put(before, side, meta), file.name, file.content);
    }
}

/// Looking up the name of a metadata file among the metadata files of a
/// listing finds what the listing holds under it.
pub proof fn lemma_meta_lookup(files: Seq<FileView>, n: nat, name: Seq<u8>)
    requires
        n <= files.len(),
        is_sidecar_name(name),
    ensures
        file_content(select(files, n, true), name) == file_content(files.take(n as int), name),
    decreases n,
{
    if n == 0 {
        assert(files.take(0) =~= Seq::<FileView>::empty());
    } else {
        lemma_meta_lookup(files, (n - 1) as nat, name);
        let file = files[n - 1];
        let chosen = select(files, (n - 1) as nat, true);
        assert(files.take(n as int) =~= files.take(n - 1).push(file));
        lemma_lookup_push(files.take(n - 1), file, name);
        if is_sidecar_name(file.name) {
            lemma_lookup_push(chosen, file, name);
        }
    }
}

/// Those files of a listing that are chosen for being metadata files, or
/// for being none, are files of the listing, and they share no name where
/// the listing has no shared names.
pub proof fn lemma_selected_files(files: Seq<FileView>, n: nat, sidecar: bool)
    requires
        n <= files.len(),
    ensures
        forall|i: int|
            0 <= i < select(files, n, sidecar).len() ==> is_sidecar_name(
                (#[trigger] select(files, n, sidecar)[i]).name,
            ) == sidecar,
        forall|i: int|
            0 <= i < select(files, n, sidecar).len() ==> exists|j: int|
                0 <= j < n && #[trigger] files[j] == (#[trigger] select(files, n, sidecar)[i]),
        unique_names(files) ==> unique_names(select(files, n, sidecar)),
    decreases n,
{
    if n > 0 {
        lemma_selected_files(files, (n - 1) as nat, sidecar);
        let chosen = select(files, (n - 1) as nat, sidecar);
        let now_chosen = select(files, n, sidecar);
        assert forall|i: int| 0 <= i < now_chosen.len() implies is_sidecar_name(
            (#[trigger] now_chosen[i]).name,
        ) == sidecar by {
            if i < chosen.len() {
                assert(now_chosen[i] == chosen[i]);
            }
        }
        assert forall|i: int| 0 <= i < now_chosen.len() implies exists|j: int|
            0 <= j < n && #[trigger] files[j] == (#[trigger] now_chosen[i]) by {
            if i < chosen.len() {
                assert(now_chosen[i] == chosen[i]);
                let j = choose|j: int| 0 <= j < n - 1 && #[trigger] files[j] == chosen[i];
                assert(files[j] == now_chosen[i]);
            } else {
                assert(files[n - 1] == now_chosen[i]);
            }
        }
        if unique_names(files) {
            assert forall|i: int, j: int| 0 <= i < j < now_chosen.len() implies (
            #[trigger] now_chosen[i]).name != (#[trigger] now_chosen[j]).name by {
                if j < chosen.len() {
                    assert(now_chosen[i] == chosen[i] && now_chosen[j] == chosen[j]);
                } else {
                    assert(now_chosen[i] == chosen[i]);
                    let a = choose|a: int| 0 <= a < n - 1 && #[trigger] files[a] == chosen[i];
                    assert(files[a].name != files[n - 1].name);
                }
            }
        }
    }
}

/// In a listing without shared names, the files of a given name are the
/// one file of that name, if there is one.
pub proof fn lemma_files_named(files: Seq<FileView>, n: nat, name: Seq<u8>)
    requires
        n <= files.len(),
        unique_names(files),
        has_file(files, name),
    ensures
        files_named(files, n, name) == (if name_index(file_names(files), name) < n {
            seq![files[name_index(file_names(files), name)]]
        } else {
            Seq::<FileView>::empty()
        }),
    decreases n,
{
    lemma_name_index(file_names(files), name);
    let p = name_index(file_names(files), name);
    assert(files[p].name == name);
    if n > 0 {
        lemma_files_named(files, (n - 1) as nat, name);
        if n - 1 < p {
            assert(file_names(files)[n - 1] != name);
        } else if n - 1 > p {
            assert(files[p].name != files[n - 1].name);
        } else {
            assert(Seq::<FileView>::empty().push(files[p]) =~= seq![files[p]]);
        }
    }
}

/// Whether the name of a file that is folded into an archive comes back
/// from the staged copy as it is: it is text, and no subdirectory of the
/// staged copy bears it.
pub open spec fn comes_back(name: Seq<u8>, staged_dirs: Seq<DirView>) -> bool {
    utf8_lossy(name) == name && !has_dir(staged_dirs, name)
}

/// Whether a directory of source files can be followed from one run to
/// the next: no file has the empty name, and the name of every file that
/// is folded into the archive comes back from the staged copy. Those are
/// the metadata files of the source files, and the source files that
/// themselves have the name of a metadata file.
pub open spec fn traceable(files: Seq<FileView>, staged_dirs: Seq<DirView>) -> bool {
    forall|i: int|
        0 <= i < files.len() ==> {
            &&& (#[trigger] files[i]).name.len() > 0
            &&& comes_back(sidecar_name(files[i].name), staged_dirs)
            &&& is_sidecar_name(files[i].name) ==> comes_back(files[i].name, staged_dirs)
        }
}

/// The staged copy of a checkpoint directory holds, for every file that
/// the run before dealt with, the record that this run stored for it.
///
/// `first` are the source files of the run before, `walked` is what its
/// walk wrote, `checkpoint` is the directory after folding, and `staged`
/// is the staged copy: of the checkpoint only its archive, unfolded.
pub proof fn lemma_staged_record(
    first: Seq<FileView>,
    before_first: Option<Seq<FileView>>,
    earlier: int,
    walked: Seq<FileView>,
    checkpoint: Seq<FileView>,
    staged_dirs: Seq<DirView>,
    staged: Seq<FileView>,
    archive_name: Seq<u8>,
    k: int,
)
    requires
        0 <= k < first.len(),
        traceable(first, staged_dirs),
        named_apart(first),
        !ends_with_meta(archive_name),
        backup_files(first, first.len(), before_first, earlier) == Ok::<
            Seq<FileView>,
            crate::record::MetaError,
        >(walked),
        folded(walked, checkpoint, archive_name),
        unfolded(
            files_named(checkpoint, checkpoint.len(), archive_name),
            staged_dirs,
            staged,
            archive_name,
        ),
    ensures
        file_content(staged, sidecar_name(first[k].name)) == Some(
            serialized(captured(first[k].content, earlier)),
        ),
{
    let side = sidecar_name(first[k].name);
    let meta = serialized(captured(first[k].content, earlier));
    lemma_sidecar_name_is_sidecar(first[k].name);
    // The walk wrote the record, into a listing without shared names.
    lemma_file_outcome(first, first.len(), before_first, earlier, k);
    lemma_outputs_are_unique(first, first.len(), before_first, earlier);
    assert(file_content(walked, side) == Some(meta));
    // The name of a metadata file has something before its ending.
    assert(is_sidecar_name(side));
    // Folding packed it into the archive.
    let packed = meta_files_of(walked);
    assert(walked.take(walked.len() as int) =~= walked);
    lemma_meta_lookup(walked, walked.len(), side);
    lemma_selected_files(walked, walked.len(), true);
    assert(file_content(packed, side) == Some(meta));
    lemma_has_file(packed, side);
    assert(packed.len() > 0);
    let bytes = choose|bytes: Seq<u8>|
        #[trigger] zip_entries(bytes) == member_entries(packed) && checkpoint == with_archive(
            walked,
            archive_name,
            bytes,
        );
    let entries = zip_entries(bytes);
    // Every member is the metadata file of a source file: its name is
    // text, and no subdirectory of the staged copy bears it.
    assert forall|i: int| 0 <= i < packed.len() implies utf8_lossy((#[trigger] packed[i]).name)
        == packed[i].name && !has_dir(staged_dirs, packed[i].name) by {
        let j = choose|j: int| 0 <= j < walked.len() && #[trigger] walked[j] == packed[i];
        lemma_has_file(walked, packed[i].name);
        lemma_outputs_are_named(first, first.len(), before_first, earlier, packed[i].name);
        let s = choose|s: int|
            0 <= s < first.len() && (packed[i].name == (#[trigger] first[s]).name || packed[i].name
                == sidecar_name(first[s].name));
        assert(is_sidecar_name(packed[i].name));
        assert(comes_back(packed[i].name, staged_dirs));
    }
    assert(entries =~= Seq::new(packed.len(), |i: int| (packed[i].name, packed[i].content)));
    assert(member_files(entries) =~= packed);
    assert(members_are_sidecars(entries)) by {
        assert forall|i: int| 0 <= i < entries.len() implies is_sidecar_name(
            (#[trigger] entries[i]).0,
        ) && utf8_lossy(entries[i].0) == entries[i].0 by {
            assert(entries[i].0 == packed[i].name);
        }
        assert forall|i: int, j: int| 0 <= i < j < entries.len() implies (
        #[trigger] entries[i]).0 != (#[trigger] entries[j]).0 by {
            assert(packed[i].name != packed[j].name);
        }
    }
    // The staged copy starts from the archive alone.
    let rest = other_files_of(walked);
    lemma_put_same(rest, archive_name, bytes);
    lemma_selected_files(walked, walked.len(), false);
    lemma_put_keeps_unique(rest, archive_name, bytes);
    lemma_files_named(checkpoint, checkpoint.len(), archive_name);
    lemma_name_index(file_names(checkpoint), archive_name);
    let alone = files_named(checkpoint, checkpoint.len(), archive_name);
    let archive = FileView { name: archive_name, content: bytes };
    assert(alone == seq![archive]);
    lemma_name_index_is(file_names(alone), archive_name, 0);
    assert(file_content(alone, archive_name) == Some(bytes));
    // Unfolding takes every member out and removes the archive.
    assert forall|i: int| 0 <= i < entries.len() implies !has_dir(
        staged_dirs,
        (#[trigger] entries[i]).0,
    ) by {
        assert(entries[i].0 == packed[i].name);
    }
    lemma_all_members_extracted(alone, staged_dirs, entries, entries.len());
    let all = alone + member_files(entries);
    assert(member_files(entries).take(entries.len() as int) =~= member_files(entries));
    lemma_name_index_is(file_names(all), archive_name, 0);
    assert(all.remove(0) =~= packed);
    assert(staged == packed);
}

/// Change detection from one run to the next, for a file whose bytes are
/// the same in both: the second run writes its metadata file and does not
/// copy its content.
pub proof fn lemma_second_run_skips_unchanged_file(
    first: Seq<FileView>,
    before_first: Option<Seq<FileView>>,
    earlier: int,
    walked: Seq<FileView>,
    checkpoint: Seq<FileView>,
    staged_dirs: Seq<DirView>,
    staged: Seq<FileView>,
    archive_name: Seq<u8>,
    second: Seq<FileView>,
    now: int,
    k: int,
    m: int,
)
    requires
        0 <= k < first.len(),
        0 <= m < second.len(),
        second[m] == first[k],
        first[k].content.len() <= u64::MAX,
        valid_timestamp(earlier),
        traceable(first, staged_dirs),
        named_apart(first),
        named_apart(second),
        !ends_with_meta(archive_name),
        backup_files(first, first.len(), before_first, earlier) == Ok::<
            Seq<FileView>,
            crate::record::MetaError,
        >(walked),
        folded(walked, checkpoint, archive_name),
        unfolded(
            files_named(checkpoint, checkpoint.len(), archive_name),
            staged_dirs,
            staged,
            archive_name,
        ),
        backup_files(second, second.len(), Some(staged), now) is Ok,
    ensures
        file_content(
            backup_files(second, second.len(), Some(staged), now)->Ok_0,
            sidecar_name(second[m].name),
        ) == Some(serialized(captured(second[m].content, now))),
        file_content(backup_files(second, second.len(), Some(staged), now)->Ok_0, second[m].name)
            is None,
{
    lemma_staged_record(
        first,
        before_first,
        earlier,
        walked,
        checkpoint,
        staged_dirs,
        staged,
        archive_name,
        k,
    );
    lemma_unchanged_file_is_not_copied(first[k].content, earlier, now);
    lemma_file_outcome(second, second.len(), Some(staged), now, m);
}

/// Change detection from one run to the next, for a file whose bytes
/// differ, also where the size is the same: the second run writes its
/// metadata file and copies its content, provided that the two contents
/// differ in size or in digest.
pub proof fn lemma_second_run_copies_changed_file(
    first: Seq<FileView>,
    before_first: Option<Seq<FileView>>,
    earlier: int,
    walked: Seq<FileView>,
    checkpoint: Seq<FileView>,
    staged_dirs: Seq<DirView>,
    staged: Seq<FileView>,
    archive_name: Seq<u8>,
    second: Seq<FileView>,
    now: int,
    k: int,
    m: int,
)
    requires
        0 <= k < first.len(),
        0 <= m < second.len(),
        second[m].name == first[k].name,
        first[k].content.len() != second[m].content.len() || xxh3_64(first[k].content)
            != xxh3_64(second[m].content),
        first[k].content.len() <= u64::MAX,
        valid_timestamp(earlier),
        traceable(first, staged_dirs),
        named_apart(first),
        named_apart(second),
        !ends_with_meta(archive_name),
        backup_files(first, first.len(), before_first, earlier) == Ok::<
            Seq<FileView>,
            crate::record::MetaError,
        >(walked),
        folded(walked, checkpoint, archive_name),
        unfolded(
            files_named(checkpoint, checkpoint.len(), archive_name),
            staged_dirs,
            staged,
            archive_name,
        ),
        backup_files(second, second.len(), Some(staged), now) is Ok,
    ensures
        file_content(
            backup_files(second, second.len(), Some(staged), now)->Ok_0,
            sidecar_name(second[m].name),
        ) == Some(serialized(captured(second[m].content, now))),
        file_content(backup_files(second, second.len(), Some(staged), now)->Ok_0, second[m].name)
            == Some(second[m].content),
{
    lemma_staged_record(
        first,
        before_first,
        earlier,
        walked,
        checkpoint,
        staged_dirs,
        staged,
        archive_name,
        k,
    );
    lemma_changed_file_is_copied(first[k].content, second[m].content, earlier, now);
    lemma_file_outcome(second, second.len(), Some(staged), now, m);
}

/// Whether two runs in a row can be compared at the top of their trees:
/// `checkpoint` is the checkpoint of the first run over `first`, `staged`
/// is a staged copy of it, and the second run over `second` against that
/// copy succeeds. The files at the top of the first source tree can be
/// followed into the staged copy.
pub open spec fn runs_in_a_row(
    first: DirView,
    first_path: Seq<Seq<u8>>,
    before_first: Option<DirView>,
    earlier: int,
    checkpoint: DirView,
    checkpoint_path: Seq<Seq<u8>>,
    staged: DirView,
    staging_path: Seq<Seq<u8>>,
    config: ConfigView,
    second: DirView,
    second_path: Seq<Seq<u8>>,
    now: int,
) -> bool {
    &&& valid_timestamp(earlier)
    &&& !ends_with_meta(config.archive_name)
    &&& checkpoint_of(
        first,
        first_path,
        before_first,
        checkpoint_path,
        config,
        earlier,
        checkpoint,
    )
    &&& staged_from(checkpoint, staged, staging_path, config)
    &&& backup_tree(second, second_path, Some(staged), config.ignore_dirs, now) is Ok
    &&& traceable(first.files, archives_only(checkpoint, config.archive_name).dirs)
}

/// The second of two runs in a row writes the metadata file of a file at
/// the top of the tree whose bytes are the same as in the first run, and
/// does not copy its content.
pub proof fn lemma_next_run_skips_unchanged_file(
    first: DirView,
    first_path: Seq<Seq<u8>>,
    before_first: Option<DirView>,
    earlier: int,
    checkpoint: DirView,
    checkpoint_path: Seq<Seq<u8>>,
    staged: DirView,
    staging_path: Seq<Seq<u8>>,
    config: ConfigView,
    second: DirView,
    second_path: Seq<Seq<u8>>,
    now: int,
    k: int,
    m: int,
)
    requires
        runs_in_a_row(
            first,
            first_path,
            before_first,
            earlier,
            checkpoint,
            checkpoint_path,
            staged,
            staging_path,
            config,
            second,
            second_path,
            now,
        ),
        0 <= k < first.files.len(),
        0 <= m < second.files.len(),
        second.files[m] == first.files[k],
        first.files[k].content.len() <= u64::MAX,
    ensures
        file_content(
            backup_tree(second, second_path, Some(staged), config.ignore_dirs, now)->Ok_0.files,
            sidecar_name(second.files[m].name),
        ) == Some(serialized(captured(second.files[m].content, now))),
        file_content(
            backup_tree(second, second_path, Some(staged), config.ignore_dirs, now)->Ok_0.files,
            second.files[m].name,
        ) is None,
{
    let walked = backup_tree(first, first_path, before_first, config.ignore_dirs, earlier)->Ok_0;
    lemma_second_run_skips_unchanged_file(
        first.files,
        previous_files(before_first),
        earlier,
        walked.files,
        checkpoint.files,
        archives_only(checkpoint, config.archive_name).dirs,
        staged.files,
        config.archive_name,
        second.files,
        now,
        k,
        m,
    );
}

/// The second of two runs in a row writes the metadata file of a file at
/// the top of the tree whose bytes differ from those in the first run, and
/// copies its content, provided that the two contents differ in size or in
/// digest.
pub proof fn lemma_next_run_copies_changed_file(
    first: DirView,
    first_path: Seq<Seq<u8>>,
    before_first: Option<DirView>,
    earlier: int,
    checkpoint: DirView,
    checkpoint_path: Seq<Seq<u8>>,
    staged: DirView,
    staging_path: Seq<Seq<u8>>,
    config: ConfigView,
    second: DirView,
    second_path: Seq<Seq<u8>>,
    now: int,
    k: int,
    m: int,
)
    requires
        runs_in_a_row(
            first,
            first_path,
            before_first,
            earlier,
            checkpoint,
            checkpoint_path,
            staged,
            staging_path,
            config,
            second,
            second_path,
            now,
        ),
        0 <= k < first.files.len(),
        0 <= m < second.files.len(),
        second.files[m].name == first.files[k].name,
        first.files[k].content.len() != second.files[m].content.len() || xxh3_64(
            first.files[k].content,
        ) != xxh3_64(second.files[m].content),
        first.files[k].content.len() <= u64::MAX,
    ensures
        file_content(
            backup_tree(second, second_path, Some(staged), config.ignore_dirs, now)->Ok_0.files,
            sidecar_name(second.files[m].name),
        ) == Some(serialized(captured(second.files[m].content, now))),
        file_content(
            backup_tree(second, second_path, Some(staged), config.ignore_dirs, now)->Ok_0.files,
            second.files[m].name,
        ) == Some(second.files[m].content),
{
    let walked = backup_tree(first, first_path, before_first, config.ignore_dirs, earlier)->Ok_0;
    lemma_second_run_copies_changed_file(
        first.files,
        previous_files(before_first),
        earlier,
        walked.files,
        checkpoint.files,
        archives_only(checkpoint, config.archive_name).dirs,
        staged.files,
        config.archive_name,
        second.files,
        now,
        k,
        m,
    );
}

/// A tree that holds only the archives of another has its directories,
/// one for one, each with only its archives.
pub proof fn lemma_archives_only_dirs(dirs: Seq<DirView>, n: nat, archive_name: Seq<u8>)
    requires
        n <= dirs.len(),
    ensures
        archives_only_dirs(dirs, n, archive_name).len() == n,
        forall|i: int|
            0 <= i < n ==> #[trigger] archives_only_dirs(dirs, n, archive_name)[i]
                == archives_only(dirs[i], archive_name),
    decreases n,
{
    if n > 0 {
        lemma_archives_only_dirs(dirs, (n - 1) as nat, archive_name);
    }
}

/// Where the walk over the first subdirectories succeeds, it succeeds in
/// each of them that is not left out.
pub proof fn lemma_walk_succeeds_below(
    dirs: Seq<DirView>,
    n: nat,
    path: Seq<Seq<u8>>,
    prev: Option<DirView>,
    ignore: Seq<Seq<Seq<u8>>>,
    now: int,
    m: int,
)
    requires
        0 <= m < n <= dirs.len(),
        backup_dirs(dirs, n, path, prev, ignore, now) is Ok,
        !is_ignored(path.push(dirs[m].name), ignore),
    ensures
        backup_tree(
            dirs[m],
            path.push(dirs[m].name),
            previous_subdir(prev, dirs[m].name),
            ignore,
            now,
        ) is Ok,
    decreases n,
{
    if m < n - 1 {
        lemma_walk_succeeds_below(dirs, (n - 1) as nat, path, prev, ignore, now, m);
    }
}

/// Two runs in a row can be compared in a subdirectory as at the top of
/// their trees. The subdirectory is the first of its name among those of
/// the first source tree that are not left out; it stands in the second
/// source tree too, and is left out neither there nor in the checkpoint
/// nor in the staged copy. So what holds of the files at the top of the
/// trees holds of the files in every such directory, all the way down.
///
/// `i` is the index of the subdirectory among those of the first source
/// tree that are not left out, which is its index in the checkpoint and in
/// the staged copy; `m` is its index in the second source tree.
pub proof fn lemma_runs_in_a_row_below(
    first: DirView,
    first_path: Seq<Seq<u8>>,
    before_first: Option<DirView>,
    earlier: int,
    checkpoint: DirView,
    checkpoint_path: Seq<Seq<u8>>,
    staged: DirView,
    staging_path: Seq<Seq<u8>>,
    config: ConfigView,
    second: DirView,
    second_path: Seq<Seq<u8>>,
    now: int,
    i: int,
    m: int,
)
    requires
        runs_in_a_row(
            first,
            first_path,
            before_first,
            earlier,
            checkpoint,
            checkpoint_path,
            staged,
            staging_path,
            config,
            second,
            second_path,
            now,
        ),
        0 <= i < kept_dirs(first.dirs, first.dirs.len(), first_path, config.ignore_dirs).len(),
        0 <= m < second.dirs.len(),
        second.dirs[m].name == kept_dirs(
            first.dirs,
            first.dirs.len(),
            first_path,
            config.ignore_dirs,
        )[i].name,
        forall|j: int|
            0 <= j < i ==> (#[trigger] kept_dirs(
                first.dirs,
                first.dirs.len(),
                first_path,
                config.ignore_dirs,
            )[j]).name != second.dirs[m].name,
        !is_ignored(second_path.push(second.dirs[m].name), config.ignore_dirs),
        !is_ignored(checkpoint_path.push(second.dirs[m].name), config.ignore_dirs),
        !is_ignored(staging_path.push(second.dirs[m].name), config.ignore_dirs),
        i < checkpoint.dirs.len() ==> traceable(
            kept_dirs(first.dirs, first.dirs.len(), first_path, config.ignore_dirs)[i].files,
            archives_only(checkpoint.dirs[i], config.archive_name).dirs,
        ),
    ensures
        i < checkpoint.dirs.len(),
        i < staged.dirs.len(),
        runs_in_a_row(
            kept_dirs(first.dirs, first.dirs.len(), first_path, config.ignore_dirs)[i],
            first_path.push(second.dirs[m].name),
            previous_subdir(before_first, second.dirs[m].name),
            earlier,
            checkpoint.dirs[i],
            checkpoint_path.push(second.dirs[m].name),
            staged.dirs[i],
            staging_path.push(second.dirs[m].name),
            config,
            second.dirs[m],
            second_path.push(second.dirs[m].name),
            now,
        ),
{
    let ignore = config.ignore_dirs;
    let name = second.dirs[m].name;
    let kept = kept_dirs(first.dirs, first.dirs.len(), first_path, ignore);
    let walked = backup_tree(first, first_path, before_first, ignore, earlier)->Ok_0;
    let stripped = archives_only(checkpoint, config.archive_name);
    // The walk of the first run mirrored the directories that are kept.
    lemma_mirrored_dirs(first.dirs, first.dirs.len(), first_path, before_first, ignore, earlier);
    assert(walked.dirs.len() == kept.len());
    // Folding and staging keep the directories and their names.
    lemma_archives_only_dirs(checkpoint.dirs, checkpoint.dirs.len(), config.archive_name);
    assert(checkpoint.dirs.len() == walked.dirs.len());
    assert(stripped.dirs.len() == checkpoint.dirs.len());
    assert(staged.dirs.len() == stripped.dirs.len());
    assert forall|j: int| 0 <= j < kept.len() implies (#[trigger] staged.dirs[j]).name
        == kept[j].name by {
        let mirror = walked.dirs[j];
        assert(mirror.name == kept[j].name);
        assert(walked.dirs[j] == mirror);
        assert(checkpoint.dirs[j].name == mirror.name) by {
            reveal_with_fuel(folded_tree, 2);
        }
        assert(stripped.dirs[j] == archives_only(checkpoint.dirs[j], config.archive_name));
        assert(stripped.dirs[j].name == checkpoint.dirs[j].name);
        assert(staged.dirs[j].name == stripped.dirs[j].name) by {
            reveal_with_fuel(unfolded_tree, 2);
        }
    }
    // The subdirectory itself, in the checkpoint and in the staged copy.
    let mirror = walked.dirs[i];
    assert(mirror.name == name);
    assert(folded_tree(
        mirror,
        checkpoint.dirs[i],
        checkpoint_path.push(name),
        ignore,
        config.archive_name,
    ));
    assert(stripped.dirs[i] == archives_only(checkpoint.dirs[i], config.archive_name));
    assert(checkpoint.dirs[i].name == name);
    assert(unfolded_tree(
        stripped.dirs[i],
        staged.dirs[i],
        staging_path.push(name),
        ignore,
        config.archive_name,
    ));
    // The second run finds the staged copy of the subdirectory.
    let names = dir_names(staged.dirs);
    assert forall|j: int| 0 <= j < i implies #[trigger] names[j] != name by {
        assert(staged.dirs[j].name == kept[j].name);
    }
    assert(names[i] == staged.dirs[i].name);
    lemma_name_index_is(names, name, i);
    assert(previous_subdir(Some(staged), name) == Some(staged.dirs[i]));
    lemma_walk_succeeds_below(
        second.dirs,
        second.dirs.len(),
        second_path,
        Some(staged),
        ignore,
        now,
        m,
    );
}

/// Folding keeps every record: a metadata file of a directory, whose name
/// is text, is a member of the archive of the folded directory, under its
/// name and with its bytes.
pub proof fn lemma_folded_record(
    walked: Seq<FileView>,
    checkpoint: Seq<FileView>,
    archive_name: Seq<u8>,
    name: Seq<u8>,
    record: Seq<u8>,
)
    requires
        folded(walked, checkpoint, archive_name),
        is_sidecar_name(name),
        utf8_lossy(name) == name,
        file_content(walked, name) == Some(record),
    ensures
        file_content(checkpoint, archive_name) is Some,
        exists|k: int|
            0 <= k < zip_entries(file_content(checkpoint, archive_name)->0).len()
                && #[trigger] zip_entries(file_content(checkpoint, archive_name)->0)[k] == (
                name,
                record,
            ),
{
    let packed = meta_files_of(walked);
    assert(walked.take(walked.len() as int) =~= walked);
    lemma_meta_lookup(walked, walked.len(), name);
    assert(file_content(packed, name) == Some(record));
    lemma_name_index(file_names(packed), name);
    let k = name_index(file_names(packed), name);
    assert(0 <= k < packed.len());
    assert(packed[k].name == name);
    assert(packed[k].content == record);
    let bytes = choose|bytes: Seq<u8>|
        #[trigger] zip_entries(bytes) == member_entries(packed) && checkpoint == with_archive(
            walked,
            archive_name,
            bytes,
        );
    lemma_put_same(other_files_of(walked), archive_name, bytes);
    assert(file_content(checkpoint, archive_name) == Some(bytes));
    assert(member_entries(packed)[k] == (name, record));
    assert(zip_entries(file_content(checkpoint, archive_name)->0)[k] == (name, record));
}

} // verus!

//! What holds of folding and unfolding: unfolding the archive of a
//! directory and folding the directory again gives an archive with the
//! same members.

use vstd::prelude::*;
use crate::archive::{has_long_name, member_entries, packs, utf8_lossy, zip_entries};
use crate::fold::{
    entry_step, extracted, fold_succeeds, folded, meta_files_of, other_files_of, select,
    unfolded, wanted, with_archive,
};
use crate::tree::{
    ends_with_meta, file_content, file_names, has_dir, has_file, is_sidecar_name,
    lemma_name_index, lemma_name_index_is, lemma_put_same, name_index, DirView, FileView,
};

verus! {

/// The members of an archive as files, each under its name as it is
/// stored.
pub open spec fn member_files(entries: Seq<(Seq<u8>, Seq<u8>)>) -> Seq<FileView> {
    Seq::new(entries.len(), |i: int| FileView { name: entries[i].0, content: entries[i].1 })
}

/// Whether the members of an archive are metadata files of one directory:
/// each has the name of a metadata file, which is text, and no two share a
/// name.
pub open spec fn members_are_sidecars(entries: Seq<(Seq<u8>, Seq<u8>)>) -> bool {
    &&& forall|i: int|
        0 <= i < entries.len() ==> is_sidecar_name((#[trigger] entries[i]).0) && utf8_lossy(
            entries[i].0,
        ) == entries[i].0
    &&& forall|i: int, j: int|
        0 <= i < j < entries.len() ==> (#[trigger] entries[i]).0 != (#[trigger] entries[j]).0
}

/// Whether a directory is at rest: its metadata is folded. It holds an
/// archive with at least one member, the members are metadata files, no
/// metadata file lies beside the archive, and no subdirectory bears the
/// name of a member.
pub open spec fn at_rest(files: Seq<FileView>, dirs: Seq<DirView>, archive_name: Seq<u8>) -> bool {
    &&& !ends_with_meta(archive_name)
    &&& file_content(files, archive_name) is Some
    &&& zip_entries(file_content(files, archive_name)->0).len() > 0
    &&& members_are_sidecars(zip_entries(file_content(files, archive_name)->0))
    &&& meta_files_of(files).len() == 0
    &&& forall|i: int|
        0 <= i < zip_entries(file_content(files, archive_name)->0).len() ==> !has_dir(
            dirs,
            (#[trigger] zip_entries(file_content(files, archive_name)->0)[i]).0,
        )
}

/// A listing holds a file of a name exactly if one of its files has that
/// name.
pub proof fn lemma_has_file(files: Seq<FileView>, name: Seq<u8>)
    ensures
        has_file(files, name) <==> exists|i: int|
            0 <= i < files.len() && (#[trigger] files[i]).name == name,
{
    let names = file_names(files);
    lemma_name_index(names, name);
    let p = name_index(names, name);
    if p < files.len() {
        assert(files[p].name == name);
    } else {
        assert forall|i: int| 0 <= i < files.len() implies (#[trigger] files[i]).name != name by {
            assert(names[i] != name);
        }
    }
}

/// The metadata files among the first `n` files are none exactly if none
/// of those files has the name of a metadata file.
pub proof fn lemma_no_meta_files(files: Seq<FileView>, n: nat)
    requires
        n <= files.len(),
    ensures
        select(files, n, true).len() == 0 <==> forall|i: int|
            0 <= i < n ==> !is_sidecar_name((#[trigger] files[i]).name),
    decreases n,
{
    if n > 0 {
        lemma_no_meta_files(files, (n - 1) as nat);
        if is_sidecar_name(files[n - 1].name) {
            assert(select(files, n, true).len() > 0);
        }
    }
}

/// Where the files after the first `head` of a listing are all metadata
/// files and those before are not, the metadata files of the listing are
/// the files after the first `head`.
pub proof fn lemma_meta_files_at_end(files: Seq<FileView>, head: nat, n: nat)
    requires
        head <= n <= files.len(),
        forall|i: int| 0 <= i < head ==> !is_sidecar_name((#[trigger] files[i]).name),
        forall|i: int| head <= i < files.len() ==> is_sidecar_name((#[trigger] files[i]).name),
    ensures
        select(files, n, true) == files.subrange(head as int, n as int),
    decreases n - head,
{
    if n == head {
        lemma_no_meta_files(files, head);
        assert(select(files, n, true) =~= files.subrange(head as int, n as int));
    } else {
        lemma_meta_files_at_end(files, head, (n - 1) as nat);
        assert(is_sidecar_name(files[n - 1].name));
        assert(select(files, n, true) =~= files.subrange(head as int, n as int));
    }
}

/// Out of an archive whose members are metadata files with fresh names,
/// every member is taken: after `n` members the directory holds its files
/// and, behind them, the first `n` members.
pub proof fn lemma_all_members_extracted(
    files: Seq<FileView>,
    dirs: Seq<DirView>,
    entries: Seq<(Seq<u8>, Seq<u8>)>,
    n: nat,
)
    requires
        n <= entries.len(),
        members_are_sidecars(entries),
        forall|i: int| 0 <= i < files.len() ==> !is_sidecar_name((#[trigger] files[i]).name),
        forall|i: int| 0 <= i < entries.len() ==> !has_dir(dirs, (#[trigger] entries[i]).0),
    ensures
        extracted(files, dirs, entries, n) == files + member_files(entries).take(n as int),
    decreases n,
{
    if n == 0 {
        assert(files + member_files(entries).take(0) =~= files);
    } else {
        lemma_all_members_extracted(files, dirs, entries, (n - 1) as nat);
        let so_far = files + member_files(entries).take(n - 1);
        let entry = entries[n - 1];
        let name = entry.0;
        assert(is_sidecar_name(name) && utf8_lossy(name) == name);
        lemma_has_file(so_far, name);
        if has_file(so_far, name) {
            let i = choose|i: int| 0 <= i < so_far.len() && (#[trigger] so_far[i]).name == name;
            if i < files.len() {
                assert(so_far[i] == files[i]);
                assert(!is_sidecar_name(files[i].name));
            } else {
                let k = i - files.len();
                assert(so_far[i] == member_files(entries)[k]);
                assert(entries[k].0 != entries[n - 1].0);
            }
        }
        assert(wanted(so_far, dirs, name));
        assert(entry_step(so_far, dirs, entry) =~= files + member_files(entries).take(n as int));
    }
}

/// After the archive of a directory at rest was unfolded, the metadata
/// files of the directory are the members of the archive, in their order.
pub proof fn lemma_unfolded_members(
    before: Seq<FileView>,
    dirs: Seq<DirView>,
    between: Seq<FileView>,
    archive_name: Seq<u8>,
)
    requires
        at_rest(before, dirs, archive_name),
        unfolded(before, dirs, between, archive_name),
    ensures
        meta_files_of(between) == member_files(
            zip_entries(file_content(before, archive_name)->0),
        ),
        member_entries(meta_files_of(between)) == zip_entries(
            file_content(before, archive_name)->0,
        ),
{
    let entries = zip_entries(file_content(before, archive_name)->0);
    let members = member_files(entries);
    lemma_no_meta_files(before, before.len());
    lemma_all_members_extracted(before, dirs, entries, entries.len());
    let all = before + members;
    assert(members.take(entries.len() as int) =~= members);
    assert(extracted(before, dirs, entries, entries.len()) == all);
    // The archive is the first file of its name, in the directory as it
    // was and with the members behind it.
    let names = file_names(before);
    lemma_name_index(names, archive_name);
    let p = name_index(names, archive_name);
    assert forall|i: int| 0 <= i < p implies #[trigger] file_names(all)[i] != archive_name by {
        assert(names[i] != archive_name);
    }
    assert(file_names(all)[p] == names[p]);
    lemma_name_index_is(file_names(all), archive_name, p);
    assert(between == all.remove(p));
    let head = (before.len() - 1) as nat;
    assert forall|i: int| 0 <= i < head implies !is_sidecar_name((#[trigger] between[i]).name) by {
        if i < p {
            assert(between[i] == before[i]);
        } else {
            assert(between[i] == before[i + 1]);
        }
    }
    assert forall|i: int| head <= i < between.len() implies is_sidecar_name(
        (#[trigger] between[i]).name,
    ) by {
        assert(between[i] == members[i - head]);
        assert(is_sidecar_name(entries[i - head].0));
    }
    lemma_meta_files_at_end(between, head, between.len());
    assert(between.subrange(head as int, between.len() as int) =~= members);
    assert(meta_files_of(between) == members);
    assert(member_entries(members) =~= entries) by {
        assert forall|i: int| 0 <= i < entries.len() implies member_entries(members)[i]
            == entries[i] by {
            assert(utf8_lossy(entries[i].0) == entries[i].0);
        }
    }
}

/// After the archive of a directory at rest was unfolded, folding the
/// directory again succeeds exactly if no member has a name that is too
/// long for an archive and the `zip` crate packs the members again.
pub proof fn lemma_fold_after_unfold_succeeds(
    before: Seq<FileView>,
    dirs: Seq<DirView>,
    between: Seq<FileView>,
    archive_name: Seq<u8>,
)
    requires
        at_rest(before, dirs, archive_name),
        unfolded(before, dirs, between, archive_name),
    ensures
        fold_succeeds(between) <==> !has_long_name(
            member_files(zip_entries(file_content(before, archive_name)->0)),
        ) && packs(zip_entries(file_content(before, archive_name)->0)),
{
    lemma_unfolded_members(before, dirs, between, archive_name);
}

/// Unfolding the archive of a directory at rest and folding the directory
/// again gives an archive with the same members, names and bytes, in the
/// same order.
pub proof fn lemma_fold_restores_archive(
    before: Seq<FileView>,
    dirs: Seq<DirView>,
    between: Seq<FileView>,
    after: Seq<FileView>,
    archive_name: Seq<u8>,
)
    requires
        at_rest(before, dirs, archive_name),
        unfolded(before, dirs, between, archive_name),
        folded(between, after, archive_name),
    ensures
        file_content(after, archive_name) is Some,
        zip_entries(file_content(after, archive_name)->0) == zip_entries(
            file_content(before, archive_name)->0,
        ),
        meta_files_of(after).len() == 0,
{
    lemma_unfolded_members(before, dirs, between, archive_name);
    let bytes = choose|bytes: Seq<u8>|
        #[trigger] zip_entries(bytes) == member_entries(meta_files_of(between)) && after
            == with_archive(between, archive_name, bytes);
    lemma_put_same(other_files_of(between), archive_name, bytes);
    lemma_no_loose_metadata(between, archive_name, bytes);
}

/// A directory that was folded holds no loose metadata file.
pub proof fn lemma_no_loose_metadata(files: Seq<FileView>, archive_name: Seq<u8>, bytes: Seq<u8>)
    requires
        !ends_with_meta(archive_name),
    ensures
        meta_files_of(with_archive(files, archive_name, bytes)).len() == 0,
{
    let rest = other_files_of(files);
    let after = with_archive(files, archive_name, bytes);
    lemma_others_are_no_metadata(files, files.len());
    lemma_name_index(file_names(rest), archive_name);
    assert forall|i: int| 0 <= i < after.len() implies !is_sidecar_name(
        (#[trigger] after[i]).name,
    ) by {
        if i < rest.len() && after[i] == rest[i] {
        } else {
            assert(after[i].name == archive_name);
        }
    }
    lemma_no_meta_files(after, after.len());
}

/// None of the files of a listing that are chosen for being no metadata
/// files has the name of a metadata file.
pub proof fn lemma_others_are_no_metadata(files: Seq<FileView>, n: nat)
    requires
        n <= files.len(),
    ensures
        forall|i: int|
            0 <= i < select(files, n, false).len() ==> !is_sidecar_name(
                (#[trigger] select(files, n, false)[i]).name,
            ),
    decreases n,
{
    if n > 0 {
        lemma_others_are_no_metadata(files, (n - 1) as nat);
        let chosen = select(files, (n - 1) as nat, false);
        let now_chosen = select(files, n, false);
        assert forall|i: int| 0 <= i < now_chosen.len() implies !is_sidecar_name(
            (#[trigger] now_chosen[i]).name,
        ) by {
            if i < chosen.len() {
                assert(now_chosen[i] == chosen[i]);
            }
        }
    }
}

} // verus!

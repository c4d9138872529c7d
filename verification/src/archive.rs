//! ZIP archives held in memory. Writing and reading them is the work of
//! the `zip` crate; what this module proves rests on the contracts that it
//! states for the calls into that crate.

use std::io::Read;
use std::io::Write;
use vstd::prelude::*;
use vstd::utf8::valid_utf8;
use crate::tree::{files_view, FileNode, FileView};

verus! {

/// An in-memory reader or writer of `std`, opaque to the verifier.
#[verifier::external_type_specification]
#[verifier::external_body]
#[verifier::reject_recursive_types(T)]
pub struct ExCursor<T>(std::io::Cursor<T>);

/// An archive of the `zip` crate that was opened for reading, opaque to
/// the verifier.
#[verifier::external_type_specification]
#[verifier::external_body]
#[verifier::reject_recursive_types(R)]
pub struct ExZipArchive<R>(zip::ZipArchive<R>);

/// The error of the `zip` crate, opaque to the verifier.
#[verifier::external_type_specification]
#[verifier::external_body]
pub struct ExZipError(zip::result::ZipError);

/// An archive that is being written into memory. It holds a `ZipWriter`
/// of the `zip` crate, whose declaration the verifier does not take.
#[verifier::external_body]
pub struct ArchiveWriter {
    inner: zip::ZipWriter<std::io::Cursor<Vec<u8>>>,
}

/// Why an archive could not be written or read.
#[derive(Debug, Clone, Copy, PartialEq, Eq)]
pub enum ArchiveError {
    /// Reading or writing the bytes failed.
    Io,
    /// The bytes are no well-formed archive.
    InvalidArchive,
    /// The archive uses a feature that is not supported.
    UnsupportedArchive,
    /// The archive holds no such member.
    FileNotFound,
    /// A member is encrypted and the password is wrong.
    InvalidPassword,
    /// Any other failure of the `zip` crate.
    Other,
    /// The name of a member is longer than an archive can hold.
    NameTooLong,
}

/// The largest number of bytes that the name of a member can have.
pub const MAX_NAME_LENGTH: usize = 65535;

/// The members that reading the archive `bytes` gives, in the order of the
/// archive: each with its name as it is stored and with its data.
pub uninterp spec fn zip_entries(bytes: Seq<u8>) -> Seq<(Seq<u8>, Seq<u8>)>;

/// Whether the bytes open as an archive.
pub uninterp spec fn archive_opens(bytes: Seq<u8>) -> bool;

/// Whether the name of the member at `index` of the archive `bytes` can be
/// read.
pub uninterp spec fn name_read(bytes: Seq<u8>, index: int) -> bool;

/// Whether the data of the member at `index` of the archive `bytes` can
/// be read.
pub uninterp spec fn data_read(bytes: Seq<u8>, index: int) -> bool;

/// The bytes that an archive was opened from.
pub uninterp spec fn archive_source(archive: zip::ZipArchive<std::io::Cursor<Vec<u8>>>) -> Seq<u8>;

/// The members that were written into an archive so far.
pub uninterp spec fn writer_entries(writer: ArchiveWriter) -> Seq<(Seq<u8>, Seq<u8>)>;

/// Whether a member called `name` can be started in an archive into which
/// `entries` were written.
pub uninterp spec fn start_accepted(entries: Seq<(Seq<u8>, Seq<u8>)>, name: Seq<u8>) -> bool;

/// Whether `data` can be written into an archive into which `entries`
/// were written, the last of them being the member that is open.
pub uninterp spec fn write_accepted(entries: Seq<(Seq<u8>, Seq<u8>)>, data: Seq<u8>) -> bool;

/// Whether an archive into which `entries` were written can be finished.
pub uninterp spec fn finish_accepted(entries: Seq<(Seq<u8>, Seq<u8>)>) -> bool;

/// The text that `bytes` stands for, as UTF-8, with a replacement
/// character for every part of it that is not well-formed UTF-8.
pub uninterp spec fn utf8_lossy(bytes: Seq<u8>) -> Seq<u8>;

/// Trusted: `String::from_utf8_lossy`. The contract gives the text a name
/// and claims that it is well-formed UTF-8, and the bytes themselves where
/// they are well-formed UTF-8 already.
#[verifier::external_body]
pub(crate) fn lossy_text(bytes: &[u8]) -> (text: Vec<u8>)
    ensures
        text@ == utf8_lossy(bytes@),
        valid_utf8(text@),
        valid_utf8(bytes@) ==> text@ == bytes@,
{
    String::from_utf8_lossy(bytes).into_owned().into_bytes()
}

/// Trusted: tells the variants of `zip::result::ZipError` apart. The
/// contract claims only that none of them is taken for a name that is too
/// long, which is an error of this module.
#[verifier::external_body]
pub(crate) fn error_kind(error: zip::result::ZipError) -> (kind: ArchiveError)
    ensures
        kind != ArchiveError::NameTooLong,
{
    match error {
        zip::result::ZipError::Io(_) => ArchiveError::Io,
        zip::result::ZipError::InvalidArchive(_) => ArchiveError::InvalidArchive,
        zip::result::ZipError::UnsupportedArchive(_) => ArchiveError::UnsupportedArchive,
        zip::result::ZipError::FileNotFound => ArchiveError::FileNotFound,
        zip::result::ZipError::InvalidPassword => ArchiveError::InvalidPassword,
        _ => ArchiveError::Other,
    }
}

/// Trusted: `ZipWriter::new` on an empty buffer. The contract claims that
/// nothing has been written yet.
#[verifier::external_body]
pub(crate) fn writer_new() -> (writer: ArchiveWriter)
    ensures
        writer_entries(writer) == Seq::<(Seq<u8>, Seq<u8>)>::empty(),
{
    ArchiveWriter { inner: zip::ZipWriter::new(std::io::Cursor::new(Vec::new())) }
}

/// Trusted: `ZipWriter::start_file` with the default options. The writer
/// writes to memory, so whether the call succeeds depends on what was
/// written before and on the name alone: the contract gives that a name.
/// It claims that on success a member of that name, without data so far,
/// stands behind those written before. A writer on which the call failed
/// is given up. Names of more than `MAX_NAME_LENGTH` bytes are kept out,
/// on which `start_file` panics.
#[verifier::external_body]
pub(crate) fn writer_start_file(writer: ArchiveWriter, name: &[u8]) -> (r: Result<
    ArchiveWriter,
    zip::result::ZipError,
>)
    requires
        valid_utf8(name@),
        name@.len() <= MAX_NAME_LENGTH,
    ensures
        r is Ok <==> start_accepted(writer_entries(writer), name@),
        r matches Ok(started) ==> writer_entries(started) == writer_entries(writer).push(
            (name@, Seq::<u8>::empty()),
        ),
{
    let mut writer = writer;
    let options = zip::write::FileOptions::<()>::default();
    writer.inner.start_file(String::from_utf8_lossy(name), options)?;
    Ok(writer)
}

/// Trusted: `write_all` on a `ZipWriter`. Whether the call succeeds
/// depends on what was written before and on the data alone: the contract
/// gives that a name. It claims that on success, where a member was
/// started before, the data is added to the data of the member started
/// last. A writer on which the call failed is given up.
#[verifier::external_body]
pub(crate) fn writer_write_all(writer: ArchiveWriter, data: &[u8]) -> (r: Result<
    ArchiveWriter,
    zip::result::ZipError,
>)
    ensures
        r is Ok <==> write_accepted(writer_entries(writer), data@),
        r matches Ok(written) ==> writer_entries(writer).len() > 0 ==> writer_entries(written)
            == writer_entries(writer).drop_last().push(
            (writer_entries(writer).last().0, writer_entries(writer).last().1 + data@),
        ),
{
    let mut writer = writer;
    writer.inner.write_all(data).map_err(zip::result::ZipError::Io)?;
    Ok(writer)
}

/// Trusted: `ZipWriter::finish`. Whether the call succeeds depends on
/// what was written alone: the contract gives that a name. It claims that
/// on success the bytes are an archive which, when read, gives the members
/// that were written, in the order they were written in.
#[verifier::external_body]
pub(crate) fn writer_finish(writer: ArchiveWriter) -> (r: Result<Vec<u8>, zip::result::ZipError>)
    ensures
        r is Ok <==> finish_accepted(writer_entries(writer)),
        r matches Ok(bytes) ==> zip_entries(bytes@) == writer_entries(writer),
{
    Ok(writer.inner.finish()?.into_inner())
}

/// Trusted: `ZipArchive::new` on bytes in memory. Whether the call
/// succeeds depends on the bytes alone: the contract gives that a name. It
/// claims that on success the archive stands for those bytes.
#[verifier::external_body]
pub(crate) fn archive_open(bytes: Vec<u8>) -> (r: Result<
    zip::ZipArchive<std::io::Cursor<Vec<u8>>>,
    zip::result::ZipError,
>)
    ensures
        r is Ok <==> archive_opens(bytes@),
        r matches Ok(archive) ==> archive_source(archive) == bytes@,
{
    zip::ZipArchive::new(std::io::Cursor::new(bytes))
}

/// Trusted: `ZipArchive::len`. The contract claims that it is the number
/// of members that reading the archive gives.
#[verifier::external_body]
pub(crate) fn archive_len(archive: &zip::ZipArchive<std::io::Cursor<Vec<u8>>>) -> (n: usize)
    ensures
        n == zip_entries(archive_source(*archive)).len(),
{
    archive.len()
}

/// Trusted: `ZipArchive::by_index`, then `ZipFile::name_raw`. Whether the
/// call succeeds depends on the bytes of the archive and on the index
/// alone: the contract gives that a name. It claims that the archive stays
/// what it is, and that on success the index is that of a member and the
/// bytes are its name as it is stored.
#[verifier::external_body]
pub(crate) fn archive_entry_name(
    archive: &mut zip::ZipArchive<std::io::Cursor<Vec<u8>>>,
    index: usize,
) -> (r: Result<Vec<u8>, zip::result::ZipError>)
    ensures
        archive_source(*final(archive)) == archive_source(*old(archive)),
        r is Ok <==> name_read(archive_source(*old(archive)), index as int),
        r matches Ok(name) ==> index < zip_entries(archive_source(*old(archive))).len() && name@
            == zip_entries(archive_source(*old(archive)))[index as int].0,
{
    Ok(archive.by_index(index)?.name_raw().to_vec())
}

/// Trusted: `ZipArchive::by_index`, then `read_to_end` on the member.
/// Whether the call succeeds depends on the bytes of the archive and on
/// the index alone: the contract gives that a name. It claims that the
/// archive stays what it is, and that on success the index is that of a
/// member and the bytes are its data.
#[verifier::external_body]
pub(crate) fn archive_entry_data(
    archive: &mut zip::ZipArchive<std::io::Cursor<Vec<u8>>>,
    index: usize,
) -> (r: Result<Vec<u8>, zip::result::ZipError>)
    ensures
        archive_source(*final(archive)) == archive_source(*old(archive)),
        r is Ok <==> data_read(archive_source(*old(archive)), index as int),
        r matches Ok(data) ==> index < zip_entries(archive_source(*old(archive))).len() && data@
            == zip_entries(archive_source(*old(archive)))[index as int].1,
{
    let mut member = archive.by_index(index)?;
    let mut data: Vec<u8> = Vec::new();
    member.read_to_end(&mut data)?;
    Ok(data)
}

/// The members that an archive of the given files holds: each file under
/// its name as text, with its content.
pub open spec fn member_entries(files: Seq<FileView>) -> Seq<(Seq<u8>, Seq<u8>)> {
    Seq::new(files.len(), |i: int| (utf8_lossy(files[i].name), files[i].content))
}

/// Whether the name of one of the files is too long for a member of an
/// archive.
pub open spec fn has_long_name(files: Seq<FileView>) -> bool {
    exists|i: int|
        0 <= i < files.len() && utf8_lossy((#[trigger] files[i]).name).len() > MAX_NAME_LENGTH
}

/// Whether the member at `index` can be written behind those before it:
/// it can be started, and its data can be written into it.
pub open spec fn member_packs(entries: Seq<(Seq<u8>, Seq<u8>)>, index: int) -> bool {
    &&& start_accepted(entries.take(index), entries[index].0)
    &&& write_accepted(
        entries.take(index).push((entries[index].0, Seq::<u8>::empty())),
        entries[index].1,
    )
}

/// Whether the members can be packed into an archive: each can be written
/// behind those before it, and the archive can be finished.
pub open spec fn packs(entries: Seq<(Seq<u8>, Seq<u8>)>) -> bool {
    &&& forall|i: int| 0 <= i < entries.len() ==> #[trigger] member_packs(entries, i)
    &&& finish_accepted(entries)
}

/// Packs the given files into one archive, each as a member under its own
/// name as text. Where a name is too long for an archive, nothing is
/// packed. Otherwise the files are packed exactly if the `zip` crate takes
/// each member and finishes the archive, and the archive that comes back
/// holds exactly the given files when it is read.
pub fn create_zip(meta_files: &Vec<FileNode>) -> (r: Result<Vec<u8>, ArchiveError>)
    ensures
        r == Err::<Vec<u8>, ArchiveError>(ArchiveError::NameTooLong) <==> has_long_name(
            files_view(meta_files@),
        ),
        r is Ok <==> !has_long_name(files_view(meta_files@)) && packs(
            member_entries(files_view(meta_files@)),
        ),
        r matches Ok(bytes) ==> zip_entries(bytes@) == member_entries(files_view(meta_files@)),
{
    let ghost files = files_view(meta_files@);
    let ghost entries = member_entries(files);
    let mut names: Vec<Vec<u8>> = Vec::new();
    let mut k: usize = 0;
    while k < meta_files.len()
        invariant
            k <= meta_files.len(),
            names.len() == k,
            files == files_view(meta_files@),
            forall|j: int|
                0 <= j < k ==> (#[trigger] names@[j])@ == utf8_lossy(files[j].name)
                    && valid_utf8(names@[j]@) && names@[j]@.len() <= MAX_NAME_LENGTH,
        decreases meta_files.len() - k,
    {
        let file = &meta_files[k];
        assert(files[k as int] == file@);
        let name = lossy_text(file.name.as_slice());
        if name.len() > MAX_NAME_LENGTH {
            return Err(ArchiveError::NameTooLong);
        }
        names.push(name);
        k += 1;
    }
    assert(!has_long_name(files)) by {
        assert forall|j: int| 0 <= j < files.len() implies utf8_lossy((#[trigger] files[j]).name).len()
            <= MAX_NAME_LENGTH by {
            assert(names@[j]@ == utf8_lossy(files[j].name));
        }
    }
    let mut writer = writer_new();
    let mut i: usize = 0;
    assert(entries.take(0) =~= Seq::<(Seq<u8>, Seq<u8>)>::empty());
    while i < meta_files.len()
        invariant
            i <= meta_files.len(),
            names.len() == meta_files.len(),
            files == files_view(meta_files@),
            entries == member_entries(files),
            !has_long_name(files),
            forall|j: int|
                0 <= j < names.len() ==> (#[trigger] names@[j])@ == utf8_lossy(files[j].name)
                    && valid_utf8(names@[j]@) && names@[j]@.len() <= MAX_NAME_LENGTH,
            writer_entries(writer) == entries.take(i as int),
            forall|j: int| 0 <= j < i ==> #[trigger] member_packs(entries, j),
        decreases meta_files.len() - i,
    {
        let file = &meta_files[i];
        assert(files[i as int] == file@);
        assert(entries[i as int] == (names@[i as int]@, file.content@));
        let ghost before = writer_entries(writer);
        writer = match writer_start_file(writer, names[i].as_slice()) {
            Ok(started) => started,
            Err(e) => {
                assert(!member_packs(entries, i as int));
                return Err(error_kind(e));
            },
        };
        writer = match writer_write_all(writer, file.content.as_slice()) {
            Ok(written) => written,
            Err(e) => {
                assert(!member_packs(entries, i as int));
                return Err(error_kind(e));
            },
        };
        proof {
            let started = before.push((names@[i as int]@, Seq::<u8>::empty()));
            assert(started.drop_last() =~= before);
            assert(Seq::<u8>::empty() + file.content@ =~= file.content@);
            assert(writer_entries(writer) =~= entries.take(i + 1));
            assert(member_packs(entries, i as int));
        }
        i += 1;
    }
    assert(entries.take(i as int) =~= entries);
    match writer_finish(writer) {
        Ok(bytes) => Ok(bytes),
        Err(e) => Err(error_kind(e)),
    }
}

} // verus!

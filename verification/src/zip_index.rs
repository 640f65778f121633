//! The index of a zip archive, as the `zip` crate reads it.

use vstd::prelude::*;

verus! {

/// The compressed size up to which an archive is opened.
pub const MAX_ENTRY_BYTES: u64 = 0x400_0000;

/// `std::io::Cursor`, which is carried and not looked into.
#[verifier::external_type_specification]
#[verifier::external_body]
#[verifier::reject_recursive_types(T)]
pub struct ExCursor<T>(std::io::Cursor<T>);

/// `zip::ZipArchive`, which is carried and not looked into.
#[verifier::external_type_specification]
#[verifier::external_body]
#[verifier::reject_recursive_types(R)]
pub struct ExZipArchive<R>(zip::ZipArchive<R>);

/// What the index says of one entry.
pub struct ZipEntry {
    /// The decoded name.
    pub name: Seq<char>,
    /// The size of the decompressed content.
    pub size: u64,
    /// Whether it is a file, rather than a directory or a symbolic link.
    pub file: bool,
    /// The checksum of the decompressed content.
    pub crc: u32,
}

/// The index of an archive.
pub struct ZipIndex {
    /// Where the central directory starts.
    pub start: u64,
    /// The entries, in the order of the index.
    pub entries: Seq<ZipEntry>,
}

/// The index that `ZipArchive::new` reads from an archive's bytes, if it accepts them.
pub uninterp spec fn zip_index(data: Seq<u8>) -> Option<ZipIndex>;

/// The bytes that an archive was opened on.
pub uninterp spec fn zip_source(archive: zip::ZipArchive<std::io::Cursor<&[u8]>>) -> Seq<u8>;

/// Whether `ZipArchive::by_index_raw` finds the local header of an entry.
pub uninterp spec fn zip_located(data: Seq<u8>, index: nat) -> bool;

/// Whether `ZipArchive::by_index` can open the content of an entry.
pub uninterp spec fn zip_opens(data: Seq<u8>, index: nat) -> bool;

/// The first bytes of an entry's decompressed content, at most `limit`, if they
/// can be read.
pub uninterp spec fn zip_content(data: Seq<u8>, index: nat, limit: u64) -> Option<Seq<u8>>;

/// The register of a CRC-32 after `n` more bits, of which the lowest comes first.
pub open spec fn crc_shifted(register: u32, n: nat) -> u32
    decreases n,
{
    if n == 0 {
        register
    } else if register & 1 == 1 {
        crc_shifted((register >> 1) ^ 0xedb8_8320, (n - 1) as nat)
    } else {
        crc_shifted(register >> 1, (n - 1) as nat)
    }
}

/// The register of a CRC-32 after `content`.
pub open spec fn crc_register(content: Seq<u8>) -> u32
    decreases content.len(),
{
    if content.len() == 0 {
        0xffff_ffff
    } else {
        crc_shifted(crc_register(content.drop_last()) ^ content.last() as u32, 8)
    }
}

/// The CRC-32 checksum of `content`.
pub open spec fn crc32(content: Seq<u8>) -> u32 {
    crc_register(content) ^ 0xffff_ffff
}

/// The entries of an opened archive.
pub open spec fn zip_entries(data: Seq<u8>) -> Seq<ZipEntry> {
    zip_index(data)->0.entries
}

/// `ZipArchive::new` on a cursor over `data`. It succeeds exactly where the
/// bytes have an index, and keeps the bytes; otherwise it says why in words of
/// its own, which are not stated.
#[verifier::external_body]
pub(crate) fn open_zip<'a>(data: &'a [u8]) -> (archive: Result<
    zip::ZipArchive<std::io::Cursor<&'a [u8]>>,
    String,
>)
    requires
        data@.len() <= MAX_ENTRY_BYTES,
    ensures
        archive is Ok == zip_index(data@) is Some,
        archive is Ok ==> zip_source(archive->Ok_0) == data@,
{
    zip::ZipArchive::new(std::io::Cursor::new(data)).map_err(|error| error.to_string())
}

/// `ZipArchive::len`: the number of entries in the index.
#[verifier::external_body]
pub(crate) fn zip_len(archive: &zip::ZipArchive<std::io::Cursor<&[u8]>>) -> (len: usize)
    ensures
        len == zip_entries(zip_source(*archive)).len(),
{
    archive.len()
}

/// `ZipArchive::central_directory_start`: where the central directory starts.
#[verifier::external_body]
pub(crate) fn zip_start(archive: &zip::ZipArchive<std::io::Cursor<&[u8]>>) -> (start: u64)
    ensures
        start == zip_index(zip_source(*archive))->0.start,
{
    archive.central_directory_start()
}

/// `ZipArchive::file_names`: the decoded names of all entries, in the order of
/// the index.
#[verifier::external_body]
pub(crate) fn zip_names(archive: &zip::ZipArchive<std::io::Cursor<&[u8]>>) -> (names: Vec<String>)
    ensures
        names@.len() == zip_entries(zip_source(*archive)).len(),
        forall|i: int|
            0 <= i < names@.len() ==> #[trigger] names@[i]@ == zip_entries(
                zip_source(*archive),
            )[i].name,
{
    archive.file_names().map(|name| name.to_string()).collect()
}

/// `ZipArchive::by_index_raw`: the name and the size of one entry, once its
/// local header was found. The words of a failure are not stated.
#[verifier::external_body]
pub(crate) fn zip_locate(
    archive: &mut zip::ZipArchive<std::io::Cursor<&[u8]>>,
    index: usize,
) -> (entry: Result<(String, u64), String>)
    requires
        index < zip_entries(zip_source(*old(archive))).len(),
    ensures
        zip_source(*final(archive)) == zip_source(*old(archive)),
        entry is Ok == zip_located(zip_source(*old(archive)), index as nat),
        entry is Ok ==> entry->Ok_0.0@ == zip_entries(zip_source(*old(archive)))[index as int].name,
        entry is Ok ==> entry->Ok_0.1 == zip_entries(zip_source(*old(archive)))[index as int].size,
{
    let file = archive.by_index_raw(index).map_err(|error| error.to_string())?;
    Ok((file.name().to_string(), file.size()))
}

/// `ZipArchive::by_index`: whether one entry is a file, and its size, once its
/// content was opened. The words of a failure are not stated.
#[verifier::external_body]
pub(crate) fn zip_open(
    archive: &mut zip::ZipArchive<std::io::Cursor<&[u8]>>,
    index: usize,
) -> (entry: Result<(bool, u64), String>)
    requires
        index < zip_entries(zip_source(*old(archive))).len(),
    ensures
        zip_source(*final(archive)) == zip_source(*old(archive)),
        entry is Ok == zip_opens(zip_source(*old(archive)), index as nat),
        entry is Ok ==> entry->Ok_0.0 == zip_entries(zip_source(*old(archive)))[index as int].file,
        entry is Ok ==> entry->Ok_0.1 == zip_entries(zip_source(*old(archive)))[index as int].size,
    no_unwind
{
    let file = archive.by_index(index).map_err(|error| error.to_string())?;
    Ok((file.is_file(), file.size()))
}

/// `ZipFile::read_to_end` behind a limit, on an entry that `by_index` can open.
/// It gives at most `limit` bytes. Where the content ends before the limit, its
/// CRC-32 was compared with the one in the index and is the same. The words
/// of a failure are not stated.
#[verifier::external_body]
pub(crate) fn zip_read(
    archive: &mut zip::ZipArchive<std::io::Cursor<&[u8]>>,
    index: usize,
    limit: u64,
) -> (content: Result<Vec<u8>, String>)
    requires
        index < zip_entries(zip_source(*old(archive))).len(),
        zip_opens(zip_source(*old(archive)), index as nat),
    ensures
        zip_source(*final(archive)) == zip_source(*old(archive)),
        content is Ok == zip_content(zip_source(*old(archive)), index as nat, limit) is Some,
        content is Ok ==> content->Ok_0@ == zip_content(
            zip_source(*old(archive)),
            index as nat,
            limit,
        )->0,
        content is Ok ==> content->Ok_0@.len() <= limit,
        content is Ok && content->Ok_0@.len() < limit ==> crc32(content->Ok_0@)
            == zip_entries(zip_source(*old(archive)))[index as int].crc,
    no_unwind
{
    let file = archive.by_index(index).map_err(|error| error.to_string())?;
    let mut bytes = Vec::new();
    std::io::Read::read_to_end(&mut std::io::Read::take(file, limit), &mut bytes)
        .map_err(|error| error.to_string())?;
    Ok(bytes)
}

} // verus!

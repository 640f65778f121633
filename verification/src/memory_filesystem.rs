//! Files that are kept in memory.

use crate::content::{
    law_a_read_gives_the_bytes_there, portion, read_into, resize, resized, write_at, written,
};
use crate::error::{fatal, ErrorView, WieError};
use crate::file_map::{FileContents, FileKey, FileMap};
use vstd::prelude::*;

verus! {

/// Files that are kept in memory, by application and path.
pub struct MemoryFilesystem {
    files: FileMap,
}

/// The content of a file, or `initial` where there is none.
pub open spec fn content_or(files: FileContents, key: FileKey, initial: Seq<u8>) -> Seq<u8> {
    if files.dom().contains(key) {
        files[key]
    } else {
        initial
    }
}

/// The bytes that a read may place in a buffer.
pub open spec fn read_room(count: usize, room: nat) -> nat {
    if count < room {
        count as nat
    } else {
        room
    }
}

/// Whether `read` and the buffer are what reading `content` gives.
pub open spec fn is_reading(
    read: Option<usize>,
    content: Seq<u8>,
    offset: usize,
    count: usize,
    before: Seq<u8>,
    after: Seq<u8>,
) -> bool {
    let bytes = portion(content, offset as nat, read_room(count, before.len()));
    read == Some(bytes.len() as usize) && after == bytes + before.skip(bytes.len() as int)
}

/// A copy of bytes.
pub(crate) fn copied(bytes: &[u8]) -> (copy: Vec<u8>)
    ensures
        copy@ == bytes@,
{
    let mut copy: Vec<u8> = Vec::new();
    copy.extend_from_slice(bytes);
    assert(copy@ =~= bytes@);
    copy
}

impl MemoryFilesystem {
    /// The contents of all files.
    pub closed spec fn files(&self) -> FileContents {
        self.files@
    }

    /// No files.
    pub fn new() -> (filesystem: MemoryFilesystem)
        ensures
            filesystem.files() == FileContents::empty(),
    {
        MemoryFilesystem { files: FileMap::new() }
    }

    /// Whether there is a file.
    pub fn has_file(&self, aid: &str, path: &str) -> (found: bool)
        ensures
            found == self.files().dom().contains((aid@, path@)),
    {
        self.files.get(aid, path).is_some()
    }

    /// The size of a file: none where there is no file.
    pub fn size(&self, aid: &str, path: &str) -> (size: Option<usize>)
        ensures
            size is Some == self.files().dom().contains((aid@, path@)),
            size is Some ==> size->0 == self.files()[(aid@, path@)].len(),
    {
        match self.files.get(aid, path) {
            Some(bytes) => Some(bytes.len()),
            None => None,
        }
    }

    /// Copies at most `count` bytes from `offset` on into `buf`, as far as it
    /// reaches, and says how many: none where there is no file.
    pub fn read(&self, aid: &str, path: &str, offset: usize, count: usize, buf: &mut [u8]) -> (read: Option<
        usize,
    >)
        ensures
            final(buf)@.len() == old(buf)@.len(),
            !self.files().dom().contains((aid@, path@)) ==> read is None && final(buf)@ == old(buf)@,
            self.files().dom().contains((aid@, path@)) ==> is_reading(
                read,
                self.files()[(aid@, path@)],
                offset,
                count,
                old(buf)@,
                final(buf)@,
            ),
    {
        match self.files.get(aid, path) {
            Some(bytes) => Some(read_into(bytes, offset, count, buf)),
            None => None,
        }
    }

    /// The content of a file, or a copy of `initial` where there is none.
    fn content(&self, aid: &str, path: &str, initial: &[u8]) -> (bytes: Vec<u8>)
        ensures
            bytes@ == content_or(self.files(), (aid@, path@), initial@),
    {
        match self.files.get(aid, path) {
            Some(bytes) => copied(bytes.as_slice()),
            None => copied(initial),
        }
    }

    /// Places `data` at `offset` of a file, which begins as `initial` where there
    /// is none. Says how many bytes were written: all of them.
    pub fn write(&mut self, aid: &str, path: &str, offset: usize, data: &[u8], initial: &[u8]) -> (count:
        Result<usize, WieError>)
        ensures
            offset + data@.len() > usize::MAX ==> {
                &&& count is Err
                &&& count->Err_0@ == ErrorView::FatalError("file offset overflow"@)
                &&& final(self).files() == old(self).files()
            },
            offset + data@.len() <= usize::MAX ==> {
                &&& count == Ok::<usize, WieError>(data@.len() as usize)
                &&& final(self).files() == old(self).files().insert(
                    (aid@, path@),
                    written(
                        content_or(old(self).files(), (aid@, path@), initial@),
                        offset as nat,
                        data@,
                    ),
                )
            },
    {
        if offset > usize::MAX - data.len() {
            return Err(fatal("file offset overflow"));
        }
        let mut bytes = self.content(aid, path, initial);
        write_at(&mut bytes, offset, data);
        self.files.insert(aid, path, bytes);
        Ok(data.len())
    }

    /// Cuts or zero-fills a file, which begins as `initial` where there is none.
    pub fn truncate(&mut self, aid: &str, path: &str, len: usize, initial: &[u8])
        ensures
            final(self).files() == old(self).files().insert(
                (aid@, path@),
                resized(content_or(old(self).files(), (aid@, path@), initial@), len as nat),
            ),
    {
        let mut bytes = self.content(aid, path, initial);
        resize(&mut bytes, len);
        self.files.insert(aid, path, bytes);
    }
}

/// A change to one application's file leaves the files of all other
/// applications, and all other files of the same one.
pub proof fn law_changes_stay_in_one_file(
    files: FileContents,
    changed: FileKey,
    bytes: Seq<u8>,
    other: FileKey,
)
    requires
        other != changed,
    ensures
        files.insert(changed, bytes).dom().contains(other) == files.dom().contains(other),
        files.dom().contains(other) ==> files.insert(changed, bytes)[other] == files[other],
{
}

/// A read fills the beginning of the buffer with the bytes of the file from the offset
/// on and leaves the rest of the buffer alone. It stops where the count, the buffer or
/// the file ends, and nowhere before.
pub proof fn law_reads_fill_the_buffer(
    read: Option<usize>,
    content: Seq<u8>,
    offset: usize,
    count: usize,
    before: Seq<u8>,
    after: Seq<u8>,
)
    requires
        is_reading(read, content, offset, count, before, after),
        content.len() <= usize::MAX,
    ensures
        read matches Some(n) && {
            &&& n <= count && n <= before.len()
            &&& n > 0 ==> offset + n <= content.len()
            &&& n == count || n == before.len() || offset + n >= content.len()
            &&& offset >= content.len() ==> n == 0
            &&& after.len() == before.len()
            &&& forall|i: int| 0 <= i < n ==> #[trigger] after[i] == content[offset + i]
            &&& forall|i: int| n <= i < before.len() ==> #[trigger] after[i] == before[i]
        },
{
    law_a_read_gives_the_bytes_there(content, offset as nat, read_room(count, before.len()));
    let bytes = portion(content, offset as nat, read_room(count, before.len()));
    assert forall|i: int| 0 <= i < bytes.len() implies #[trigger] after[i] == content[offset + i] by {
        assert(after[i] == bytes[i]);
    }
}

/// What a change begins with is the file's content where there is a file, and the
/// initial bytes only where there is none.
pub proof fn law_initial_bytes_are_for_missing_files(
    files: FileContents,
    key: FileKey,
    content: Seq<u8>,
    initial: Seq<u8>,
)
    ensures
        content_or(files.insert(key, content), key, initial) == content,
        !files.dom().contains(key) ==> content_or(files, key, initial) == initial,
{
}

/// A write gives back all its bytes where they were written, keeps all others, fills a gap
/// with zeros and touches no other file. It is refused exactly where it would reach beyond
/// what a file can have.
pub proof fn law_writing_keeps_everything_else(
    filesystem: &mut MemoryFilesystem,
    aid: &str,
    path: &str,
    offset: usize,
    data: &[u8],
    initial: &[u8],
    count: Result<usize, WieError>,
)
    requires
        call_ensures(MemoryFilesystem::write, (filesystem, aid, path, offset, data, initial), count),
    ensures
        count is Err == (offset + data@.len() > usize::MAX),
        count is Err ==> final(filesystem).files() == old(filesystem).files(),
        count matches Ok(n) ==> n == data@.len(),
        count is Ok ==> final(filesystem).files().dom().contains((aid@, path@)) && ({
            let after = final(filesystem).files()[(aid@, path@)];
            let before = if old(filesystem).files().dom().contains((aid@, path@)) {
                old(filesystem).files()[(aid@, path@)]
            } else {
                initial@
            };
            &&& after.len() >= before.len() && after.len() >= offset + data@.len()
            &&& after.len() == before.len() || after.len() == offset + data@.len()
            &&& after.subrange(offset as int, offset + data@.len()) == data@
            &&& forall|i: int|
                0 <= i < after.len() && (i < offset || offset + data@.len() <= i)
                    ==> #[trigger] after[i] == (if i < before.len() {
                    before[i]
                } else {
                    0
                })
        }),
        forall|other: FileKey|
            #![trigger final(filesystem).files().dom().contains(other)]
            other != (aid@, path@) ==> final(filesystem).files().dom().contains(other)
                == old(filesystem).files().dom().contains(other),
        forall|other: FileKey|
            #![trigger final(filesystem).files()[other]]
            other != (aid@, path@) && old(filesystem).files().dom().contains(other)
                ==> final(filesystem).files()[other] == old(filesystem).files()[other],
{
    if count is Ok {
        let after = final(filesystem).files()[(aid@, path@)];
        assert(after.subrange(offset as int, offset + data@.len()) =~= data@);
    }
}

/// A truncation makes the file as long as it says, with its first bytes as they were and
/// zeros behind them, and touches no other file.
pub proof fn law_truncating_keeps_the_beginning(
    filesystem: &mut MemoryFilesystem,
    aid: &str,
    path: &str,
    len: usize,
    initial: &[u8],
)
    requires
        call_ensures(MemoryFilesystem::truncate, (filesystem, aid, path, len, initial), ()),
    ensures
        final(filesystem).files().dom().contains((aid@, path@)),
        ({
            let after = final(filesystem).files()[(aid@, path@)];
            let before = if old(filesystem).files().dom().contains((aid@, path@)) {
                old(filesystem).files()[(aid@, path@)]
            } else {
                initial@
            };
            &&& after.len() == len
            &&& forall|i: int|
                0 <= i < len ==> #[trigger] after[i] == (if i < before.len() {
                    before[i]
                } else {
                    0
                })
        }),
        forall|other: FileKey|
            #![trigger final(filesystem).files().dom().contains(other)]
            other != (aid@, path@) ==> final(filesystem).files().dom().contains(other)
                == old(filesystem).files().dom().contains(other),
        forall|other: FileKey|
            #![trigger final(filesystem).files()[other]]
            other != (aid@, path@) && old(filesystem).files().dom().contains(other)
                ==> final(filesystem).files()[other] == old(filesystem).files()[other],
{
}

/// What is asked of a file in memory agrees: it has a size where it is there, and a read of
/// it fills the buffer as far as it, the count and the file reach.
pub proof fn law_files_in_memory_are_read(
    filesystem: &MemoryFilesystem,
    aid: &str,
    path: &str,
    offset: usize,
    count: usize,
    buf: &mut [u8],
    there: bool,
    size: Option<usize>,
    read: Option<usize>,
)
    requires
        call_ensures(MemoryFilesystem::has_file, (filesystem, aid, path), there),
        call_ensures(MemoryFilesystem::size, (filesystem, aid, path), size),
        call_ensures(MemoryFilesystem::read, (filesystem, aid, path, offset, count, buf), read),
    ensures
        there == filesystem.files().dom().contains((aid@, path@)),
        size is Some == there,
        read is Some == there,
        !there ==> final(buf)@ == old(buf)@,
        there ==> size->0 == filesystem.files()[(aid@, path@)].len() && ({
            let content = filesystem.files()[(aid@, path@)];
            let n = read->0;
            &&& n <= count && n <= old(buf)@.len()
            &&& n == count || n == old(buf)@.len() || offset + n >= content.len()
            &&& forall|i: int| 0 <= i < n ==> #[trigger] final(buf)@[i] == content[offset + i]
            &&& forall|i: int|
                n <= i < old(buf)@.len() ==> #[trigger] final(buf)@[i] == old(buf)@[i]
        }),
{
    if there {
        law_reads_fill_the_buffer(
            read,
            filesystem.files()[(aid@, path@)],
            offset,
            count,
            old(buf)@,
            final(buf)@,
        );
    }
}

} // verus!

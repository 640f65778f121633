//! Persistent files on the host, under `<base>/<aid>/fs/<path>`.
//!
//! An id that cannot name a directory as it stands, such as `a/b`, is spelled out
//! below `<base>/_` instead, so that no two applications share a file.
//!
//! The host's file system is driven from outside: this module decides which
//! file an application may touch and which operation comes next.

use crate::content::{law_read_after_write, portion, resized, written};
use crate::error::{fatal, fatal_with, ErrorView, WieError};
use crate::file_system::{guest_path_key, law_key_is_plain};
use crate::path::{
    has_parent_segment, home_of, home_segments, is_plain, is_skipped, join_path, joined_path,
    law_homes_are_apart, law_names_are_kept_as_directories, law_one_segment_moves,
    law_paths_tell_their_segments, lemma_home_plain, lemma_moving_identity,
    lemma_moving_segments, moving, moving_segments, names_directory, parent_segment, sanitize,
    segment_is_parent, segment_is_skipped,
};
use crate::text::{
    chars_of, join, join_with, law_join_split, law_splitting_goes_part_by_part, lemma_join_behind,
    lemma_split_nonempty, split, split_at_each, string_of, texts,
};
use vstd::prelude::*;

verus! {

/// Persistent filesystem under `<base>/<aid>/fs/<path>`.
pub struct CliFilesystem {
    base_path: String,
}

/// The segments of the directory that holds an application's files.
pub open spec fn files_directory(aid: Seq<char>) -> Seq<Seq<char>> {
    home_segments(aid).push(seq!['f', 's'])
}

/// The segments of the file that an application means, below the base directory.
///
/// There is none where the sanitized application id names no directory, where
/// the path is absolute or holds `..`, or where it names nothing.
pub open spec fn file_segments(aid: Seq<char>, path: Seq<char>) -> Option<Seq<Seq<char>>> {
    let segments = moving(split(path, '/'));
    if !names_directory(aid) || path.len() > 0 && path[0] == '/' || segments.contains(
        parent_segment(),
    ) || segments.len() == 0 {
        None
    } else {
        Some(files_directory(aid) + segments)
    }
}

/// The path of an application's file, if it may have one there.
pub open spec fn file_path(base: Seq<char>, aid: Seq<char>, path: Seq<char>) -> Option<Seq<char>> {
    match file_segments(aid, path) {
        Some(segments) => Some(joined_path(base, join(segments, '/'))),
        None => None,
    }
}

/// An application's file lies in that application's own directory: every
/// segment names something in the directory before it, so the path cannot leave.
pub proof fn law_file_stays_in_its_directory(aid: Seq<char>, path: Seq<char>)
    requires
        file_segments(aid, path) is Some,
    ensures
        ({
            let segments = file_segments(aid, path)->0;
            let directory = files_directory(aid);
            &&& segments.len() > directory.len()
            &&& segments.take(directory.len() as int) == directory
            &&& forall|i: int| 0 <= i < segments.len() ==> is_plain(#[trigger] segments[i])
        }),
{
    let segments = file_segments(aid, path)->0;
    let directory = files_directory(aid);
    let home = home_segments(aid);
    let tail = moving(split(path, '/'));
    lemma_home_plain(aid);
    lemma_moving_segments(path);
    assert(segments.take(directory.len() as int) =~= directory);
    assert forall|i: int| 0 <= i < segments.len() implies is_plain(#[trigger] segments[i]) by {
        if i < home.len() {
            assert(segments[i] == home[i]);
        } else if i == home.len() {
            let fs = seq!['f', 's'];
            assert(segments[i] == fs);
            assert(fs[0] != '.' && !fs.contains('/'));
        } else {
            let k = i - home.len() - 1;
            assert(segments[i] == tail[k]);
            assert(tail.contains(tail[k]));
        }
    }
}

/// Applications do not share files: whoever means the same file has the same id
/// and means the same segments.
pub proof fn law_applications_have_their_own_files(
    base: Seq<char>,
    aid: Seq<char>,
    path: Seq<char>,
    other_aid: Seq<char>,
    other_path: Seq<char>,
)
    requires
        file_path(base, aid, path) is Some,
        file_path(base, aid, path) == file_path(base, other_aid, other_path),
    ensures
        aid == other_aid,
        moving(split(path, '/')) == moving(split(other_path, '/')),
{
    let a = file_segments(aid, path)->0;
    let b = file_segments(other_aid, other_path)->0;
    law_file_stays_in_its_directory(aid, path);
    law_file_stays_in_its_directory(other_aid, other_path);
    law_paths_tell_their_segments(base, a, b);
    law_homes_are_apart(
        aid,
        other_aid,
        seq!['f', 's'],
        moving(split(path, '/')),
        moving(split(other_path, '/')),
    );
}

/// Every key of a guest path means a file of every application whose id names a
/// directory, with the key's own segments.
pub proof fn law_keys_mean_files(aid: Seq<char>, path: Seq<char>)
    requires
        names_directory(aid),
        guest_path_key(path) is Some,
    ensures
        file_segments(aid, guest_path_key(path)->0) == Some(
            files_directory(aid) + split(guest_path_key(path)->0, '/'),
        ),
{
    let key = guest_path_key(path)->0;
    let segments = split(key, '/');
    law_key_is_plain(path);
    lemma_split_nonempty(key, '/');
    assert forall|i: int| 0 <= i < segments.len() implies !is_skipped(#[trigger] segments[i]) by {
        assert(is_plain(segments[i]));
    }
    lemma_moving_identity(segments);
    if segments.contains(parent_segment()) {
        let i = choose|i: int| 0 <= i < segments.len() && segments[i] == parent_segment();
        assert(is_plain(segments[i]));
    }
}

/// The error for a failed operation of the host's file system.
pub fn io_error(message: &str) -> (error: WieError)
    ensures
        error@ == ErrorView::FatalError("filesystem: "@ + message@),
{
    fatal_with("filesystem: ", message)
}

impl CliFilesystem {
    /// The directory under which the files of all applications lie.
    pub closed spec fn base(&self) -> Seq<char> {
        self.base_path@
    }

    /// A filesystem under the given directory.
    pub fn new(base_path: String) -> (filesystem: CliFilesystem)
        ensures
            filesystem.base() == base_path@,
    {
        CliFilesystem { base_path }
    }

    /// Where the file of an application lies, if it may have one there.
    pub fn path_for(&self, aid: &str, path: &str) -> (found: Option<String>)
        ensures
            found is Some == file_path(self.base(), aid@, path@) is Some,
            found is Some ==> found->0@ == file_path(self.base(), aid@, path@)->0,
    {
        let name = sanitize(aid);
        proof {
            assert(seq!['.'].len() == 1 && parent_segment().len() == 2);
        }
        if segment_is_skipped(&name) || segment_is_parent(&name) {
            return None;
        }
        let chars = chars_of(path);
        if chars.len() > 0 && chars[0] == '/' {
            return None;
        }
        let segments = moving_segments(split_at_each(&chars, '/'));
        if has_parent_segment(&segments) || segments.len() == 0 {
            return None;
        }
        let mut all = home_of(aid);
        let ghost home = texts(all@);
        let mut fs: Vec<char> = Vec::new();
        fs.push('f');
        fs.push('s');
        assert(fs@ =~= seq!['f', 's']);
        all.push(fs);
        let ghost head = texts(all@);
        assert(head =~= home.push(seq!['f', 's']));
        let mut i: usize = 0;
        while i < segments.len()
            invariant
                i <= segments.len(),
                texts(all@) == head + texts(segments@).take(i as int),
            decreases segments.len() - i,
        {
            let ghost before = texts(all@);
            let segment = segments[i].clone();
            assert(segment@ =~= segments@[i as int]@);
            all.push(segment);
            assert(texts(all@) =~= before.push(segments@[i as int]@));
            assert(texts(all@) =~= head + texts(segments@).take(i + 1));
            i += 1;
        }
        assert(texts(segments@).take(segments@.len() as int) =~= texts(segments@));
        Some(string_of(&join_path(&chars_of(self.base_path.as_str()), &join_with(&all, '/'))))
    }
}

/// What the host knows of a path.
pub enum FileStatus {
    /// It is a file of this many bytes.
    File(u64),
    /// It is something else than a file.
    Other,
    /// There is nothing.
    Missing,
    /// The host could not tell; the text says why.
    Failed(String),
}

/// The size of a file that the host was asked for: none where there is no
/// file, an error where the host failed or the size does not fit.
pub fn size_of_status(status: &FileStatus) -> (size: Result<Option<usize>, WieError>)
    ensures
        match *status {
            FileStatus::File(len) => if len <= usize::MAX {
                size == Ok::<Option<usize>, WieError>(Some(len as usize))
            } else {
                size is Err && size->Err_0@ == ErrorView::FatalError("file too large"@)
            },
            FileStatus::Other => size == Ok::<Option<usize>, WieError>(None),
            FileStatus::Missing => size == Ok::<Option<usize>, WieError>(None),
            FileStatus::Failed(message) => size is Err && size->Err_0@ == ErrorView::FatalError(
                "filesystem: "@ + message@,
            ),
        },
{
    match status {
        FileStatus::File(len) => {
            if *len <= usize::MAX as u64 {
                Ok(Some(*len as usize))
            } else {
                Err(fatal("file too large"))
            }
        },
        FileStatus::Other => Ok(None),
        FileStatus::Missing => Ok(None),
        FileStatus::Failed(message) => Err(io_error(message.as_str())),
    }
}

/// The most bytes that one read may place in a buffer.
pub fn read_limit(count: usize, room: usize) -> (limit: usize)
    ensures
        limit == (if count < room {
            count
        } else {
            room
        }),
{
    if count < room {
        count
    } else {
        room
    }
}

/// How far a read has come: the operation that the host was last asked for.
#[derive(Clone, Copy, PartialEq, Eq, Structural)]
pub enum ReadPhase {
    Start,
    Opening,
    Seeking,
    Reading,
    Finished,
}

/// What the host answers to a [`ReadAction`].
pub enum ReadEvent {
    Done,
    /// The file that was to be opened is not there.
    Missing,
    /// So many bytes were read.
    Read(usize),
    /// The operation failed; the text says why.
    Failed(String),
}

/// The next operation of a read.
pub enum ReadAction {
    /// Open the file.
    Open,
    /// Go to this place in the file.
    SeekTo(u64),
    /// Read at most this many bytes into the beginning of the buffer.
    Read(usize),
    /// The read is over: so many bytes were read, or there is no file.
    Finish(Result<Option<usize>, WieError>),
}

/// The meaning of a [`ReadEvent`].
pub enum ReadEventView {
    Done,
    Missing,
    Read(usize),
    Failed(Seq<char>),
}

/// The meaning of a [`ReadAction`].
pub enum ReadActionView {
    Open,
    SeekTo(u64),
    Read(usize),
    Finish(Result<Option<usize>, ErrorView>),
}

impl View for ReadEvent {
    type V = ReadEventView;

    open spec fn view(&self) -> ReadEventView {
        match self {
            ReadEvent::Done => ReadEventView::Done,
            ReadEvent::Missing => ReadEventView::Missing,
            ReadEvent::Read(count) => ReadEventView::Read(*count),
            ReadEvent::Failed(message) => ReadEventView::Failed(message@),
        }
    }
}

impl View for ReadAction {
    type V = ReadActionView;

    open spec fn view(&self) -> ReadActionView {
        match self {
            ReadAction::Open => ReadActionView::Open,
            ReadAction::SeekTo(offset) => ReadActionView::SeekTo(*offset),
            ReadAction::Read(limit) => ReadActionView::Read(*limit),
            ReadAction::Finish(Ok(count)) => ReadActionView::Finish(Ok(*count)),
            ReadAction::Finish(Err(error)) => ReadActionView::Finish(Err(error@)),
        }
    }
}

/// Whether the host can give this answer in this phase: only opening finds no
/// file, and only reading gives a count.
pub open spec fn read_event_fits(phase: ReadPhase, event: ReadEventView) -> bool {
    match event {
        ReadEventView::Done => phase == ReadPhase::Start || phase == ReadPhase::Opening || phase
            == ReadPhase::Seeking,
        ReadEventView::Missing => phase == ReadPhase::Opening,
        ReadEventView::Read(_) => phase == ReadPhase::Reading,
        ReadEventView::Failed(_) => phase != ReadPhase::Start,
    }
}

/// A read of one file, on its way.
#[derive(Clone, Copy, PartialEq, Eq, Structural)]
pub struct FileRead {
    /// Whether the application may have a file there.
    pub allowed: bool,
    pub offset: u64,
    /// The most bytes that are read.
    pub limit: usize,
    pub phase: ReadPhase,
}

/// The next phase and operation of a read.
pub open spec fn next_read(read: FileRead, event: ReadEventView) -> (ReadPhase, ReadActionView) {
    match event {
        ReadEventView::Failed(message) => (
            ReadPhase::Finished,
            ReadActionView::Finish(Err(ErrorView::FatalError("filesystem: "@ + message))),
        ),
        ReadEventView::Missing => (ReadPhase::Finished, ReadActionView::Finish(Ok(None))),
        ReadEventView::Read(count) => (ReadPhase::Finished, ReadActionView::Finish(Ok(Some(count)))),
        ReadEventView::Done => match read.phase {
            ReadPhase::Start => if read.allowed {
                (ReadPhase::Opening, ReadActionView::Open)
            } else {
                (ReadPhase::Finished, ReadActionView::Finish(Ok(None)))
            },
            ReadPhase::Opening => (ReadPhase::Seeking, ReadActionView::SeekTo(read.offset)),
            _ => (ReadPhase::Reading, ReadActionView::Read(read.limit)),
        },
    }
}

impl FileRead {
    /// A read of at most `count` bytes from `offset` on into a buffer with `room`
    /// for so many. `allowed` says whether the application may have a file there.
    pub fn new(allowed: bool, offset: usize, count: usize, room: usize) -> (read: FileRead)
        ensures
            read == (FileRead {
                allowed,
                offset: offset as u64,
                limit: if count < room {
                    count
                } else {
                    room
                },
                phase: ReadPhase::Start,
            }),
    {
        FileRead {
            allowed,
            offset: offset as u64,
            limit: read_limit(count, room),
            phase: ReadPhase::Start,
        }
    }

    /// The next operation, after the host's answer to the one before. The first
    /// call answers to nothing and takes [`ReadEvent::Done`].
    pub fn step(&mut self, event: ReadEvent) -> (action: ReadAction)
        requires
            read_event_fits(old(self).phase, event@),
        ensures
            *final(self) == (FileRead {
                phase: next_read(*old(self), event@).0,
                ..*old(self)
            }),
            action@ == next_read(*old(self), event@).1,
    {
        match event {
            ReadEvent::Failed(message) => {
                self.phase = ReadPhase::Finished;
                ReadAction::Finish(Err(io_error(message.as_str())))
            },
            ReadEvent::Missing => {
                self.phase = ReadPhase::Finished;
                ReadAction::Finish(Ok(None))
            },
            ReadEvent::Read(count) => {
                self.phase = ReadPhase::Finished;
                ReadAction::Finish(Ok(Some(count)))
            },
            ReadEvent::Done => match self.phase {
                ReadPhase::Start => {
                    if self.allowed {
                        self.phase = ReadPhase::Opening;
                        ReadAction::Open
                    } else {
                        self.phase = ReadPhase::Finished;
                        ReadAction::Finish(Ok(None))
                    }
                },
                ReadPhase::Opening => {
                    self.phase = ReadPhase::Seeking;
                    ReadAction::SeekTo(self.offset)
                },
                _ => {
                    self.phase = ReadPhase::Reading;
                    ReadAction::Read(self.limit)
                },
            },
        }
    }
}

/// A change to one file.
#[derive(Clone, Copy, PartialEq, Eq, Structural)]
pub enum FileJob {
    /// Place `len` bytes at `offset`.
    Write { offset: u64, len: usize },
    /// Cut or zero-fill the file to `size` bytes.
    Truncate { size: u64 },
}

/// How far a change has come: the operation that the host was last asked for.
#[derive(Clone, Copy, PartialEq, Eq, Structural)]
pub enum ChangePhase {
    Start,
    CreatingParents,
    CreatingFile,
    WritingInitial,
    Opening,
    Measuring,
    Extending,
    Seeking,
    Writing,
    Resizing,
    Finished,
}

/// What the host answers to a [`FileAction`].
pub enum FileEvent {
    Done,
    /// A file that was to be created is there already.
    AlreadyExists,
    /// The length that was asked for.
    Length(u64),
    /// The operation failed; the text says why.
    Failed(String),
}

/// The next operation on the file.
pub enum FileAction {
    /// Create the directories that the file lies in.
    CreateParents,
    /// Create the file, which must not be there yet, and open it.
    CreateNew,
    /// Write the initial content into the new file.
    WriteInitial,
    /// Open the file that is there.
    OpenExisting,
    /// Ask for the file's length.
    Measure,
    /// Cut or zero-fill the file.
    SetLength(u64),
    /// Go to this place in the file.
    SeekTo(u64),
    /// Write the data of the change.
    WriteData,
    /// The change is over.
    Finish(Result<usize, WieError>),
}

/// The meaning of a [`FileEvent`].
pub enum FileEventView {
    Done,
    AlreadyExists,
    Length(u64),
    Failed(Seq<char>),
}

/// The meaning of a [`FileAction`].
pub enum FileActionView {
    CreateParents,
    CreateNew,
    WriteInitial,
    OpenExisting,
    Measure,
    SetLength(u64),
    SeekTo(u64),
    WriteData,
    Finish(Result<usize, ErrorView>),
}

impl View for FileEvent {
    type V = FileEventView;

    open spec fn view(&self) -> FileEventView {
        match self {
            FileEvent::Done => FileEventView::Done,
            FileEvent::AlreadyExists => FileEventView::AlreadyExists,
            FileEvent::Length(len) => FileEventView::Length(*len),
            FileEvent::Failed(message) => FileEventView::Failed(message@),
        }
    }
}

impl View for FileAction {
    type V = FileActionView;

    open spec fn view(&self) -> FileActionView {
        match self {
            FileAction::CreateParents => FileActionView::CreateParents,
            FileAction::CreateNew => FileActionView::CreateNew,
            FileAction::WriteInitial => FileActionView::WriteInitial,
            FileAction::OpenExisting => FileActionView::OpenExisting,
            FileAction::Measure => FileActionView::Measure,
            FileAction::SetLength(len) => FileActionView::SetLength(*len),
            FileAction::SeekTo(offset) => FileActionView::SeekTo(*offset),
            FileAction::WriteData => FileActionView::WriteData,
            FileAction::Finish(Ok(len)) => FileActionView::Finish(Ok(*len)),
            FileAction::Finish(Err(error)) => FileActionView::Finish(Err(error@)),
        }
    }
}

/// Whether the host can give this answer in this phase: only the creation of
/// the file finds it there already, and only measuring gives a length.
pub open spec fn event_fits(phase: ChangePhase, event: FileEventView) -> bool {
    match event {
        FileEventView::Done => phase != ChangePhase::Measuring,
        FileEventView::AlreadyExists => phase == ChangePhase::CreatingFile,
        FileEventView::Length(_) => phase == ChangePhase::Measuring,
        FileEventView::Failed(_) => phase != ChangePhase::Start,
    }
}

/// What follows once the file is open.
pub open spec fn opened(job: FileJob) -> (ChangePhase, FileActionView) {
    match job {
        FileJob::Write { .. } => (ChangePhase::Measuring, FileActionView::Measure),
        FileJob::Truncate { size } => (ChangePhase::Resizing, FileActionView::SetLength(size)),
    }
}

/// The next phase and operation of a change.
pub open spec fn next_operation(job: FileJob, phase: ChangePhase, event: FileEventView) -> (
    ChangePhase,
    FileActionView,
) {
    let offset = match job {
        FileJob::Write { offset, .. } => offset,
        FileJob::Truncate { .. } => 0,
    };
    let len = match job {
        FileJob::Write { len, .. } => len,
        FileJob::Truncate { .. } => 0,
    };
    match event {
        FileEventView::Failed(message) => (
            ChangePhase::Finished,
            FileActionView::Finish(Err(ErrorView::FatalError("filesystem: "@ + message))),
        ),
        FileEventView::AlreadyExists => (ChangePhase::Opening, FileActionView::OpenExisting),
        FileEventView::Length(present) => if offset > present {
            (ChangePhase::Extending, FileActionView::SetLength(offset))
        } else {
            (ChangePhase::Seeking, FileActionView::SeekTo(offset))
        },
        FileEventView::Done => match phase {
            ChangePhase::Start => (ChangePhase::CreatingParents, FileActionView::CreateParents),
            ChangePhase::CreatingParents => (ChangePhase::CreatingFile, FileActionView::CreateNew),
            ChangePhase::CreatingFile => (ChangePhase::WritingInitial, FileActionView::WriteInitial),
            ChangePhase::WritingInitial => opened(job),
            ChangePhase::Opening => opened(job),
            ChangePhase::Extending => (ChangePhase::Seeking, FileActionView::SeekTo(offset)),
            ChangePhase::Seeking => (ChangePhase::Writing, FileActionView::WriteData),
            _ => (ChangePhase::Finished, FileActionView::Finish(Ok(len))),
        },
    }
}

/// A change to one file, on its way.
pub struct FileChange {
    pub job: FileJob,
    pub phase: ChangePhase,
}

impl FileChange {
    /// A write of `len` bytes at `offset`. Its end must be a file position.
    pub fn write(offset: usize, len: usize) -> (change: Result<FileChange, WieError>)
        ensures
            offset + len > usize::MAX ==> change is Err && change->Err_0@ == ErrorView::FatalError(
                "file offset overflow"@,
            ),
            offset + len <= usize::MAX ==> change == Ok::<FileChange, WieError>(
                FileChange {
                    job: FileJob::Write { offset: offset as u64, len },
                    phase: ChangePhase::Start,
                },
            ),
    {
        if offset > usize::MAX - len {
            return Err(fatal("file offset overflow"));
        }
        Ok(
            FileChange {
                job: FileJob::Write { offset: offset as u64, len },
                phase: ChangePhase::Start,
            },
        )
    }

    /// A cut or extension to `len` bytes.
    pub fn truncate(len: usize) -> (change: FileChange)
        ensures
            change == (FileChange {
                job: FileJob::Truncate { size: len as u64 },
                phase: ChangePhase::Start,
            }),
    {
        FileChange { job: FileJob::Truncate { size: len as u64 }, phase: ChangePhase::Start }
    }

    /// The next operation, after the host's answer to the one before. The first
    /// call answers to nothing and takes [`FileEvent::Done`].
    pub fn step(&mut self, event: FileEvent) -> (action: FileAction)
        requires
            event_fits(old(self).phase, event@),
        ensures
            final(self).job == old(self).job,
            (final(self).phase, action@) == next_operation(old(self).job, old(self).phase, event@),
    {
        let (offset, len): (u64, usize) = match self.job {
            FileJob::Write { offset, len } => (offset, len),
            FileJob::Truncate { .. } => (0, 0),
        };
        match event {
            FileEvent::Failed(message) => {
                self.phase = ChangePhase::Finished;
                FileAction::Finish(Err(io_error(message.as_str())))
            },
            FileEvent::AlreadyExists => {
                self.phase = ChangePhase::Opening;
                FileAction::OpenExisting
            },
            FileEvent::Length(present) => {
                if offset > present {
                    self.phase = ChangePhase::Extending;
                    FileAction::SetLength(offset)
                } else {
                    self.phase = ChangePhase::Seeking;
                    FileAction::SeekTo(offset)
                }
            },
            FileEvent::Done => match self.phase {
                ChangePhase::Start => {
                    self.phase = ChangePhase::CreatingParents;
                    FileAction::CreateParents
                },
                ChangePhase::CreatingParents => {
                    self.phase = ChangePhase::CreatingFile;
                    FileAction::CreateNew
                },
                ChangePhase::CreatingFile => {
                    self.phase = ChangePhase::WritingInitial;
                    FileAction::WriteInitial
                },
                ChangePhase::WritingInitial | ChangePhase::Opening => match self.job {
                    FileJob::Write { .. } => {
                        self.phase = ChangePhase::Measuring;
                        FileAction::Measure
                    },
                    FileJob::Truncate { size } => {
                        self.phase = ChangePhase::Resizing;
                        FileAction::SetLength(size)
                    },
                },
                ChangePhase::Extending => {
                    self.phase = ChangePhase::Seeking;
                    FileAction::SeekTo(offset)
                },
                ChangePhase::Seeking => {
                    self.phase = ChangePhase::Writing;
                    FileAction::WriteData
                },
                _ => {
                    self.phase = ChangePhase::Finished;
                    FileAction::Finish(Ok(len))
                },
            },
        }
    }
}

/// A file of a host that never fails: its content, if it is there, and the
/// place that the next write goes to.
#[verifier::ext_equal]
pub struct HostFile {
    pub content: Option<Seq<u8>>,
    pub cursor: nat,
}

/// What such a host does and answers.
pub open spec fn performed(
    host: HostFile,
    action: FileActionView,
    initial: Seq<u8>,
    data: Seq<u8>,
) -> (HostFile, FileEventView) {
    let content = match host.content {
        Some(content) => content,
        None => Seq::empty(),
    };
    match action {
        FileActionView::CreateNew => if host.content is Some {
            (host, FileEventView::AlreadyExists)
        } else {
            (HostFile { content: Some(Seq::empty()), cursor: 0 }, FileEventView::Done)
        },
        FileActionView::WriteInitial => (
            HostFile {
                content: Some(written(content, host.cursor, initial)),
                cursor: host.cursor + initial.len(),
            },
            FileEventView::Done,
        ),
        FileActionView::Measure => (host, FileEventView::Length(content.len() as u64)),
        FileActionView::SetLength(len) => (
            HostFile { content: Some(resized(content, len as nat)), cursor: host.cursor },
            FileEventView::Done,
        ),
        FileActionView::SeekTo(offset) => (
            HostFile { content: host.content, cursor: offset as nat },
            FileEventView::Done,
        ),
        FileActionView::WriteData => (
            HostFile {
                content: Some(written(content, host.cursor, data)),
                cursor: host.cursor + data.len(),
            },
            FileEventView::Done,
        ),
        _ => (host, FileEventView::Done),
    }
}

/// How a change ended: the host's file and the result.
pub struct Outcome {
    pub file: HostFile,
    pub result: Result<usize, ErrorView>,
}

/// The host's file and the result, once at most `steps` more operations are over.
pub open spec fn outcome(
    job: FileJob,
    phase: ChangePhase,
    host: HostFile,
    event: FileEventView,
    initial: Seq<u8>,
    data: Seq<u8>,
    steps: nat,
) -> Option<Outcome>
    decreases steps,
{
    if steps == 0 {
        None
    } else {
        let (next, action) = next_operation(job, phase, event);
        match action {
            FileActionView::Finish(result) => Some(Outcome { file: host, result }),
            _ => {
                let (after, answer) = performed(host, action, initial, data);
                outcome(job, next, after, answer, initial, data, (steps - 1) as nat)
            },
        }
    }
}

/// On a host that does not fail, a write ends within ten operations. It creates
/// a missing file with the initial content and then places the data at the offset.
pub proof fn law_write_reaches_the_file(
    host: HostFile,
    offset: u64,
    initial: Seq<u8>,
    data: Seq<u8>,
)
    requires
        data.len() <= usize::MAX,
        (match host.content {
            Some(content) => content.len(),
            None => initial.len(),
        }) <= u64::MAX,
    ensures
        ({
            let job = FileJob::Write { offset, len: data.len() as usize };
            let base = match host.content {
                Some(content) => content,
                None => initial,
            };
            let end = outcome(job, ChangePhase::Start, host, FileEventView::Done, initial, data, 10);
            &&& end is Some
            &&& end->0.file.content == Some(written(base, offset as nat, data))
            &&& end->0.result == Ok::<usize, ErrorView>(data.len() as usize)
        }),
{
    let job = FileJob::Write { offset, len: data.len() as usize };
    let base = match host.content {
        Some(content) => content,
        None => initial,
    };
    lemma_opening(job, host, initial, data);
    if host.content is Some {
        lemma_writing(job, ChangePhase::Opening, host, base, initial, data, 7);
    } else {
        let created = HostFile { content: Some(initial), cursor: initial.len() };
        lemma_writing(job, ChangePhase::WritingInitial, created, base, initial, data, 7);
    }
}

/// Whether a change ended well, with this content and count.
spec fn ends_with(end: Option<Outcome>, content: Seq<u8>, count: usize) -> bool {
    &&& end is Some
    &&& end->0.file.content == Some(content)
    &&& end->0.result == Ok::<usize, ErrorView>(count)
}

/// The first four operations of any change open the file.
proof fn lemma_opening(job: FileJob, host: HostFile, initial: Seq<u8>, data: Seq<u8>)
    ensures
        host.content is Some ==> outcome(
            job,
            ChangePhase::Start,
            host,
            FileEventView::Done,
            initial,
            data,
            10,
        ) == outcome(job, ChangePhase::Opening, host, FileEventView::Done, initial, data, 7),
        host.content is None ==> outcome(
            job,
            ChangePhase::Start,
            host,
            FileEventView::Done,
            initial,
            data,
            10,
        ) == outcome(
            job,
            ChangePhase::WritingInitial,
            HostFile { content: Some(initial), cursor: initial.len() },
            FileEventView::Done,
            initial,
            data,
            7,
        ),
{
    let done = FileEventView::Done;
    let exists_already = FileEventView::AlreadyExists;
    assert(outcome(job, ChangePhase::Start, host, done, initial, data, 10) == outcome(
        job,
        ChangePhase::CreatingParents,
        host,
        done,
        initial,
        data,
        9,
    ));
    if host.content is Some {
        assert(outcome(job, ChangePhase::CreatingParents, host, done, initial, data, 9) == outcome(
            job,
            ChangePhase::CreatingFile,
            host,
            exists_already,
            initial,
            data,
            8,
        ));
    } else {
        let empty = HostFile { content: Some(Seq::empty()), cursor: 0 };
        assert(outcome(job, ChangePhase::CreatingParents, host, done, initial, data, 9) == outcome(
            job,
            ChangePhase::CreatingFile,
            empty,
            done,
            initial,
            data,
            8,
        ));
        assert(written(Seq::empty(), 0, initial) =~= initial);
    }
}

/// A write to an open file measures it, fills a gap and places the data.
proof fn lemma_writing(
    job: FileJob,
    phase: ChangePhase,
    file: HostFile,
    base: Seq<u8>,
    initial: Seq<u8>,
    data: Seq<u8>,
    steps: nat,
)
    requires
        phase == ChangePhase::WritingInitial || phase == ChangePhase::Opening,
        job matches FileJob::Write { len, .. } && len == data.len(),
        base.len() <= u64::MAX,
        file.content == Some(base),
        steps >= 5,
    ensures
        ends_with(
            outcome(job, phase, file, FileEventView::Done, initial, data, steps),
            written(base, job->offset as nat, data),
            data.len() as usize,
        ),
{
    let done = FileEventView::Done;
    let offset = job->offset;
    let measured = FileEventView::Length(base.len() as u64);
    assert(outcome(job, phase, file, done, initial, data, steps) == outcome(
        job,
        ChangePhase::Measuring,
        file,
        measured,
        initial,
        data,
        (steps - 1) as nat,
    ));
    if offset > base.len() {
        let filled = HostFile {
            content: Some(resized(base, offset as nat)),
            cursor: file.cursor,
        };
        assert(outcome(job, ChangePhase::Measuring, file, measured, initial, data, (steps - 1) as nat)
            == outcome(
            job,
            ChangePhase::Extending,
            filled,
            done,
            initial,
            data,
            (steps - 2) as nat,
        ));
        let placed = HostFile { content: filled.content, cursor: offset as nat };
        assert(outcome(job, ChangePhase::Extending, filled, done, initial, data, (steps - 2) as nat)
            == outcome(job, ChangePhase::Seeking, placed, done, initial, data, (steps - 3) as nat));
        let stored = HostFile {
            content: Some(written(resized(base, offset as nat), offset as nat, data)),
            cursor: offset as nat + data.len(),
        };
        assert(outcome(job, ChangePhase::Seeking, placed, done, initial, data, (steps - 3) as nat)
            == outcome(job, ChangePhase::Writing, stored, done, initial, data, (steps - 4) as nat));
        assert(written(resized(base, offset as nat), offset as nat, data) =~= written(
            base,
            offset as nat,
            data,
        ));
    } else {
        let placed = HostFile { content: file.content, cursor: offset as nat };
        assert(outcome(job, ChangePhase::Measuring, file, measured, initial, data, (steps - 1) as nat)
            == outcome(job, ChangePhase::Seeking, placed, done, initial, data, (steps - 2) as nat));
        let stored = HostFile {
            content: Some(written(base, offset as nat, data)),
            cursor: offset as nat + data.len(),
        };
        assert(outcome(job, ChangePhase::Seeking, placed, done, initial, data, (steps - 2) as nat)
            == outcome(job, ChangePhase::Writing, stored, done, initial, data, (steps - 3) as nat));
    }
}

/// On a host that does not fail, a truncation ends within ten operations. It
/// creates a missing file with the initial content and then cuts or zero-fills it.
pub proof fn law_truncate_reaches_the_file(host: HostFile, len: u64, initial: Seq<u8>)
    ensures
        ({
            let job = FileJob::Truncate { size: len };
            let base = match host.content {
                Some(content) => content,
                None => initial,
            };
            let end = outcome(
                job,
                ChangePhase::Start,
                host,
                FileEventView::Done,
                initial,
                Seq::empty(),
                10,
            );
            &&& end is Some
            &&& end->0.file.content == Some(resized(base, len as nat))
            &&& end->0.result is Ok
        }),
{
    let job = FileJob::Truncate { size: len };
    lemma_opening(job, host, initial, Seq::empty());
    reveal_with_fuel(outcome, 3);
}

/// What a host that never fails does and answers when it is read, with the buffer
/// then.
pub open spec fn read_performed(host: HostFile, action: ReadActionView, buf: Seq<u8>) -> (
    HostFile,
    Seq<u8>,
    ReadEventView,
) {
    match action {
        ReadActionView::Open => if host.content is Some {
            (HostFile { cursor: 0, ..host }, buf, ReadEventView::Done)
        } else {
            (host, buf, ReadEventView::Missing)
        },
        ReadActionView::SeekTo(offset) => (
            HostFile { cursor: offset as nat, ..host },
            buf,
            ReadEventView::Done,
        ),
        ReadActionView::Read(limit) => {
            let bytes = portion(host.content->0, host.cursor, limit as nat);
            (
                HostFile { cursor: host.cursor + bytes.len(), ..host },
                bytes + buf.skip(bytes.len() as int),
                ReadEventView::Read(bytes.len() as usize),
            )
        },
        _ => (host, buf, ReadEventView::Done),
    }
}

/// How a read ended: the result and the buffer.
pub struct ReadOutcome {
    pub result: Result<Option<usize>, ErrorView>,
    pub buf: Seq<u8>,
}

/// The result and the buffer, once at most `steps` more operations are over.
pub open spec fn read_outcome(
    read: FileRead,
    host: HostFile,
    event: ReadEventView,
    buf: Seq<u8>,
    steps: nat,
) -> Option<ReadOutcome>
    decreases steps,
{
    if steps == 0 {
        None
    } else {
        let (phase, action) = next_read(read, event);
        match action {
            ReadActionView::Finish(result) => Some(ReadOutcome { result, buf }),
            _ => {
                let (after, filled, answer) = read_performed(host, action, buf);
                read_outcome(
                    FileRead { phase, ..read },
                    after,
                    answer,
                    filled,
                    (steps - 1) as nat,
                )
            },
        }
    }
}

/// On a host that does not fail, a read ends within four operations. It fills the
/// beginning of the buffer with the file's bytes from the offset on, or leaves the
/// buffer alone and says so where there is no file.
pub proof fn law_read_gives_the_file(read: FileRead, host: HostFile, buf: Seq<u8>)
    requires
        read.phase == ReadPhase::Start,
        read.limit <= buf.len(),
    ensures
        ({
            let end = read_outcome(read, host, ReadEventView::Done, buf, 4);
            &&& end is Some
            &&& match host.content {
                Some(content) if read.allowed => {
                    let bytes = portion(content, read.offset as nat, read.limit as nat);
                    &&& end->0.result == Ok::<Option<usize>, ErrorView>(Some(bytes.len() as usize))
                    &&& bytes.len() <= read.limit
                    &&& end->0.buf == bytes + buf.skip(bytes.len() as int)
                },
                _ => end->0.result == Ok::<Option<usize>, ErrorView>(None) && end->0.buf == buf,
            }
        }),
{
    reveal_with_fuel(read_outcome, 5);
}

/// The files of a host, by path.
pub type HostFiles = Map<Seq<char>, Seq<u8>>;

/// The file at a path of the host.
pub open spec fn file_at(files: HostFiles, path: Seq<char>) -> HostFile {
    HostFile {
        content: if files.dom().contains(path) {
            Some(files[path])
        } else {
            None
        },
        cursor: 0,
    }
}

/// The files of a host that does not fail, after an application changed one of its
/// own. A path that it may have no file at changes nothing.
pub open spec fn changed(
    files: HostFiles,
    base: Seq<char>,
    aid: Seq<char>,
    path: Seq<char>,
    job: FileJob,
    initial: Seq<u8>,
    data: Seq<u8>,
) -> HostFiles {
    match file_path(base, aid, path) {
        None => files,
        Some(place) => {
            let end = outcome(
                job,
                ChangePhase::Start,
                file_at(files, place),
                FileEventView::Done,
                initial,
                data,
                10,
            );
            files.insert(place, end->0.file.content->0)
        },
    }
}

/// What an application reads from a host that does not fail: the result and the
/// buffer.
pub open spec fn seen(
    files: HostFiles,
    base: Seq<char>,
    aid: Seq<char>,
    path: Seq<char>,
    offset: u64,
    limit: usize,
    buf: Seq<u8>,
) -> ReadOutcome {
    let place = file_path(base, aid, path);
    let read = FileRead { allowed: place is Some, offset, limit, phase: ReadPhase::Start };
    read_outcome(
        read,
        match place {
            Some(place) => file_at(files, place),
            None => HostFile { content: None, cursor: 0 },
        },
        ReadEventView::Done,
        buf,
        4,
    )->0
}

/// What one application writes or cuts, no other sees: its reads give what they
/// gave before, whatever paths the two name.
pub proof fn law_changes_stay_in_their_application(
    files: HostFiles,
    base: Seq<char>,
    aid: Seq<char>,
    path: Seq<char>,
    job: FileJob,
    initial: Seq<u8>,
    data: Seq<u8>,
    other_aid: Seq<char>,
    other_path: Seq<char>,
    offset: u64,
    limit: usize,
    buf: Seq<u8>,
)
    requires
        aid != other_aid,
    ensures
        seen(
            changed(files, base, aid, path, job, initial, data),
            base,
            other_aid,
            other_path,
            offset,
            limit,
            buf,
        ) == seen(files, base, other_aid, other_path, offset, limit, buf),
{
    let place = file_path(base, aid, path);
    let other = file_path(base, other_aid, other_path);
    if place is Some && place == other {
        law_applications_have_their_own_files(base, aid, path, other_aid, other_path);
    }
}

/// A file that an application never wrote is missing, whatever another one wrote:
/// reading it gives nothing and leaves the buffer alone.
pub proof fn law_unwritten_files_are_missing(
    files: HostFiles,
    base: Seq<char>,
    aid: Seq<char>,
    path: Seq<char>,
    job: FileJob,
    initial: Seq<u8>,
    data: Seq<u8>,
    other_aid: Seq<char>,
    other_path: Seq<char>,
    offset: u64,
    limit: usize,
    buf: Seq<u8>,
)
    requires
        aid != other_aid,
        file_path(base, other_aid, other_path) matches Some(place) ==> !files.dom().contains(place),
        limit <= buf.len(),
    ensures
        seen(
            changed(files, base, aid, path, job, initial, data),
            base,
            other_aid,
            other_path,
            offset,
            limit,
            buf,
        ) == (ReadOutcome { result: Ok(None), buf }),
{
    law_changes_stay_in_their_application(
        files,
        base,
        aid,
        path,
        job,
        initial,
        data,
        other_aid,
        other_path,
        offset,
        limit,
        buf,
    );
    let place = file_path(base, other_aid, other_path);
    let read = FileRead { allowed: place is Some, offset, limit, phase: ReadPhase::Start };
    let host = match place {
        Some(place) => file_at(files, place),
        None => HostFile { content: None, cursor: 0 },
    };
    law_read_gives_the_file(read, host, buf);
}

/// An application reads what it wrote: the bytes at the place it wrote them to.
pub proof fn law_reads_give_back_writes(
    files: HostFiles,
    base: Seq<char>,
    aid: Seq<char>,
    path: Seq<char>,
    offset: u64,
    initial: Seq<u8>,
    data: Seq<u8>,
    buf: Seq<u8>,
)
    requires
        file_path(base, aid, path) is Some,
        data.len() <= usize::MAX,
        data.len() <= buf.len(),
        (match file_at(files, file_path(base, aid, path)->0).content {
            Some(content) => content.len(),
            None => initial.len(),
        }) <= u64::MAX,
    ensures
        seen(
            changed(
                files,
                base,
                aid,
                path,
                FileJob::Write { offset, len: data.len() as usize },
                initial,
                data,
            ),
            base,
            aid,
            path,
            offset,
            data.len() as usize,
            buf,
        ) == (ReadOutcome {
            result: Ok(Some(data.len() as usize)),
            buf: data + buf.skip(data.len() as int),
        }),
{
    let place = file_path(base, aid, path)->0;
    let host = file_at(files, place);
    let job = FileJob::Write { offset, len: data.len() as usize };
    let after = changed(files, base, aid, path, job, initial, data);
    let old_content = match host.content {
        Some(content) => content,
        None => initial,
    };
    law_write_reaches_the_file(host, offset, initial, data);
    law_read_after_write(old_content, offset as nat, data);
    assert(file_at(after, place).content == Some(written(old_content, offset as nat, data)));
    let read = FileRead {
        allowed: true,
        offset,
        limit: data.len() as usize,
        phase: ReadPhase::Start,
    };
    law_read_gives_the_file(read, file_at(after, place), buf);
}

/// An application may have a file at a path exactly where its id is one that can have
/// files, the path does not begin with a slash, and some segment of the path moves but
/// none is `..`. The file lies in `fs` of the application's directory, under just the
/// segments that move.
pub proof fn law_files_lie_under_their_segments(aid: Seq<char>, path: Seq<char>)
    ensures
        file_segments(aid, path) is Some == {
            &&& names_directory(aid)
            &&& !(path.len() > 0 && path[0] == '/')
            &&& moving(split(path, '/')).len() > 0
            &&& !moving(split(path, '/')).contains(seq!['.', '.'])
        },
        file_segments(aid, path) matches Some(segments) ==> segments == home_segments(aid) + seq![
            seq!['f', 's'],
        ] + moving(split(path, '/')),
{
    assert(parent_segment() =~= seq!['.', '.']);
    assert(files_directory(aid) =~= home_segments(aid) + seq![seq!['f', 's']]);
}

/// The file of a plain path and of an id that can name a directory lies under both as
/// they are.
pub proof fn law_plain_files_lie_under_their_paths(
    base: Seq<char>,
    aid: Seq<char>,
    path: Seq<char>,
)
    requires
        aid.len() > 0,
        aid != seq!['.'],
        aid != seq!['.', '.'],
        forall|k: int|
            #![trigger aid[k]]
            0 <= k < aid.len() ==> aid[k] != '/' && aid[k] != '\\' && aid[k] != '\0',
        forall|i: int|
            0 <= i < split(path, '/').len() ==> is_plain(#[trigger] split(path, '/')[i]),
        base.len() > 0,
        base.last() != '/',
    ensures
        file_path(base, aid, path) == Some(
            base + seq!['/'] + aid + seq!['/', 'f', 's', '/'] + path,
        ),
{
    let parts = split(path, '/');
    lemma_split_nonempty(path, '/');
    law_names_are_kept_as_directories(aid);
    assert forall|i: int| 0 <= i < parts.len() implies !is_skipped(#[trigger] parts[i]) by {
        assert(is_plain(parts[i]));
    }
    lemma_moving_identity(parts);
    assert(parent_segment() =~= seq!['.', '.']);
    if parts.contains(parent_segment()) {
        let i = choose|i: int| 0 <= i < parts.len() && parts[i] == parent_segment();
        assert(is_plain(parts[i]));
    }
    if path.len() > 0 && path[0] == '/' {
        let none = Seq::<char>::empty();
        assert(path =~= none.push('/') + path.drop_first());
        law_splitting_goes_part_by_part(none, path.drop_first(), '/');
        assert(!none.contains('/'));
        law_one_segment_moves(none);
        assert(parts[0] == none);
        assert(is_plain(parts[0]));
    }
    let fs = seq!['f', 's'];
    let head = seq![aid, fs];
    assert(files_directory(aid) =~= head);
    lemma_join_behind(head, parts);
    law_join_split(path, '/');
    let first = seq![aid];
    assert(head.drop_last() =~= first);
    assert(join(first, '/') == aid);
    assert(head.last() == fs);
    assert(join(head, '/') == join(head.drop_last(), '/').push('/') + head.last());
    assert(join(head + parts, '/') =~= aid + seq!['/', 'f', 's', '/'] + path);
    assert(joined_path(base, join(head + parts, '/')) =~= base + seq!['/'] + aid + seq![
        '/',
        'f',
        's',
        '/',
    ] + path);
}

/// Whatever operation fails, the change or the read ends with the host's reason.
pub proof fn law_failures_end_the_operation(
    job: FileJob,
    phase: ChangePhase,
    read: FileRead,
    message: Seq<char>,
)
    ensures
        next_operation(job, phase, FileEventView::Failed(message)).1 == FileActionView::Finish(
            Err(ErrorView::FatalError("filesystem: "@ + message)),
        ),
        next_read(read, ReadEventView::Failed(message)).1 == ReadActionView::Finish(
            Err(ErrorView::FatalError("filesystem: "@ + message)),
        ),
{
}

/// The directories that a file lies in are made before anything is done with the file, and
/// a file that is there already is opened as it is: its initial content is not written.
pub proof fn law_files_that_are_there_keep_their_content(job: FileJob)
    ensures
        ({
            let first = next_operation(job, ChangePhase::Start, FileEventView::Done);
            let second = next_operation(job, first.0, FileEventView::Done);
            let there = next_operation(job, second.0, FileEventView::AlreadyExists);
            let opened = next_operation(job, there.0, FileEventView::Done);
            let created = next_operation(job, second.0, FileEventView::Done);
            &&& first.1 == FileActionView::CreateParents
            &&& second.1 == FileActionView::CreateNew
            &&& there.1 == FileActionView::OpenExisting
            &&& created.1 == FileActionView::WriteInitial
            &&& opened.1 != FileActionView::WriteInitial
            &&& next_operation(job, created.0, FileEventView::Done).1 == opened.1
        }),
{
}

/// An application's file of a plain path lies under that path, in `fs` of the directory of
/// its id, and no other id has a file there.
pub proof fn law_files_lie_under_their_paths(
    filesystem: &CliFilesystem,
    aid: &str,
    path: &str,
    other_aid: &str,
    other_path: &str,
    found: Option<String>,
    other: Option<String>,
)
    requires
        call_ensures(CliFilesystem::path_for, (filesystem, aid, path), found),
        call_ensures(CliFilesystem::path_for, (filesystem, other_aid, other_path), other),
        aid@.len() > 0,
        aid@ != seq!['.'],
        aid@ != seq!['.', '.'],
        forall|k: int|
            #![trigger aid@[k]]
            0 <= k < aid@.len() ==> aid@[k] != '/' && aid@[k] != '\\' && aid@[k] != '\0',
        forall|i: int|
            0 <= i < split(path@, '/').len() ==> is_plain(#[trigger] split(path@, '/')[i]),
        filesystem.base().len() > 0,
        filesystem.base().last() != '/',
    ensures
        found matches Some(place) && place@ == filesystem.base() + seq!['/'] + aid@ + seq![
            '/',
            'f',
            's',
            '/',
        ] + path@,
        aid@ != other_aid@ && other is Some ==> other->0@ != found->0@,
        other is Some && other->0@ == found->0@ ==> moving(split(other_path@, '/')) == moving(
            split(path@, '/'),
        ),
{
    law_plain_files_lie_under_their_paths(filesystem.base(), aid@, path@);
    if other is Some && other->0@ == found->0@ {
        law_applications_have_their_own_files(
            filesystem.base(),
            aid@,
            path@,
            other_aid@,
            other_path@,
        );
    }
}

/// An application has no file at a path that begins with a slash, climbs or names nothing.
pub proof fn law_no_file_lies_outside(
    filesystem: &CliFilesystem,
    aid: &str,
    path: &str,
    found: Option<String>,
)
    requires
        call_ensures(CliFilesystem::path_for, (filesystem, aid, path), found),
        path@.len() == 0 || path@[0] == '/' || split(path@, '/').contains(seq!['.', '.']),
    ensures
        found is None,
{
    law_files_lie_under_their_segments(aid@, path@);
    if path@.len() == 0 {
        assert(path@ =~= Seq::empty());
        law_one_segment_moves(path@);
    }
    if split(path@, '/').contains(seq!['.', '.']) {
        let parts = split(path@, '/');
        let k = choose|k: int| 0 <= k < parts.len() && parts[k] == seq!['.', '.'];
        let dots = seq!['.', '.'];
        assert(dots.len() == 2 && seq!['.'].len() == 1);
        assert(!is_skipped(parts[k]));
        parts.lemma_filter_contains(|segment: Seq<char>| !is_skipped(segment), k);
    }
}

/// A size is that of a file, as long as it fits; anything else than a file has none, and
/// only failures are failures.
pub proof fn law_only_files_have_sizes(
    len: u64,
    reason: String,
    size: Result<Option<usize>, WieError>,
    other: Result<Option<usize>, WieError>,
    missing: Result<Option<usize>, WieError>,
    failed: Result<Option<usize>, WieError>,
)
    requires
        call_ensures(size_of_status, (&FileStatus::File(len),), size),
        call_ensures(size_of_status, (&FileStatus::Other,), other),
        call_ensures(size_of_status, (&FileStatus::Missing,), missing),
        call_ensures(size_of_status, (&FileStatus::Failed(reason),), failed),
    ensures
        len <= usize::MAX ==> (size matches Ok(Some(bytes)) && bytes == len),
        len > usize::MAX ==> size is Err,
        other == Ok::<Option<usize>, WieError>(None),
        missing == Ok::<Option<usize>, WieError>(None),
        failed matches Err(error) && error@ == ErrorView::FatalError("filesystem: "@ + reason@),
{
}

/// A change to a file is asked for as it is meant: a write begins with its offset and the
/// number of its bytes and is refused exactly where it would reach beyond what a file can
/// have, and a read asks for no more than was asked for or than there is room.
pub proof fn law_operations_begin_as_they_are_meant(
    offset: usize,
    len: usize,
    count: usize,
    room: usize,
    allowed: bool,
    change: Result<FileChange, WieError>,
    cut: FileChange,
    read: FileRead,
)
    requires
        call_ensures(FileChange::write, (offset, len), change),
        call_ensures(FileChange::truncate, (len,), cut),
        call_ensures(FileRead::new, (allowed, offset, count, room), read),
    ensures
        change is Err == (offset + len > usize::MAX),
        change matches Ok(change) ==> change.phase == ChangePhase::Start && (change.job matches
            FileJob::Write { offset: at, len: bytes } && at == offset && bytes == len),
        cut.phase == ChangePhase::Start && (cut.job matches FileJob::Truncate { size } && size
            == len),
        read.allowed == allowed,
        read.offset == offset,
        read.limit <= count && read.limit <= room,
        read.limit == count || read.limit == room,
        read.phase == ReadPhase::Start,
{
}

/// No more is read than was asked for and than there is room, and no less than the smaller
/// of both is asked of the host.
pub proof fn law_reads_are_limited_by_both(count: usize, room: usize, limit: usize)
    requires
        call_ensures(read_limit, (count, room), limit),
    ensures
        limit <= count,
        limit <= room,
        limit == count || limit == room,
{
}

} // verus!

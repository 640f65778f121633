use std::collections::HashMap;

use wie::content::{read_into, resize, write_at};
use wie::database::{
    deleted, read_record, Database, DatabaseRepository, Entry, HostAnswer, Listing, RecordAction,
    RecordEntry, RecordEvent, RecordSearch,
};
use wie::error::WieError;
use wie::file_system::{normalize_guest_path, FilesystemOverlay};
use wie::filesystem::{
    io_error, read_limit, size_of_status, CliFilesystem, FileAction, FileChange, FileEvent, FileRead,
    FileStatus, ReadAction, ReadEvent,
};
use wie::memory_filesystem::MemoryFilesystem;

fn fatal(message: &str) -> WieError {
    WieError::FatalError(message.into())
}

#[derive(Default)]
struct StubFilesystem {
    files: HashMap<(String, String), Vec<u8>>,
    write_limit: Option<usize>,
    fail_truncate: bool,
}

impl StubFilesystem {
    fn key(aid: &str, path: &str) -> (String, String) {
        (aid.to_string(), path.to_string())
    }

    fn read(&self, aid: &str, path: &str, offset: usize, count: usize, buf: &mut [u8]) -> Option<usize> {
        let data = self.files.get(&Self::key(aid, path))?;
        if offset >= data.len() {
            return Some(0);
        }
        let n = std::cmp::min(count.min(buf.len()), data.len() - offset);
        buf[..n].copy_from_slice(&data[offset..offset + n]);
        Some(n)
    }

    fn write(&mut self, aid: &str, path: &str, offset: usize, data: &[u8], initial: &[u8]) -> usize {
        let write_len = self.write_limit.unwrap_or(data.len()).min(data.len());
        let file = self.files.entry(Self::key(aid, path)).or_insert_with(|| initial.to_vec());
        if file.len() < offset + write_len {
            file.resize(offset + write_len, 0);
        }
        file[offset..offset + write_len].copy_from_slice(&data[..write_len]);
        write_len
    }

    fn truncate(&mut self, aid: &str, path: &str, len: usize, initial: &[u8]) -> Result<(), WieError> {
        if self.fail_truncate {
            return Err(fatal("test truncate failure"));
        }
        let file = self.files.entry(Self::key(aid, path)).or_insert_with(|| initial.to_vec());
        file.resize(len, 0);
        Ok(())
    }
}

struct Files {
    overlay: FilesystemOverlay,
    platform: StubFilesystem,
}

impl Files {
    fn add_virtual(&mut self, path: &str, data: Vec<u8>) {
        self.overlay.add_virtual(path, data);
    }

    fn has(&self, path: &str) -> bool {
        let persistent = normalize_guest_path(path).is_some_and(|key| {
            self.platform.files.contains_key(&StubFilesystem::key(self.overlay.aid(), &key))
        });
        self.overlay.has_file(path, persistent)
    }

    fn size(&self, path: &str) -> Option<usize> {
        let persistent = normalize_guest_path(path).and_then(|key| {
            self.platform.files.get(&StubFilesystem::key(self.overlay.aid(), &key)).map(|v| v.len())
        });
        self.overlay.size(path, persistent)
    }

    fn read(&self, path: &str, offset: usize, count: usize, buf: &mut [u8]) -> Option<usize> {
        let persistent = normalize_guest_path(path)
            .and_then(|key| self.platform.read(self.overlay.aid(), &key, offset, count, buf));
        self.overlay.read(path, offset, count, persistent, buf)
    }

    fn write(&mut self, path: &str, offset: usize, data: &[u8]) -> Result<usize, WieError> {
        let target = self.overlay.change(path)?;
        Ok(self.platform.write(self.overlay.aid(), &target.key, offset, data, &target.initial))
    }

    fn truncate(&mut self, path: &str, len: usize) -> Result<(), WieError> {
        let target = self.overlay.change(path)?;
        self.platform.truncate(self.overlay.aid(), &target.key, len, &target.initial)
    }
}

fn setup() -> Files {
    setup_with_filesystem(StubFilesystem::default())
}

fn setup_with_filesystem(platform: StubFilesystem) -> Files {
    Files {
        overlay: FilesystemOverlay::new("test-aid"),
        platform,
    }
}

#[test]
fn add_then_read_virtual() {
    let mut fs = setup();
    fs.add_virtual("a.bin", vec![1, 2, 3, 4]);

    let mut buf = [0u8; 4];
    assert_eq!(fs.read("a.bin", 0, 4, &mut buf), Some(4));
    assert_eq!(buf, [1, 2, 3, 4]);
}

#[test]
fn size_falls_through_to_virtual() {
    let mut fs = setup();
    fs.add_virtual("x", vec![0; 17]);

    assert_eq!(fs.size("x"), Some(17));
    assert_eq!(fs.size("nope"), None);
}

#[test]
fn exists_checks_both_layers() {
    let mut fs = setup();
    fs.add_virtual("x", vec![1]);

    assert!(fs.has("x"));
    assert!(!fs.has("y"));

    fs.write("written", 0, &[9]).unwrap();
    assert!(fs.has("written"));
}

#[test]
fn leading_slash_normalized() {
    let mut fs = setup();
    fs.add_virtual("/a/b", vec![9]);

    assert!(fs.has("a/b"));
    assert!(fs.has("/a/b"));
}

#[test]
fn read_past_eof_virtual_returns_some_zero() {
    let mut fs = setup();
    fs.add_virtual("a", vec![1, 2, 3]);

    let mut buf = [0u8; 4];
    assert_eq!(fs.read("a", 10, 4, &mut buf), Some(0));
}

#[test]
fn read_missing_returns_none() {
    let fs = setup();
    let mut buf = [0u8; 4];
    assert_eq!(fs.read("nope", 0, 4, &mut buf), None);
}

#[test]
fn platform_write_shadows_virtual() {
    let mut fs = setup();
    fs.add_virtual("cfg.dat", vec![0xAA, 0xBB, 0xCC]);
    fs.write("cfg.dat", 0, &[1, 2, 3, 4]).unwrap();

    let mut buf = [0u8; 4];
    assert_eq!(fs.read("cfg.dat", 0, 4, &mut buf), Some(4));
    assert_eq!(buf, [1, 2, 3, 4]);
}

#[test]
fn first_persistent_write_materializes_virtual_prefix() {
    let mut fs = setup();
    fs.add_virtual("append.dat", vec![0xAA, 0xBB]);

    assert_eq!(fs.write("append.dat", 2, &[0xCC]).unwrap(), 1);

    let mut buf = [0u8; 3];
    assert_eq!(fs.read("append.dat", 0, 3, &mut buf), Some(3));
    assert_eq!(buf, [0xAA, 0xBB, 0xCC]);
}

#[test]
fn first_persistent_truncate_materializes_virtual_data() {
    let mut fs = setup();
    fs.add_virtual("truncate.dat", vec![1, 2, 3, 4]);

    fs.truncate("truncate.dat", 2).unwrap();

    let mut buf = [0u8; 2];
    assert_eq!(fs.read("truncate.dat", 0, 2, &mut buf), Some(2));
    assert_eq!(buf, [1, 2]);
}

#[test]
fn persistent_backend_exposes_short_writes_and_failed_truncation() {
    let mut short_write_fs = setup_with_filesystem(StubFilesystem {
        write_limit: Some(2),
        ..Default::default()
    });
    assert_eq!(short_write_fs.write("short.dat", 0, &[1, 2, 3, 4]).unwrap(), 2);

    let mut failed_truncate_fs = setup_with_filesystem(StubFilesystem {
        fail_truncate: true,
        ..Default::default()
    });
    assert_eq!(failed_truncate_fs.write("truncate.dat", 0, &[1, 2, 3, 4]).unwrap(), 4);
    assert!(failed_truncate_fs.truncate("truncate.dat", 2).is_err());
    assert_eq!(failed_truncate_fs.size("truncate.dat"), Some(4));
}

#[test]
fn invalid_paths_have_no_file_and_take_no_change() {
    let mut fs = setup();
    fs.add_virtual("../kept", vec![1]);
    for path in ["", "/", "a/", "a/../b", "a\\b", ".", "./."] {
        assert_eq!(normalize_guest_path(path), None);
        assert!(!fs.overlay.is_valid_path(path));
        assert!(!fs.overlay.has_file(path, true));
        assert_eq!(fs.overlay.size(path, Some(3)), None);
        assert_eq!(fs.write(path, 0, &[1]), Err(fatal("invalid file path")));
    }
    assert_eq!(fs.truncate("../kept", 0), Err(fatal("invalid file path")));
    assert_eq!(normalize_guest_path("//a/./b//c"), Some("a/b/c".into()));
    assert_eq!(normalize_guest_path("a/b/c"), Some("a/b/c".into()));
    assert_eq!(normalize_guest_path("..."), Some("...".into()));
}

#[test]
fn memory_files_read_what_was_written() {
    let mut files = MemoryFilesystem::new();
    assert!(!files.has_file("app", "f"));
    assert_eq!(files.size("app", "f"), None);
    let mut buf = [7u8; 6];
    assert_eq!(files.read("app", "f", 0, 6, &mut buf), None);
    assert_eq!(files.write("app", "f", 4, &[1, 2], &[9]), Ok(2));
    assert_eq!(files.size("app", "f"), Some(6));
    assert_eq!(files.read("app", "f", 0, 5, &mut buf), Some(5));
    assert_eq!(buf, [9, 0, 0, 0, 1, 7]);
    assert_eq!(files.read("app", "f", 6, 1, &mut buf), Some(0));
    assert_eq!(files.write("app", "f", 0, &[5], &[8, 8]), Ok(1));
    assert_eq!(files.read("app", "f", 0, 2, &mut buf), Some(2));
    assert_eq!(buf[..2], [5, 0]);
    files.truncate("app", "f", 2, &[]);
    assert_eq!(files.size("app", "f"), Some(2));
    files.truncate("app", "g", 3, &[4]);
    assert_eq!(files.read("app", "g", 0, 6, &mut buf), Some(3));
    assert_eq!(buf[..3], [4, 0, 0]);
    assert!(!files.has_file("other", "f"));
    assert_eq!(
        files.write("app", "f", usize::MAX, &[1], &[]),
        Err(fatal("file offset overflow"))
    );
}

#[test]
fn contents_are_written_resized_and_read() {
    let mut content = vec![1, 2, 3];
    write_at(&mut content, 1, &[9]);
    assert_eq!(content, vec![1, 9, 3]);
    write_at(&mut content, 5, &[7]);
    assert_eq!(content, vec![1, 9, 3, 0, 0, 7]);
    let mut buf = [0u8; 4];
    assert_eq!(read_into(&content, 4, 9, &mut buf), 2);
    assert_eq!(buf, [0, 7, 0, 0]);
    resize(&mut content, 1);
    assert_eq!(content, vec![1]);
    resize(&mut content, 2);
    assert_eq!(content, vec![1, 0]);
}

#[test]
fn files_stay_below_their_application() {
    let filesystem = CliFilesystem::new("/data".into());
    assert_eq!(filesystem.path_for("game", "a/./b"), Some("/data/game/fs/a/b".into()));
    assert_eq!(filesystem.path_for("..game", "a"), Some("/data/..game/fs/a".into()));
    assert_eq!(filesystem.path_for("a/b", "c"), Some("/data/_/id-97-47-98/fs/c".into()));
    assert_eq!(filesystem.path_for("ab", "c"), Some("/data/ab/fs/c".into()));
    for (aid, path) in [
        ("game", "../a"),
        ("game", "a/../b"),
        ("game", "/a"),
        ("game", ""),
        ("game", "."),
        ("", "a"),
        ("..", "a"),
        ("./", "a"),
    ] {
        assert_eq!(filesystem.path_for(aid, path), None);
    }
    let below = CliFilesystem::new(String::new());
    assert_eq!(below.path_for("game", "a"), Some("game/fs/a".into()));
}

#[test]
fn file_sizes_and_failures_are_told_apart() {
    assert_eq!(size_of_status(&FileStatus::File(12)), Ok(Some(12)));
    assert_eq!(size_of_status(&FileStatus::Other), Ok(None));
    assert_eq!(size_of_status(&FileStatus::Missing), Ok(None));
    assert_eq!(
        size_of_status(&FileStatus::Failed("denied".into())),
        Err(fatal("filesystem: denied"))
    );
    assert_eq!(io_error("denied"), fatal("filesystem: denied"));
    assert_eq!(read_limit(3, 5), 3);
    assert_eq!(read_limit(7, 5), 5);
}

/// A host file system with one file.
struct Host {
    content: Option<Vec<u8>>,
    cursor: usize,
}

impl Host {
    fn perform(&mut self, action: &FileAction, initial: &[u8], data: &[u8]) -> FileEvent {
        match action {
            FileAction::CreateNew => {
                if self.content.is_some() {
                    return FileEvent::AlreadyExists;
                }
                self.content = Some(Vec::new());
                self.cursor = 0;
            }
            FileAction::WriteInitial => self.put(initial),
            FileAction::Measure => {
                return FileEvent::Length(self.content.as_ref().unwrap().len() as u64)
            }
            FileAction::SetLength(len) => {
                self.content.as_mut().unwrap().resize(*len as usize, 0)
            }
            FileAction::SeekTo(offset) => self.cursor = *offset as usize,
            FileAction::WriteData => self.put(data),
            _ => {}
        }
        FileEvent::Done
    }

    fn put(&mut self, data: &[u8]) {
        let content = self.content.as_mut().unwrap();
        if content.len() < self.cursor + data.len() {
            content.resize(self.cursor + data.len(), 0);
        }
        content[self.cursor..self.cursor + data.len()].copy_from_slice(data);
        self.cursor += data.len();
    }

    fn run(&mut self, mut change: FileChange, initial: &[u8], data: &[u8]) -> Result<usize, WieError> {
        let mut event = FileEvent::Done;
        loop {
            let action = change.step(event);
            if let FileAction::Finish(result) = action {
                return result;
            }
            event = self.perform(&action, initial, data);
        }
    }
}

/// What an application reads from the host's files.
fn read_host(
    files: &HashMap<String, Vec<u8>>,
    place: Option<String>,
    offset: usize,
    count: usize,
    buf: &mut [u8],
) -> Result<Option<usize>, WieError> {
    let mut read = FileRead::new(place.is_some(), offset, count, buf.len());
    let content = place.and_then(|place| files.get(&place));
    let mut cursor = 0;
    let mut event = ReadEvent::Done;
    loop {
        event = match read.step(event) {
            ReadAction::Open if content.is_none() => ReadEvent::Missing,
            ReadAction::Open => ReadEvent::Done,
            ReadAction::SeekTo(offset) => {
                cursor = offset as usize;
                ReadEvent::Done
            }
            ReadAction::Read(limit) => {
                let rest = content.unwrap().get(cursor..).unwrap_or(&[]);
                let count = rest.len().min(limit);
                buf[..count].copy_from_slice(&rest[..count]);
                ReadEvent::Read(count)
            }
            ReadAction::Finish(result) => return result,
        };
    }
}

#[test]
fn what_one_application_writes_no_other_reads() {
    let rules = CliFilesystem::new("/data".into());
    let mut host = Host { content: None, cursor: 0 };
    assert_eq!(host.run(FileChange::write(0, 3).ok().unwrap(), &[], &[7, 8, 9]), Ok(3));
    let mut files = HashMap::new();
    files.insert(rules.path_for("ab", "x").unwrap(), host.content.unwrap());
    let mut buf = [1; 4];
    for other in ["a/b", "a\\b", "b", "_", ""] {
        assert_eq!(read_host(&files, rules.path_for(other, "x"), 0, 1, &mut buf), Ok(None));
    }
    assert_eq!(buf, [1; 4]);
    assert_eq!(read_host(&files, rules.path_for("ab", "x"), 1, 9, &mut buf), Ok(Some(2)));
    assert_eq!(buf, [8, 9, 1, 1]);
    assert_eq!(read_host(&files, rules.path_for("ab", "x"), 3, 1, &mut buf), Ok(Some(0)));
    assert_eq!(read_host(&files, rules.path_for("ab", "x"), 0, 1, &mut buf), Ok(Some(1)));
    assert_eq!(buf, [7, 9, 1, 1]);
    let mut read = FileRead::new(true, 0, 1, 1);
    read.step(ReadEvent::Done);
    let ReadAction::Finish(result) = read.step(ReadEvent::Failed("denied".into())) else {
        panic!("expected the end");
    };
    assert_eq!(result, Err(fatal("filesystem: denied")));
}

#[test]
fn file_changes_drive_the_host() {
    let mut host = Host { content: None, cursor: 0 };
    let change = FileChange::write(4, 2).ok().unwrap();
    assert_eq!(host.run(change, &[1, 2], &[8, 9]), Ok(2));
    assert_eq!(host.content, Some(vec![1, 2, 0, 0, 8, 9]));
    let change = FileChange::write(1, 1).ok().unwrap();
    assert_eq!(host.run(change, &[5], &[7]), Ok(1));
    assert_eq!(host.content, Some(vec![1, 7, 0, 0, 8, 9]));
    assert!(host.run(FileChange::truncate(3), &[], &[]).is_ok());
    assert_eq!(host.content, Some(vec![1, 7, 0]));
    assert_eq!(
        FileChange::write(usize::MAX, 1).err(),
        Some(fatal("file offset overflow"))
    );
    let mut change = FileChange::truncate(3);
    change.step(FileEvent::Done);
    let FileAction::Finish(result) = change.step(FileEvent::Failed("full".into())) else {
        panic!("expected the end");
    };
    assert_eq!(result, Err(fatal("filesystem: full")));
}

#[test]
fn database_path_includes_db_segment() {
    let repo = DatabaseRepository::new("/tmp/wie_test".into());
    let path = repo.get_path_for_database("records", "game123");
    assert_eq!(path, "/tmp/wie_test/game123/db/records");
}

#[test]
fn database_path_strips_guest_leading_slash() {
    let repo = DatabaseRepository::new("/tmp/wie_test".into());
    let path = repo.get_path_for_database("/save0.dat", "PD140106");
    assert_eq!(path, "/tmp/wie_test/PD140106/db/save0.dat");
}

#[test]
fn database_path_does_not_escape_app_scope() {
    let repo = DatabaseRepository::new("/tmp/wie_test".into());
    let path = repo.get_path_for_database("/../save0.dat", "PD140106");
    assert!(std::path::Path::new(&path)
        .starts_with(std::path::PathBuf::from("/tmp/wie_test/PD140106/db")));
    assert_eq!(path, "/tmp/wie_test/PD140106/db/_/save0.dat");
}

#[test]
fn unusable_database_names_are_replaced() {
    let repo = DatabaseRepository::new("base/".into());
    assert_eq!(repo.get_path_for_database("", "app"), "base/app/db/_");
    assert_eq!(repo.get_path_for_database("/.//", "app"), "base/app/db/_");
    assert_eq!(repo.get_path_for_database("a\\b\0c", ".."), "base/_/id-46-46/db/a_b_c");
    assert_eq!(repo.get_path_for_app_databases(""), "base/_/id/db");
    assert_eq!(repo.get_path_for_app_databases("a/b"), "base/_/id-97-47-98/db");
    assert_eq!(repo.get_path_for_app_databases("ab"), "base/ab/db");
    assert_eq!(Database::new("base/app/db/x".into()).get_path_for_record(17), "base/app/db/x/17");
}

#[test]
fn usage_adds_up_all_files() {
    let listing = Listing::Entries(vec![
        Entry::File(5),
        Entry::Other,
        Entry::Directory(Listing::Entries(vec![Entry::File(7), Entry::Directory(Listing::Missing)])),
    ]);
    assert_eq!(DatabaseRepository::directory_usage(&listing), Ok(12));
    assert_eq!(DatabaseRepository::directory_usage(&Listing::Missing), Ok(0));
    assert_eq!(
        DatabaseRepository::directory_usage(&Listing::Failed("denied".into())),
        Err(fatal("database: denied"))
    );
    let full = Listing::Entries(vec![Entry::File(u64::MAX), Entry::File(1)]);
    assert_eq!(
        DatabaseRepository::directory_usage(&full),
        Err(fatal("database usage overflow"))
    );
    let broken = Listing::Entries(vec![Entry::Failed("gone".into()), Entry::File(1)]);
    assert_eq!(DatabaseRepository::directory_usage(&broken), Err(fatal("database: gone")));
}

fn search(present: &[u32], adding: bool) -> (Result<u32, WieError>, Vec<u32>) {
    let mut stored = Vec::new();
    let mut search = RecordSearch::new(adding);
    let mut action = RecordAction::Probe(1);
    loop {
        let event = match &action {
            RecordAction::Probe(id) => {
                if present.contains(id) {
                    RecordEvent::Present
                } else {
                    RecordEvent::Absent
                }
            }
            RecordAction::Store(id) => {
                stored.push(*id);
                RecordEvent::Stored
            }
            RecordAction::Finish(_) => break,
        };
        action = search.step(event);
    }
    let RecordAction::Finish(result) = action else {
        panic!("expected the end");
    };
    (result, stored)
}

#[test]
fn records_get_the_first_free_number() {
    assert_eq!(search(&[1, 2, 4], false), (Ok(3), vec![]));
    assert_eq!(search(&[], true), (Ok(1), vec![1]));
    let mut last = RecordSearch { id: u32::MAX, adding: true, storing: true };
    let RecordAction::Finish(result) = last.step(RecordEvent::Present) else {
        panic!("expected the end");
    };
    assert_eq!(result, Err(fatal("record IDs exhausted")));
    let mut raced = RecordSearch { id: 3, adding: true, storing: true };
    assert!(matches!(raced.step(RecordEvent::Present), RecordAction::Store(4)));
    let RecordAction::Finish(result) = raced.step(RecordEvent::Failed("full".into())) else {
        panic!("expected the end");
    };
    assert_eq!(result, Err(fatal("database: full")));
}

#[test]
fn record_files_are_listed() {
    let listed = Database::get_record_ids(&vec![
        RecordEntry::File(Some("12".into())),
        RecordEntry::Other,
        RecordEntry::File(Some("3".into())),
    ]);
    assert_eq!(listed, Ok(vec![12, 3]));
    for name in [Some("x".to_string()), Some("4294967296".to_string()), Some(String::new()), None] {
        assert_eq!(
            Database::get_record_ids(&vec![RecordEntry::File(name)]),
            Err(fatal("invalid record filename"))
        );
    }
    assert_eq!(
        Database::get_record_ids(&vec![RecordEntry::Failed("gone".into())]),
        Err(fatal("database: gone"))
    );
    assert_eq!(read_record(HostAnswer::Done(vec![1])), Ok(Some(vec![1])));
    assert_eq!(read_record(HostAnswer::Missing), Ok(None));
    assert_eq!(read_record(HostAnswer::Failed("x".into())), Err(fatal("database: x")));
    assert_eq!(deleted(HostAnswer::Done(())), Ok(true));
    assert_eq!(deleted(HostAnswer::Missing), Ok(false));
    assert_eq!(deleted(HostAnswer::Failed("x".into())), Err(fatal("database: x")));
}

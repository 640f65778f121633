use wie::audio::{
    convert_smaf_events, Audio, AudioCommand, AudioEventData, AudioSink, TimedAudioEvent,
};
use wie::content::{read_into, write_at};
use wie::copy::{plan, Clip, CopyPlan, CopyRequest};
use wie::database::{Database, DatabaseRepository};
use wie::file_system::{normalize_guest_path, FilesystemOverlay};
use wie::filesystem::CliFilesystem;
use wie::framebuffer::{FrameBuffer, Layout, WIPICFramebuffer};
use wie::guest_memory::WIPICIndirectPtr;
use wie::memory_filesystem::MemoryFilesystem;
use wie::number::{decimal_chars, parse_u32};
use wie::pixel_format::{ArgbPixel, Color, Rgb565Pixel};
use wie::smaf::SmafEvent;
use wie::store::WebDatabase;
use wie::svc::svc_target;
use wie::text::{chars_of, join_with, split_at_each};
use wie::transport::encode_event;

#[test]
fn splitting_and_joining_undo_each_other() {
    for text in ["", "/", "a", "a/b", "/a//b/"] {
        let parts = split_at_each(&chars_of(text), '/');
        assert_eq!(join_with(&parts, '/'), chars_of(text));
        assert_eq!(split_at_each(&join_with(&parts, '/'), '/'), parts);
    }
}

#[test]
fn keys_are_stable_and_leading_slashes_do_not_count() {
    for path in ["a/./b", "//x//y", "res/.../z"] {
        let key = normalize_guest_path(path).unwrap();
        assert_eq!(normalize_guest_path(&key), Some(key.clone()));
        assert_eq!(normalize_guest_path(&format!("/{path}")), Some(key.clone()));
        assert!(key.split('/').all(|part| !part.is_empty() && part != "." && part != ".."));
    }
}

#[test]
fn keys_mean_files() {
    let files = CliFilesystem::new("/base".into());
    for path in ["/a", "a//b/./c", "..."] {
        let key = normalize_guest_path(path).unwrap();
        assert_eq!(files.path_for("app", &key), Some(format!("/base/app/fs/{key}")));
    }
}

#[test]
fn applications_do_not_share_files_or_databases() {
    let files = CliFilesystem::new("/base".into());
    let databases = DatabaseRepository::new("/base".into());
    assert_eq!(files.path_for("a", "x/./y"), files.path_for("a", "x//y"));
    assert_ne!(files.path_for("a", "b/fs/c"), files.path_for("a/b", "c"));
    let ids = ["a", "/a", "a/", "ab", "a/b", "a\\b", "a\0b", "_", "id-97-47-98", "..a"];
    for (i, id) in ids.iter().enumerate() {
        for other in &ids[i + 1..] {
            assert!(files.path_for(id, "x").is_some());
            assert_ne!(files.path_for(id, "x"), files.path_for(other, "x"));
        }
    }
    for (i, id) in ids.iter().chain(["", ".", "..", "/", "db"].iter()).enumerate() {
        for other in ids.iter().chain(["", ".", "..", "/", "db"].iter()).skip(i + 1) {
            assert_ne!(databases.get_path_for_database("x", id), databases.get_path_for_database("x", other));
            assert_ne!(databases.get_path_for_app_databases(id), databases.get_path_for_app_databases(other));
        }
    }
    assert_ne!(
        databases.get_path_for_database("db/x", "a"),
        databases.get_path_for_database("x", "a/db")
    );
    let database = Database::new("/base/a/db/x".into());
    assert_ne!(database.get_path_for_record(1), database.get_path_for_record(11));
}

#[test]
fn decimal_numbers_are_read_back() {
    for number in [0, 9, 10, 4_294_967_295] {
        assert_eq!(parse_u32(&decimal_chars(number)), Some(number));
        let key = WebDatabase::new("p").record_key(number);
        let wie::store::StoreKey::String(key) = key else {
            panic!("expected a text");
        };
        assert_eq!(WebDatabase::new("p").get_record_ids(&vec![key]), vec![number]);
    }
}

#[test]
fn reads_give_back_what_was_written_and_the_rest_is_kept() {
    let mut content = vec![1, 2, 3];
    write_at(&mut content, 5, &[8, 9]);
    let mut buf = [0; 2];
    assert_eq!(read_into(&content, 5, 2, &mut buf), 2);
    assert_eq!(buf, [8, 9]);
    assert_eq!(content[..5], [1, 2, 3, 0, 0]);
}

#[test]
fn the_overlay_shows_what_the_backend_and_the_resources_hold() {
    let mut overlay = FilesystemOverlay::new("app");
    let mut backend = MemoryFilesystem::new();
    overlay.add_virtual("/res/a", vec![1, 2, 3]);
    let seen = |overlay: &FilesystemOverlay, backend: &MemoryFilesystem| {
        let mut buf = [0; 8];
        let persistent = backend.read("app", "res/a", 0, 8, &mut buf);
        let count = overlay.read("res/a", 0, 8, persistent, &mut buf);
        count.map(|count| buf[..count].to_vec())
    };
    assert_eq!(seen(&overlay, &backend), Some(vec![1, 2, 3]));
    let target = overlay.change("res/a").ok().unwrap();
    backend.write("app", &target.key, 1, &[9], &target.initial).unwrap();
    assert_eq!(seen(&overlay, &backend), Some(vec![1, 9, 3]));
    let target = overlay.change("/res//a").ok().unwrap();
    backend.truncate("app", &target.key, 2, &target.initial);
    assert_eq!(seen(&overlay, &backend), Some(vec![1, 9]));
    assert!(!backend.has_file("other", "res/a"));
}

#[test]
fn colors_survive_their_round_trips() {
    let color = Color { a: 255, r: 17, g: 34, b: 51 };
    assert_eq!(ArgbPixel::to_color(ArgbPixel::from_color(color)), color);
    for word in [0u16, 0x8410, 0xffff] {
        assert_eq!(Rgb565Pixel::from_color(Rgb565Pixel::to_color(word)), word);
        let once = Rgb565Pixel::xor_color(word, color);
        assert_eq!(Rgb565Pixel::xor_color(once, color), word);
    }
    let once = ArgbPixel::xor_color(0x7f00_0001, color);
    assert_eq!(once >> 24, 0x7f);
    assert_eq!(ArgbPixel::xor_color(once, color), 0x7f00_0001);
}

#[test]
fn visible_rectangles_lie_in_both_framebuffers_and_the_clip() {
    let buffer = FrameBuffer(WIPICFramebuffer {
        width: 20,
        height: 20,
        bpl: 40,
        bpp: 16,
        buf: WIPICIndirectPtr(0),
    });
    let near = Layout { address: 0, size: 800, row_bytes: 40 };
    let far = Layout { address: 800, size: 800, row_bytes: 40 };
    for x in -25..25 {
        let request = CopyRequest {
            x,
            y: 3,
            width: 9,
            height: 4,
            source_x: 15,
            source_y: -1,
            clip: Clip { x: 2, y: 0, width: 10, height: 5 },
        };
        match plan(request, &buffer, near, &buffer, far) {
            CopyPlan::Rows(area) => {
                assert!(area.source_x + area.width <= 20 && area.x >= 2 && area.x + area.width <= 12);
                assert!(area.source_y == 0 && area.y == 4 && area.height == 1);
                assert_eq!(area.x as i32 - x, area.source_x as i32 - 15);
            }
            other => {
                assert_eq!(other, CopyPlan::Nothing);
                assert!(x + 5 <= 2 || x >= 12);
            }
        }
    }
}

#[test]
fn supervisor_call_ids_are_their_targets() {
    for id in [0, 0xffff, 0x1_0000, 0xdead_beef] {
        let target = svc_target(id);
        assert_eq!(target.table * 0x1_0000 + target.function as u32, id);
    }
}

#[test]
fn events_end_with_their_sequence_and_keep_apart() {
    let sequence = convert_smaf_events(vec![
        (8, SmafEvent::MidiSysEx(vec![1])),
        (3, SmafEvent::MidiSysEx(vec![2])),
    ]);
    assert!(sequence.events.iter().all(|event| event.time <= sequence.duration));
    let a = TimedAudioEvent { time: 1, data: AudioEventData::Midi(vec![1]) };
    let b = TimedAudioEvent { time: 1, data: AudioEventData::Midi(vec![2]) };
    assert_ne!(encode_event(&a), encode_event(&b));
}

struct SilentSink;

impl AudioSink for SilentSink {
    fn send(&mut self, _: AudioCommand) {}
}

#[test]
fn handles_are_not_given_out_again() {
    let mut audio = Audio::new(SilentSink);
    let first = audio.load_events(Vec::new()).unwrap();
    audio.close(first).unwrap();
    assert_ne!(audio.load_events(Vec::new()).unwrap(), first);
    assert!(audio.play(first, false).is_err());
}

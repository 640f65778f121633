use wie::error::WieError;
use wie::gdb::{
    close_warning, start_error, GdbServer, ServerAction, ServerEvent, Session, SessionAction, SessionEnd,
    SessionEvent,
};
use wie::number::{decimal_chars, hex_chars, parse_u32};
use wie::options::{Options, ProfileSample};
use wie::store::{
    accept_read, database_name, holds_database, make_key, script_error, StoreKey, WebDatabase,
};
use wie::svc::{read_parameters, svc_route, svc_target, SvcRoute, SvcTarget};
use wie::system::System;
use wie::thread::may_poll_thread;
use wie::window::{paint_plan, FrameSize, PaintPlan};

fn fatal(message: &str) -> WieError {
    WieError::FatalError(message.into())
}

fn strings(values: &[&str]) -> Vec<String> {
    values.iter().map(|value| value.to_string()).collect()
}

#[test]
fn records_are_found_by_their_keys() {
    let database = WebDatabase::new("save");
    assert_eq!(database.record_key(42), StoreKey::String("save42".into()));
    let keys = strings(&["save1", "other2", "save10", "savex", "save", "save+3"]);
    let ids = database.get_record_ids(&keys);
    assert_eq!(ids, vec![1, 10, 3]);
    assert_eq!(database.next_id(&ids), Ok(11));
    assert_eq!(database.next_id(&Vec::new()), Ok(1));
    assert_eq!(database.next_id(&vec![u32::MAX]), Err(fatal("record IDs exhausted")));
    assert!(holds_database(&keys, "oth"));
    assert!(!holds_database(&keys, "none"));
    assert_eq!(database_name("app"), "wie_app");
    assert_eq!(make_key("app", "a/b"), StoreKey::Pair("app".into(), "a/b".into()));
}

#[test]
fn store_reads_must_fit_what_was_asked_for() {
    let mut buf = [9u8; 3];
    assert_eq!(accept_read(None, 3, &mut buf), Ok(None));
    assert_eq!(accept_read(Some(vec![1, 2]), 5, &mut buf), Ok(Some(2)));
    assert_eq!(buf, [1, 2, 9]);
    assert_eq!(
        accept_read(Some(vec![1, 2]), 1, &mut buf),
        Err(fatal("storage read exceeded output length"))
    );
    assert_eq!(
        accept_read(Some(vec![0; 4]), 9, &mut buf),
        Err(fatal("storage read exceeded output length"))
    );
    assert_eq!(script_error(Some("a".into()), Some("b".into())), fatal("a"));
    assert_eq!(script_error(None, Some("b".into())), fatal("b"));
    assert_eq!(script_error(None, None), fatal("JavaScript storage operation failed"));
}

#[test]
fn frames_are_made_anew_when_the_size_changes() {
    let canvas = FrameSize { width: 240, height: 320 };
    assert_eq!(
        paint_plan(false, None, canvas),
        PaintPlan { fetch_context: true, new_frame: true }
    );
    assert_eq!(
        paint_plan(true, Some(canvas), canvas),
        PaintPlan { fetch_context: false, new_frame: false }
    );
    assert_eq!(
        paint_plan(true, Some(FrameSize { width: 240, height: 319 }), canvas),
        PaintPlan { fetch_context: false, new_frame: true }
    );
}

#[test]
fn supervisor_calls_are_routed() {
    let interfaces = SvcTarget { table: 1, function: 2 };
    assert_eq!(svc_target(0x0003_0004), SvcTarget { table: 3, function: 4 });
    assert_eq!(svc_route(0x0001_0002, interfaces, false), Ok(SvcRoute::Interfaces));
    assert_eq!(
        svc_route(0x0001_0003, interfaces, true),
        Ok(SvcRoute::Method(SvcTarget { table: 1, function: 3 }))
    );
    assert_eq!(
        svc_route(0x0001_00ff, interfaces, false),
        Err(fatal("Unknown KTF WIPIC SVC id 0x100ff"))
    );
    let parameters = read_parameters(|index: usize| Ok(index as u32 * 2));
    assert_eq!(parameters, Ok(vec![0, 2, 4, 6, 8, 10, 12, 14, 16]));
    let failed = read_parameters(|index: usize| {
        if index == 3 || index == 8 {
            Err(WieError::InvalidMemoryAccess(index as u32))
        } else {
            Ok(0)
        }
    });
    assert_eq!(failed, Err(WieError::InvalidMemoryAccess(3)));
    assert!(may_poll_thread(None));
    assert!(may_poll_thread(Some(true)));
    assert!(!may_poll_thread(Some(false)));
}

fn text(value: &str) -> String {
    value.to_string()
}

fn printed(lines: &[&str]) -> ServerAction {
    ServerAction::Print(strings(lines))
}

#[test]
fn the_debug_server_serves_one_client_after_another() {
    let mut server = GdbServer::new();
    assert_eq!(
        server.step(ServerEvent::Address(text("127.0.0.1:2159"))),
        printed(&["GDB server listening on 127.0.0.1:2159"])
    );
    assert_eq!(server.step(ServerEvent::Done), ServerAction::CheckStopped);
    assert_eq!(server.step(ServerEvent::Stopped(false)), ServerAction::Accept);
    assert_eq!(server.step(ServerEvent::WouldBlock), ServerAction::Pause(50));
    assert_eq!(server.step(ServerEvent::Done), ServerAction::CheckStopped);
    assert_eq!(server.step(ServerEvent::Stopped(false)), ServerAction::Accept);
    assert_eq!(server.step(ServerEvent::Interrupted), ServerAction::CheckStopped);
    for end in [SessionEnd::Disconnect, SessionEnd::Failed(text("lost"))] {
        let failed = end != SessionEnd::Disconnect;
        assert_eq!(server.step(ServerEvent::Stopped(false)), ServerAction::Accept);
        assert_eq!(server.step(ServerEvent::Accepted(text("peer"))), ServerAction::Claim);
        assert_eq!(server.step(ServerEvent::Done), printed(&["GDB client attached from peer"]));
        assert_eq!(server.step(ServerEvent::Done), ServerAction::RunSession);
        let action = server.step(ServerEvent::Ended(end));
        if failed {
            assert_eq!(action, ServerAction::Warn(text("GDB session ended: lost")));
            assert_eq!(
                server.step(ServerEvent::Done),
                printed(&["GDB server waiting for next client"])
            );
        } else {
            assert_eq!(
                action,
                printed(&[
                    "GDB client requested detach",
                    "GDB client detached",
                    "GDB server waiting for next client",
                ])
            );
        }
        assert_eq!(server.step(ServerEvent::Done), ServerAction::CheckStopped);
    }
    assert_eq!(server.step(ServerEvent::Stopped(true)), ServerAction::Finish(Ok(())));
}

#[test]
fn the_target_ends_the_debug_server() {
    for (end, line) in [
        (SessionEnd::TargetExited(3), "GDB session ended: target exited with code 3"),
        (
            SessionEnd::TargetTerminated(text("SIGKILL")),
            "GDB session ended: target terminated with signal SIGKILL",
        ),
        (SessionEnd::Kill, "GDB session ended: kill requested"),
    ] {
        let mut server = GdbServer::new();
        server.step(ServerEvent::Address(text("here")));
        server.step(ServerEvent::Done);
        server.step(ServerEvent::Stopped(false));
        server.step(ServerEvent::Accepted(text("peer")));
        server.step(ServerEvent::Done);
        server.step(ServerEvent::Done);
        assert_eq!(server.step(ServerEvent::Ended(end)), printed(&[line]));
        assert_eq!(server.step(ServerEvent::Done), ServerAction::Finish(Ok(())));
    }
    let mut server = GdbServer::new();
    assert_eq!(
        server.step(ServerEvent::Failed(text("no address"))),
        ServerAction::Finish(Err(text("no address")))
    );
}

#[test]
fn sessions_end_as_the_target_does() {
    // What the session is answered after its pause, and what it asks for then.
    let run = |events: Vec<SessionEvent>| {
        let mut session = Session::new();
        assert_eq!(session.step(SessionEvent::Done), SessionAction::Pause);
        assert_eq!(session.step(SessionEvent::Done), SessionAction::CheckStopped);
        events.into_iter().map(|event| session.step(event)).collect::<Vec<_>>()
    };
    let exited = || SessionAction::Finish(SessionEnd::TargetExited(0));
    let failed = |message: &str| SessionEnd::Failed(text(message));
    let stopped = SessionEvent::Stopped;
    assert_eq!(run(vec![stopped(true)]), vec![exited()]);
    assert_eq!(
        run(vec![stopped(false), SessionEvent::Failed(text("busy"))]),
        vec![SessionAction::Clear, SessionAction::Finish(failed("busy"))]
    );
    let served = |end: SessionEnd, rest: Vec<SessionEvent>| {
        let mut events = vec![stopped(false), SessionEvent::Done, SessionEvent::Ran(end)];
        events.extend(rest);
        let mut actions = run(events);
        let last = actions.pop().unwrap();
        assert_eq!(
            actions[..3],
            [SessionAction::Clear, SessionAction::Run, SessionAction::CheckStopped]
        );
        (actions.split_off(3), last)
    };
    assert_eq!(served(failed("y"), vec![stopped(true)]), (vec![], exited()));
    assert_eq!(
        served(SessionEnd::Kill, vec![stopped(false), SessionEvent::Failed(text("x"))]),
        (vec![SessionAction::Detach], SessionAction::Finish(failed("Failed to detach GDB: x")))
    );
    assert_eq!(
        served(failed("y"), vec![stopped(false), SessionEvent::Done]),
        (vec![SessionAction::Detach], SessionAction::Finish(failed("y")))
    );
    assert_eq!(
        served(SessionEnd::Kill, vec![stopped(false), SessionEvent::Done]),
        (vec![SessionAction::Detach], SessionAction::Finish(SessionEnd::Kill))
    );
    assert_eq!(close_warning(true, "gone"), None);
    assert_eq!(
        close_warning(false, "gone"),
        Some(text("Failed to close GDB connection: gone"))
    );
    assert_eq!(start_error("taken"), fatal("Failed to start GDB server: taken"));
}

#[test]
fn numbers_are_written_and_read() {
    let text = |chars: Vec<char>| chars.into_iter().collect::<String>();
    assert_eq!(text(decimal_chars(0)), "0");
    assert_eq!(text(decimal_chars(u32::MAX)), "4294967295");
    assert_eq!(text(hex_chars(0xabc0)), "0xabc0");
    let parse = |digits: &str| parse_u32(&digits.chars().collect());
    assert_eq!(parse("4294967295"), Some(u32::MAX));
    assert_eq!(parse("+7"), Some(7));
    assert_eq!(parse("-7"), None);
    assert_eq!(parse("+"), None);
}

struct SilentSink;

impl wie::audio::AudioSink for SilentSink {
    fn send(&mut self, _: wie::audio::AudioCommand) {}
}

#[test]
fn a_system_shuts_down_for_good() {
    let mut system: System<SilentSink, u8> = System::new(SilentSink, "pid", "aid");
    assert_eq!((system.pid(), system.aid(), system.random_state()), ("pid", "aid", 1));
    system.set_random_state(9);
    assert_eq!(system.random_state(), 9);
    assert_eq!(system.executor.spawn(), 1);
    let handle = system.audio.load_smaf(&[]).unwrap();
    system.audio.play(handle, true).unwrap();
    system.events.push(4);
    assert_eq!(system.shutdown(), vec![4]);
    assert!(system.executor.is_stopped());
    assert_eq!(system.executor.spawn(), 0);
    assert!(system.audio.play(handle, true).is_err());
    assert!(system.events.is_empty());
}

struct RecordingSink(std::rc::Rc<std::cell::RefCell<Vec<wie::audio::AudioCommand>>>);

impl wie::audio::AudioSink for RecordingSink {
    fn send(&mut self, command: wie::audio::AudioCommand) {
        self.0.borrow_mut().push(command);
    }
}

#[test]
fn a_shutdown_silences_all_sounds_in_order() {
    let commands = std::rc::Rc::new(std::cell::RefCell::new(Vec::new()));
    let mut system: System<RecordingSink, u8> = System::new(RecordingSink(commands.clone()), "pid", "aid");
    for _ in 0..3 {
        system.audio.load_smaf(&[]).unwrap();
    }
    system.audio.play(2, true).unwrap();
    system.audio.play(0, false).unwrap();
    commands.borrow_mut().clear();
    system.shutdown();
    let stop = |handle| wie::audio::AudioCommand::Stop { handle };
    let unregister = |id| wie::audio::AudioCommand::Unregister { id: wie::audio::AudioSequenceId(id) };
    assert_eq!(
        *commands.borrow(),
        vec![stop(0), stop(2), unregister(1), unregister(2), unregister(3)]
    );
    system.shutdown();
    assert_eq!(commands.borrow().len(), 5);
}

#[test]
fn options_hold_what_a_runtime_is_started_with() {
    let options = Options { enable_gdbserver: true, profile: Some(ProfileSample { stack: vec![1], count: 2 }) };
    assert!(options.enable_gdbserver);
    assert_eq!(options.profile, Some(ProfileSample { stack: vec![1], count: 2 }));
}

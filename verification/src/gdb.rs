//! The debug server: what it does with clients and with what they end with.
//!
//! Sockets, the debugged core and the protocol live outside. This module decides
//! what comes next.

use crate::error::{fatal_with, ErrorView, WieError};
use crate::number::{decimal, decimal_chars};
use crate::text::{append_chars, chars_of, concatenated, string_of};
use vstd::prelude::*;

verus! {

/// The milliseconds that the server waits before it looks for a client again.
pub const ACCEPT_PAUSE_MILLIS: u64 = 50;

/// How a session ended.
#[derive(Debug, PartialEq, Eq)]
pub enum SessionEnd {
    /// The client detached.
    Disconnect,
    /// The target exited with this code.
    TargetExited(u8),
    /// The target was terminated by this signal.
    TargetTerminated(String),
    /// The client asked to kill the target.
    Kill,
    /// The session failed; the text says why.
    Failed(String),
}

/// The meaning of a [`SessionEnd`].
pub enum SessionEndView {
    Disconnect,
    TargetExited(u8),
    TargetTerminated(Seq<char>),
    Kill,
    Failed(Seq<char>),
}

impl View for SessionEnd {
    type V = SessionEndView;

    open spec fn view(&self) -> SessionEndView {
        match self {
            SessionEnd::Disconnect => SessionEndView::Disconnect,
            SessionEnd::TargetExited(code) => SessionEndView::TargetExited(*code),
            SessionEnd::TargetTerminated(signal) => SessionEndView::TargetTerminated(signal@),
            SessionEnd::Kill => SessionEndView::Kill,
            SessionEnd::Failed(message) => SessionEndView::Failed(message@),
        }
    }
}

/// What a server waits for.
#[derive(Clone, Copy, Debug, PartialEq, Eq, Structural)]
pub enum ServerPhase {
    /// For its own address.
    Start,
    /// For what it printed or the pause it took.
    Idle,
    /// For whether the target was stopped.
    Checking,
    /// For a client.
    Accepting,
    /// For the client's connection to be kept where a shutdown finds it.
    Claiming,
    /// For the greeting to be printed.
    Greeting,
    /// For the session to end.
    Session,
    /// For the warning about a failed session.
    Warning,
    /// For its last words.
    Leaving,
    /// For nothing: the server is over.
    Over,
}

/// What a server asks for.
#[derive(Debug, PartialEq, Eq)]
pub enum ServerAction {
    /// Print these lines.
    Print(Vec<String>),
    /// Warn that a session failed.
    Warn(String),
    /// Look whether the target was stopped.
    CheckStopped,
    /// Accept a client, if there is one.
    Accept,
    /// Wait this many milliseconds, or until woken.
    Pause(u64),
    /// Keep the client's connection where a shutdown finds it, unless the target
    /// was stopped.
    Claim,
    /// Run a session with the client, and forget its connection then.
    RunSession,
    /// The server is over. An error's text says why.
    Finish(Result<(), String>),
}

/// The answer to a [`ServerAction`].
#[derive(Debug, PartialEq, Eq)]
pub enum ServerEvent {
    /// What was asked for was done.
    Done,
    /// The server's address.
    Address(String),
    /// Whether the target was stopped.
    Stopped(bool),
    /// A client, at this address.
    Accepted(String),
    /// There is no client.
    WouldBlock,
    /// The call was interrupted.
    Interrupted,
    /// The session ended.
    Ended(SessionEnd),
    /// What was asked for failed; the text says why.
    Failed(String),
}

/// The meaning of a [`ServerAction`].
pub enum ServerActionView {
    Print(Seq<Seq<char>>),
    Warn(Seq<char>),
    CheckStopped,
    Accept,
    Pause(u64),
    Claim,
    RunSession,
    Finish(Result<(), Seq<char>>),
}

/// The meaning of a [`ServerEvent`].
pub enum ServerEventView {
    Done,
    Address(Seq<char>),
    Stopped(bool),
    Accepted(Seq<char>),
    WouldBlock,
    Interrupted,
    Ended(SessionEndView),
    Failed(Seq<char>),
}

/// The views of lines.
pub open spec fn line_views(lines: Seq<String>) -> Seq<Seq<char>> {
    lines.map_values(|line: String| line@)
}

impl View for ServerAction {
    type V = ServerActionView;

    open spec fn view(&self) -> ServerActionView {
        match self {
            ServerAction::Print(lines) => ServerActionView::Print(line_views(lines@)),
            ServerAction::Warn(text) => ServerActionView::Warn(text@),
            ServerAction::CheckStopped => ServerActionView::CheckStopped,
            ServerAction::Accept => ServerActionView::Accept,
            ServerAction::Pause(millis) => ServerActionView::Pause(*millis),
            ServerAction::Claim => ServerActionView::Claim,
            ServerAction::RunSession => ServerActionView::RunSession,
            ServerAction::Finish(Ok(())) => ServerActionView::Finish(Ok(())),
            ServerAction::Finish(Err(text)) => ServerActionView::Finish(Err(text@)),
        }
    }
}

impl View for ServerEvent {
    type V = ServerEventView;

    open spec fn view(&self) -> ServerEventView {
        match self {
            ServerEvent::Done => ServerEventView::Done,
            ServerEvent::Address(text) => ServerEventView::Address(text@),
            ServerEvent::Stopped(stopped) => ServerEventView::Stopped(*stopped),
            ServerEvent::Accepted(text) => ServerEventView::Accepted(text@),
            ServerEvent::WouldBlock => ServerEventView::WouldBlock,
            ServerEvent::Interrupted => ServerEventView::Interrupted,
            ServerEvent::Ended(end) => ServerEventView::Ended(end@),
            ServerEvent::Failed(text) => ServerEventView::Failed(text@),
        }
    }
}

/// What is said about the end of a session, and whether the server goes on.
pub open spec fn farewell(end: SessionEndView) -> (Seq<Seq<char>>, bool) {
    match end {
        SessionEndView::Disconnect => (
            seq![
                "GDB client requested detach"@,
                "GDB client detached"@,
                "GDB server waiting for next client"@,
            ],
            true,
        ),
        SessionEndView::TargetExited(code) => (
            seq!["GDB session ended: target exited with code "@ + decimal(code as nat)],
            false,
        ),
        SessionEndView::TargetTerminated(signal) => (
            seq!["GDB session ended: target terminated with signal "@ + signal],
            false,
        ),
        SessionEndView::Kill => (seq!["GDB session ended: kill requested"@], false),
        SessionEndView::Failed(_) => (seq!["GDB server waiting for next client"@], true),
    }
}

/// Whether an answer may come in a phase.
pub open spec fn server_event_fits(phase: ServerPhase, event: ServerEventView) -> bool {
    match event {
        ServerEventView::Done => phase == ServerPhase::Idle || phase == ServerPhase::Claiming
            || phase == ServerPhase::Greeting || phase == ServerPhase::Warning || phase
            == ServerPhase::Leaving,
        ServerEventView::Address(_) => phase == ServerPhase::Start,
        ServerEventView::Stopped(stopped) => phase == ServerPhase::Checking || phase
            == ServerPhase::Claiming && stopped,
        ServerEventView::Accepted(_) => phase == ServerPhase::Accepting,
        ServerEventView::WouldBlock => phase == ServerPhase::Accepting,
        ServerEventView::Interrupted => phase == ServerPhase::Accepting,
        ServerEventView::Ended(_) => phase == ServerPhase::Session,
        ServerEventView::Failed(_) => phase == ServerPhase::Start || phase
            == ServerPhase::Accepting || phase == ServerPhase::Claiming,
    }
}

/// The next phase of a server, the client that it knows of, and what it asks for.
pub open spec fn server_next(
    phase: ServerPhase,
    client: Seq<char>,
    event: ServerEventView,
) -> (ServerPhase, Seq<char>, ServerActionView) {
    match event {
        ServerEventView::Failed(text) => (
            ServerPhase::Over,
            client,
            ServerActionView::Finish(Err(text)),
        ),
        ServerEventView::Address(text) => (
            ServerPhase::Idle,
            client,
            ServerActionView::Print(seq!["GDB server listening on "@ + text]),
        ),
        ServerEventView::Stopped(true) => (
            ServerPhase::Over,
            client,
            ServerActionView::Finish(Ok(())),
        ),
        ServerEventView::Stopped(false) => (
            ServerPhase::Accepting,
            client,
            ServerActionView::Accept,
        ),
        ServerEventView::Accepted(text) => (ServerPhase::Claiming, text, ServerActionView::Claim),
        ServerEventView::WouldBlock => (
            ServerPhase::Idle,
            client,
            ServerActionView::Pause(ACCEPT_PAUSE_MILLIS),
        ),
        ServerEventView::Interrupted => (
            ServerPhase::Checking,
            client,
            ServerActionView::CheckStopped,
        ),
        ServerEventView::Ended(SessionEndView::Failed(text)) => (
            ServerPhase::Warning,
            client,
            ServerActionView::Warn("GDB session ended: "@ + text),
        ),
        ServerEventView::Ended(end) => (
            if farewell(end).1 {
                ServerPhase::Idle
            } else {
                ServerPhase::Leaving
            },
            client,
            ServerActionView::Print(farewell(end).0),
        ),
        ServerEventView::Done => match phase {
            ServerPhase::Claiming => (
                ServerPhase::Greeting,
                client,
                ServerActionView::Print(seq!["GDB client attached from "@ + client]),
            ),
            ServerPhase::Greeting => (ServerPhase::Session, client, ServerActionView::RunSession),
            ServerPhase::Warning => (
                ServerPhase::Idle,
                client,
                ServerActionView::Print(farewell(SessionEndView::Failed(Seq::empty())).0),
            ),
            ServerPhase::Leaving => (
                ServerPhase::Over,
                client,
                ServerActionView::Finish(Ok(())),
            ),
            _ => (ServerPhase::Checking, client, ServerActionView::CheckStopped),
        },
    }
}

/// A server for one client after another.
pub struct GdbServer {
    phase: ServerPhase,
    client: String,
}

fn one_line(line: String) -> (lines: Vec<String>)
    ensures
        line_views(lines@) == seq![line@],
{
    let mut lines: Vec<String> = Vec::new();
    lines.push(line);
    assert(line_views(lines@) =~= seq![line@]);
    lines
}

/// What is said about the end of a session that did not fail.
fn farewell_lines(end: &SessionEnd) -> (lines: Vec<String>)
    ensures
        line_views(lines@) == farewell(end@).0,
{
    match end {
        SessionEnd::Disconnect => {
            let mut lines: Vec<String> = Vec::new();
            lines.push("GDB client requested detach".to_owned());
            lines.push("GDB client detached".to_owned());
            lines.push("GDB server waiting for next client".to_owned());
            assert(line_views(lines@) =~= farewell(end@).0);
            lines
        },
        SessionEnd::TargetExited(code) => {
            let mut text = chars_of("GDB session ended: target exited with code ");
            append_chars(&mut text, &decimal_chars(*code as u32));
            one_line(string_of(&text))
        },
        SessionEnd::TargetTerminated(signal) => one_line(
            concatenated("GDB session ended: target terminated with signal ", signal.as_str()),
        ),
        SessionEnd::Kill => one_line("GDB session ended: kill requested".to_owned()),
        SessionEnd::Failed(_) => one_line("GDB server waiting for next client".to_owned()),
    }
}

impl GdbServer {
    /// What the server waits for.
    pub closed spec fn phase(&self) -> ServerPhase {
        self.phase
    }

    /// The client that it knows of.
    pub closed spec fn client(&self) -> Seq<char> {
        self.client@
    }

    /// A server that has not begun.
    pub fn new() -> (server: GdbServer)
        ensures
            server.phase() == ServerPhase::Start,
            server.client() == Seq::<char>::empty(),
    {
        GdbServer { phase: ServerPhase::Start, client: String::new() }
    }

    /// The next thing to do, after the answer to the one before. The first call
    /// takes the server's address.
    pub fn step(&mut self, event: ServerEvent) -> (action: ServerAction)
        requires
            server_event_fits(old(self).phase(), event@),
        ensures
            (final(self).phase(), final(self).client(), action@) == server_next(
                old(self).phase(),
                old(self).client(),
                event@,
            ),
    {
        match event {
            ServerEvent::Failed(text) => {
                self.phase = ServerPhase::Over;
                ServerAction::Finish(Err(text))
            },
            ServerEvent::Address(text) => {
                self.phase = ServerPhase::Idle;
                ServerAction::Print(
                    one_line(concatenated("GDB server listening on ", text.as_str())),
                )
            },
            ServerEvent::Stopped(stopped) => {
                if stopped {
                    self.phase = ServerPhase::Over;
                    ServerAction::Finish(Ok(()))
                } else {
                    self.phase = ServerPhase::Accepting;
                    ServerAction::Accept
                }
            },
            ServerEvent::Accepted(text) => {
                self.phase = ServerPhase::Claiming;
                self.client = text;
                ServerAction::Claim
            },
            ServerEvent::WouldBlock => {
                self.phase = ServerPhase::Idle;
                ServerAction::Pause(ACCEPT_PAUSE_MILLIS)
            },
            ServerEvent::Interrupted => {
                self.phase = ServerPhase::Checking;
                ServerAction::CheckStopped
            },
            ServerEvent::Ended(end) => match end {
                SessionEnd::Failed(text) => {
                    self.phase = ServerPhase::Warning;
                    ServerAction::Warn(concatenated("GDB session ended: ", text.as_str()))
                },
                SessionEnd::Disconnect => {
                    self.phase = ServerPhase::Idle;
                    ServerAction::Print(farewell_lines(&end))
                },
                _ => {
                    self.phase = ServerPhase::Leaving;
                    ServerAction::Print(farewell_lines(&end))
                },
            },
            ServerEvent::Done => match self.phase {
                ServerPhase::Claiming => {
                    self.phase = ServerPhase::Greeting;
                    ServerAction::Print(
                        one_line(
                            concatenated("GDB client attached from ", self.client.as_str()),
                        ),
                    )
                },
                ServerPhase::Greeting => {
                    self.phase = ServerPhase::Session;
                    ServerAction::RunSession
                },
                ServerPhase::Warning => {
                    self.phase = ServerPhase::Idle;
                    ServerAction::Print(farewell_lines(&SessionEnd::Failed(String::new())))
                },
                ServerPhase::Leaving => {
                    self.phase = ServerPhase::Over;
                    ServerAction::Finish(Ok(()))
                },
                _ => {
                    self.phase = ServerPhase::Checking;
                    ServerAction::CheckStopped
                },
            },
        }
    }
}

/// A server goes on to the next client after one that detached or failed, and
/// only then: an exited, terminated or killed target ends it.
pub proof fn law_the_target_ends_the_server(client: Seq<char>, end: SessionEndView)
    ensures
        ({
            let (said, there, _) = server_next(
                ServerPhase::Session,
                client,
                ServerEventView::Ended(end),
            );
            let (next, _, action) = server_next(said, there, ServerEventView::Done);
            match end {
                SessionEndView::Disconnect => action == ServerActionView::CheckStopped,
                SessionEndView::Failed(_) => server_next(next, there, ServerEventView::Done).2
                    == ServerActionView::CheckStopped,
                _ => action == ServerActionView::Finish(Ok(())),
            }
        }),
{
}

/// No client is accepted and no session is run once the target was stopped: the
/// server is over.
pub proof fn law_a_stopped_target_ends_the_server(phase: ServerPhase, client: Seq<char>)
    ensures
        server_next(phase, client, ServerEventView::Stopped(true)).0 == ServerPhase::Over,
        server_next(phase, client, ServerEventView::Stopped(true)).2 == ServerActionView::Finish(
            Ok(()),
        ),
{
}

/// What a session waits for.
#[derive(Clone, Copy, Debug, PartialEq, Eq, Structural)]
pub enum SessionPhase {
    /// To begin.
    Start,
    /// For the target to pause.
    Pausing,
    /// For whether the paused target was stopped.
    Checking,
    /// For what the target is to resume to be cleared.
    Clearing,
    /// For the client to be done.
    Running,
    /// For whether the target was stopped meanwhile.
    Rechecking,
    /// For the target to be detached.
    Detaching,
    /// For nothing: the session is over.
    Over,
}

/// What a session asks for.
#[derive(Debug, PartialEq, Eq)]
pub enum SessionAction {
    /// Pause the target.
    Pause,
    /// Look whether the target was stopped.
    CheckStopped,
    /// Clear what the target is to resume.
    Clear,
    /// Speak the protocol with the client.
    Run,
    /// Detach the target.
    Detach,
    /// The session is over.
    Finish(SessionEnd),
}

/// The answer to a [`SessionAction`].
#[derive(Debug, PartialEq, Eq)]
pub enum SessionEvent {
    /// What was asked for was done.
    Done,
    /// Whether the target was stopped.
    Stopped(bool),
    /// The client is done, and this is how.
    Ran(SessionEnd),
    /// What was asked for failed; the text says why.
    Failed(String),
}

/// The meaning of a [`SessionAction`].
pub enum SessionActionView {
    Pause,
    CheckStopped,
    Clear,
    Run,
    Detach,
    Finish(SessionEndView),
}

/// The meaning of a [`SessionEvent`].
pub enum SessionEventView {
    Done,
    Stopped(bool),
    Ran(SessionEndView),
    Failed(Seq<char>),
}

impl View for SessionAction {
    type V = SessionActionView;

    open spec fn view(&self) -> SessionActionView {
        match self {
            SessionAction::Pause => SessionActionView::Pause,
            SessionAction::CheckStopped => SessionActionView::CheckStopped,
            SessionAction::Clear => SessionActionView::Clear,
            SessionAction::Run => SessionActionView::Run,
            SessionAction::Detach => SessionActionView::Detach,
            SessionAction::Finish(end) => SessionActionView::Finish(end@),
        }
    }
}

impl View for SessionEvent {
    type V = SessionEventView;

    open spec fn view(&self) -> SessionEventView {
        match self {
            SessionEvent::Done => SessionEventView::Done,
            SessionEvent::Stopped(stopped) => SessionEventView::Stopped(*stopped),
            SessionEvent::Ran(end) => SessionEventView::Ran(end@),
            SessionEvent::Failed(text) => SessionEventView::Failed(text@),
        }
    }
}

/// A session with a client.
pub struct Session {
    phase: SessionPhase,
    ran: SessionEnd,
}

/// The meaning of a [`Session`].
pub struct SessionState {
    pub phase: SessionPhase,
    /// How the client was done, once it was.
    pub ran: SessionEndView,
}

/// What an answer may be in a phase.
pub open spec fn session_event_fits(phase: SessionPhase, event: SessionEventView) -> bool {
    match event {
        SessionEventView::Done => phase == SessionPhase::Start || phase == SessionPhase::Pausing
            || phase == SessionPhase::Clearing || phase == SessionPhase::Detaching,
        SessionEventView::Stopped(_) => phase == SessionPhase::Checking || phase
            == SessionPhase::Rechecking,
        SessionEventView::Ran(_) => phase == SessionPhase::Running,
        SessionEventView::Failed(_) => phase == SessionPhase::Clearing || phase
            == SessionPhase::Detaching,
    }
}

/// The next state of a session and what it asks for. The target is paused before
/// anything else and detached before the client's end counts; a target that was
/// stopped has exited, whatever the client's connection says.
pub open spec fn session_next(state: SessionState, event: SessionEventView) -> (
    SessionState,
    SessionActionView,
) {
    let wait = |phase: SessionPhase, action: SessionActionView|
        (SessionState { phase, ..state }, action);
    let over = |end: SessionEndView|
        (SessionState { phase: SessionPhase::Over, ..state }, SessionActionView::Finish(end));
    match event {
        SessionEventView::Done => match state.phase {
            SessionPhase::Start => wait(SessionPhase::Pausing, SessionActionView::Pause),
            SessionPhase::Pausing => wait(SessionPhase::Checking, SessionActionView::CheckStopped),
            SessionPhase::Clearing => wait(SessionPhase::Running, SessionActionView::Run),
            _ => over(state.ran),
        },
        SessionEventView::Stopped(stopped) => if stopped {
            over(SessionEndView::TargetExited(0))
        } else if state.phase == SessionPhase::Checking {
            wait(SessionPhase::Clearing, SessionActionView::Clear)
        } else {
            wait(SessionPhase::Detaching, SessionActionView::Detach)
        },
        SessionEventView::Ran(end) => (
            SessionState { phase: SessionPhase::Rechecking, ran: end },
            SessionActionView::CheckStopped,
        ),
        SessionEventView::Failed(text) => if state.phase == SessionPhase::Detaching {
            over(SessionEndView::Failed("Failed to detach GDB: "@ + text))
        } else {
            over(SessionEndView::Failed(text))
        },
    }
}

impl Session {
    /// The meaning of the session.
    pub closed spec fn state(&self) -> SessionState {
        SessionState { phase: self.phase, ran: self.ran@ }
    }

    /// A session that has not begun.
    pub fn new() -> (session: Session)
        ensures
            session.state() == (SessionState {
                phase: SessionPhase::Start,
                ran: SessionEndView::Disconnect,
            }),
    {
        Session { phase: SessionPhase::Start, ran: SessionEnd::Disconnect }
    }

    /// The next thing to do, after the answer to the one before. The first call
    /// answers to nothing and takes [`SessionEvent::Done`].
    pub fn step(&mut self, event: SessionEvent) -> (action: SessionAction)
        requires
            session_event_fits(old(self).state().phase, event@),
        ensures
            (final(self).state().phase, action@) == (
                session_next(old(self).state(), event@).0.phase,
                session_next(old(self).state(), event@).1,
            ),
            final(self).state().phase != SessionPhase::Over ==> final(self).state()
                == session_next(old(self).state(), event@).0,
    {
        match event {
            SessionEvent::Done => match self.phase {
                SessionPhase::Start => {
                    self.phase = SessionPhase::Pausing;
                    SessionAction::Pause
                },
                SessionPhase::Pausing => {
                    self.phase = SessionPhase::Checking;
                    SessionAction::CheckStopped
                },
                SessionPhase::Clearing => {
                    self.phase = SessionPhase::Running;
                    SessionAction::Run
                },
                _ => {
                    let mut ran = SessionEnd::Disconnect;
                    std::mem::swap(&mut ran, &mut self.ran);
                    self.phase = SessionPhase::Over;
                    SessionAction::Finish(ran)
                },
            },
            SessionEvent::Stopped(stopped) => {
                if stopped {
                    self.phase = SessionPhase::Over;
                    SessionAction::Finish(SessionEnd::TargetExited(0))
                } else if self.phase == SessionPhase::Checking {
                    self.phase = SessionPhase::Clearing;
                    SessionAction::Clear
                } else {
                    self.phase = SessionPhase::Detaching;
                    SessionAction::Detach
                }
            },
            SessionEvent::Ran(end) => {
                self.ran = end;
                self.phase = SessionPhase::Rechecking;
                SessionAction::CheckStopped
            },
            SessionEvent::Failed(text) => {
                let end = if self.phase == SessionPhase::Detaching {
                    SessionEnd::Failed(concatenated("Failed to detach GDB: ", text.as_str()))
                } else {
                    SessionEnd::Failed(text)
                };
                self.phase = SessionPhase::Over;
                SessionAction::Finish(end)
            },
        }
    }
}

/// A target that is stopped while the client is served has exited, however the
/// client was done; otherwise it is detached, and then the client's end counts.
pub proof fn law_a_session_detaches_before_it_ends(ran: SessionEndView, before: SessionEndView)
    ensures
        ({
            let running = SessionState { phase: SessionPhase::Running, ran: before };
            let done = session_next(running, SessionEventView::Ran(ran));
            let stopped = session_next(done.0, SessionEventView::Stopped(true));
            let alive = session_next(done.0, SessionEventView::Stopped(false));
            let detached = session_next(alive.0, SessionEventView::Done);
            &&& done.1 == SessionActionView::CheckStopped
            &&& stopped.1 == SessionActionView::Finish(SessionEndView::TargetExited(0))
            &&& alive.1 == SessionActionView::Detach
            &&& detached.1 == SessionActionView::Finish(ran)
        }),
{
}

/// What is warned of when a client's connection could not be closed: nothing
/// where it was not connected any more.
pub fn close_warning(not_connected: bool, error: &str) -> (warning: Option<String>)
    ensures
        not_connected ==> warning is None,
        !not_connected ==> warning is Some && warning->0@ == "Failed to close GDB connection: "@
            + error@,
{
    if not_connected {
        return None;
    }
    Some(concatenated("Failed to close GDB connection: ", error))
}

/// The error for a server that could not be started.
pub fn start_error(message: &str) -> (error: WieError)
    ensures
        error@ == ErrorView::FatalError("Failed to start GDB server: "@ + message@),
{
    fatal_with("Failed to start GDB server: ", message)
}

/// A server listens, and then looks for clients until the target is stopped: it looks
/// whether the target was stopped before each time it accepts, waits 50 milliseconds
/// where there is no client, and tries at once where it was interrupted. What fails ends
/// it with the reason.
pub proof fn law_a_server_looks_for_clients(
    phase: ServerPhase,
    client: Seq<char>,
    text: Seq<char>,
)
    ensures
        ({
            let listening = server_next(phase, client, ServerEventView::Address(text));
            let looking = server_next(listening.0, client, ServerEventView::Done);
            &&& listening.2 == ServerActionView::Print(seq!["GDB server listening on "@ + text])
            &&& looking.2 == ServerActionView::CheckStopped
        }),
        server_next(phase, client, ServerEventView::Stopped(false)).2 == ServerActionView::Accept,
        ({
            let waiting = server_next(phase, client, ServerEventView::WouldBlock);
            &&& waiting.2 == ServerActionView::Pause(50)
            &&& server_next(waiting.0, client, ServerEventView::Done).2
                == ServerActionView::CheckStopped
        }),
        server_next(phase, client, ServerEventView::Interrupted).2 == ServerActionView::CheckStopped,
        server_next(phase, client, ServerEventView::Failed(text)).2 == ServerActionView::Finish(
            Err(text),
        ),
{
}

/// A client that was accepted is kept where a shutdown finds it, greeted by its address
/// and then served, in this order.
pub proof fn law_clients_are_claimed_greeted_and_served(
    phase: ServerPhase,
    client: Seq<char>,
    address: Seq<char>,
)
    ensures
        ({
            let accepted = server_next(phase, client, ServerEventView::Accepted(address));
            let claimed = server_next(accepted.0, accepted.1, ServerEventView::Done);
            let greeted = server_next(claimed.0, claimed.1, ServerEventView::Done);
            &&& accepted.2 == ServerActionView::Claim
            &&& claimed.2 == ServerActionView::Print(seq!["GDB client attached from "@ + address])
            &&& greeted.2 == ServerActionView::RunSession
            &&& server_next(accepted.0, accepted.1, ServerEventView::Stopped(true)).2
                == ServerActionView::Finish(Ok(()))
        }),
{
}

/// A session pauses the target before it looks whether it was stopped, clears what it is
/// to resume before it serves the client, and serves no target that was stopped or could
/// not be cleared.
pub proof fn law_a_session_prepares_the_target(ran: SessionEndView, text: Seq<char>)
    ensures
        ({
            let begun = session_next(
                SessionState { phase: SessionPhase::Start, ran },
                SessionEventView::Done,
            );
            let paused = session_next(begun.0, SessionEventView::Done);
            let stopped = session_next(paused.0, SessionEventView::Stopped(true));
            let alive = session_next(paused.0, SessionEventView::Stopped(false));
            let failed = session_next(alive.0, SessionEventView::Failed(text));
            let cleared = session_next(alive.0, SessionEventView::Done);
            &&& begun.1 == SessionActionView::Pause
            &&& paused.1 == SessionActionView::CheckStopped
            &&& stopped.1 == SessionActionView::Finish(SessionEndView::TargetExited(0))
            &&& alive.1 == SessionActionView::Clear
            &&& failed.1 == SessionActionView::Finish(SessionEndView::Failed(text))
            &&& cleared.1 == SessionActionView::Run
            &&& cleared.0.phase == SessionPhase::Running
        }),
{
}

/// A target that cannot be detached fails the session, with the reason, whatever the
/// client's end was.
pub proof fn law_a_failed_detach_fails_the_session(ran: SessionEndView, text: Seq<char>)
    ensures
        session_next(
            SessionState { phase: SessionPhase::Detaching, ran },
            SessionEventView::Failed(text),
        ).1 == SessionActionView::Finish(SessionEndView::Failed("Failed to detach GDB: "@ + text)),
{
}

/// A server does what its answers call for: a stopped target ends it, a client that was
/// accepted is claimed under its own address, a failure ends it with its reason, and only
/// a claimed and greeted client is served.
pub proof fn law_serving_follows_the_answers(
    server: &mut GdbServer,
    event: ServerEvent,
    action: ServerAction,
)
    requires
        server_event_fits(old(server).phase(), event@),
        call_ensures(GdbServer::step, (server, event), action),
    ensures
        event@ matches ServerEventView::Stopped(stopped) ==> action@ == (if stopped {
            ServerActionView::Finish(Ok(()))
        } else {
            ServerActionView::Accept
        }),
        event@ matches ServerEventView::Accepted(address) ==> action@ == ServerActionView::Claim
            && final(server).client() == address,
        event@ matches ServerEventView::Failed(reason) ==> action@ == ServerActionView::Finish(
            Err(reason),
        ),
        event@ is WouldBlock ==> action@ == ServerActionView::Pause(50),
        event@ is Interrupted ==> action@ == ServerActionView::CheckStopped,
        action@ is RunSession ==> old(server).phase() == ServerPhase::Greeting,
        action@ is Accept ==> event@ == ServerEventView::Stopped(false),
        action@ is Finish ==> event@ == ServerEventView::Stopped(true) || event@ is Failed || old(
            server,
        ).phase() == ServerPhase::Leaving,
        event@ is Ended ==> final(server).phase() != ServerPhase::Session,
{
}

/// A session ends only as it should: exited where the target was stopped, failed where
/// clearing or detaching failed, and with the client's own end once it was detached.
pub proof fn law_sessions_end_as_they_should(
    session: &mut Session,
    event: SessionEvent,
    action: SessionAction,
)
    requires
        session_event_fits(old(session).state().phase, event@),
        call_ensures(Session::step, (session, event), action),
    ensures
        action@ matches SessionActionView::Finish(end) ==> match event@ {
            SessionEventView::Stopped(stopped) => stopped && end == SessionEndView::TargetExited(
                0,
            ),
            SessionEventView::Failed(text) => end is Failed,
            SessionEventView::Done => old(session).state().phase == SessionPhase::Detaching && end
                == old(session).state().ran,
            SessionEventView::Ran(_) => false,
        },
        event@ == SessionEventView::Stopped(true) ==> action@ is Finish,
        event@ matches SessionEventView::Ran(end) ==> final(session).state().ran == end && action@
            == SessionActionView::CheckStopped,
        action@ is Run ==> old(session).state().phase == SessionPhase::Clearing && event@ is Done,
        action@ is Detach ==> old(session).state().phase == SessionPhase::Rechecking && event@
            == SessionEventView::Stopped(false),
{
}

} // verus!

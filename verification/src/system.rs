//! What the parts of a running application share.

use crate::audio::{
    ascending, law_shutdown_reaches_every_sound, stops, unregisters, Audio, AudioHandle,
    AudioSequenceId, AudioSink,
};
use crate::executor::ExecutorInner;
use crate::file_system::FilesystemOverlay;
use vstd::prelude::*;

verus! {

/// A running application: its identifiers, its tasks, its files, its sounds and
/// the events that wait for it.
pub struct System<S, E> {
    pub pid: String,
    pub aid: String,
    pub executor: ExecutorInner,
    pub filesystem: FilesystemOverlay,
    pub events: Vec<E>,
    pub audio: Audio<S>,
    pub random_state: u32,
}

impl<S: AudioSink, E> System<S, E> {
    /// The program's identifier.
    pub open spec fn program(&self) -> Seq<char> {
        self.pid@
    }

    /// The application's identifier.
    pub open spec fn application(&self) -> Seq<char> {
        self.aid@
    }

    /// The state of the random numbers.
    pub open spec fn random(&self) -> u32 {
        self.random_state
    }

    /// The tasks, the sounds and the files are in order.
    pub open spec fn wf(&self) -> bool {
        &&& self.executor.schedule().wf()
        &&& self.audio.wf()
        &&& self.filesystem.application() == self.application()
    }

    /// An application that has not begun.
    pub fn new(sink: S, pid: &str, aid: &str) -> (system: System<S, E>)
        ensures
            system.wf(),
            system.program() == pid@,
            system.application() == aid@,
            system.random() == 1,
            system.events@ == Seq::<E>::empty(),
            !system.executor.schedule().stopped,
            system.executor.schedule().tasks == Set::<usize>::empty(),
            system.filesystem.resources() == Map::<Seq<char>, Seq<u8>>::empty(),
            system.audio.files() == Map::<AudioHandle, AudioSequenceId>::empty(),
            system.audio.playing() == Set::<AudioHandle>::empty(),
            system.audio.next_handle() == 0,
            system.audio.sent() == sink.log(),
    {
        System {
            pid: pid.to_owned(),
            aid: aid.to_owned(),
            executor: ExecutorInner::new(),
            filesystem: FilesystemOverlay::new(aid),
            events: Vec::new(),
            audio: Audio::new(sink),
            random_state: 1,
        }
    }

    /// Stops all tasks, takes the waiting events out and silences all sounds. The
    /// events are to be dropped outside.
    pub fn shutdown(&mut self) -> (events: Vec<E>)
        requires
            old(self).wf(),
        ensures
            final(self).wf(),
            events@ == old(self).events@,
            final(self).events@ == Seq::<E>::empty(),
            final(self).executor.schedule() == old(self).executor.schedule().shut_down(),
            final(self).audio.files() == Map::<AudioHandle, AudioSequenceId>::empty(),
            final(self).audio.playing() == Set::<AudioHandle>::empty(),
            final(self).audio.next_handle() == old(self).audio.next_handle(),
            exists|playing: Seq<AudioHandle>, loaded: Seq<AudioHandle>|
                {
                    &&& ascending(playing, old(self).audio.playing())
                    &&& ascending(loaded, old(self).audio.files().dom())
                    &&& final(self).audio.sent() == old(self).audio.sent() + #[trigger] stops(
                        playing,
                    ) + #[trigger] unregisters(loaded, old(self).audio.files())
                },
            final(self).program() == old(self).program(),
            final(self).application() == old(self).application(),
            final(self).random() == old(self).random(),
            final(self).filesystem == old(self).filesystem,
    {
        self.executor.shutdown();
        let mut events: Vec<E> = Vec::new();
        std::mem::swap(&mut events, &mut self.events);
        self.audio.shutdown();
        events
    }

    /// The number of the current task.
    pub fn current_task_id(&self) -> (id: u64)
        requires
            self.executor.schedule().polling.len() > 0,
        ensures
            id == self.executor.schedule().polling.last(),
    {
        self.executor.current_task_id()
    }

    /// The program's identifier.
    pub fn pid(&self) -> (pid: &str)
        ensures
            pid@ == self.program(),
    {
        self.pid.as_str()
    }

    /// The application's identifier.
    pub fn aid(&self) -> (aid: &str)
        ensures
            aid@ == self.application(),
    {
        self.aid.as_str()
    }

    /// The state of the random numbers.
    pub fn random_state(&self) -> (state: u32)
        ensures
            state == self.random(),
    {
        self.random_state
    }

    /// Sets the state of the random numbers.
    pub fn set_random_state(&mut self, random_state: u32)
        requires
            old(self).wf(),
        ensures
            final(self).wf(),
            final(self).random() == random_state,
            final(self).program() == old(self).program(),
            final(self).application() == old(self).application(),
            final(self).executor == old(self).executor,
            final(self).filesystem == old(self).filesystem,
            final(self).events == old(self).events,
            final(self).audio == old(self).audio,
    {
        self.random_state = random_state;
    }
}

/// A shutdown ends everything: no task is left, the waiting events are handed out once, all
/// sounds are silenced and forgotten, and nothing else of the application is changed.
pub proof fn law_shutting_down_ends_everything<S: AudioSink, E>(
    system: &mut System<S, E>,
    events: Vec<E>,
)
    requires
        old(system).wf(),
        call_ensures(System::<S, E>::shutdown, (system,), events),
    ensures
        events@ == old(system).events@,
        final(system).events@.len() == 0,
        final(system).executor.schedule().stopped,
        forall|id: usize| !(#[trigger] final(system).executor.schedule().tasks.contains(id)),
        forall|handle: AudioHandle| !(#[trigger] final(system).audio.files().dom().contains(handle)),
        forall|handle: AudioHandle| !(#[trigger] final(system).audio.playing().contains(handle)),
        final(system).audio.sent().len() == old(system).audio.sent().len()
            + old(system).audio.playing().len() + old(system).audio.files().dom().len(),
        final(system).program() == old(system).program(),
        final(system).application() == old(system).application(),
        final(system).random() == old(system).random(),
        final(system).filesystem == old(system).filesystem,
{
    let (playing, loaded) = choose|playing: Seq<AudioHandle>, loaded: Seq<AudioHandle>|
        {
            &&& ascending(playing, old(system).audio.playing())
            &&& ascending(loaded, old(system).audio.files().dom())
            &&& final(system).audio.sent() == old(system).audio.sent() + #[trigger] stops(playing)
                + #[trigger] unregisters(loaded, old(system).audio.files())
        };
    law_shutdown_reaches_every_sound(
        playing,
        loaded,
        old(system).audio.playing(),
        old(system).audio.files(),
    );
}

/// An application begins with its own identifiers, no tasks, events, files or sounds, and
/// the random state 1, which is what was last set from then on.
pub proof fn law_applications_begin_afresh<S: AudioSink, E>(
    sink: S,
    pid: &str,
    aid: &str,
    system: System<S, E>,
    later: &mut System<S, E>,
    state: u32,
)
    requires
        call_ensures(System::<S, E>::new, (sink, pid, aid), system),
        old(later).wf(),
        call_ensures(System::<S, E>::set_random_state, (later, state), ()),
    ensures
        system.program() == pid@,
        system.application() == aid@,
        system.filesystem.application() == aid@,
        system.random() == 1,
        system.events@.len() == 0,
        !system.executor.schedule().stopped,
        forall|id: usize| !(#[trigger] system.executor.schedule().tasks.contains(id)),
        forall|handle: AudioHandle| !(#[trigger] system.audio.files().dom().contains(handle)),
        system.audio.sent() == sink.log(),
        final(later).random() == state,
        final(later).executor == old(later).executor,
        final(later).audio == old(later).audio,
        final(later).events == old(later).events,
        final(later).filesystem == old(later).filesystem,
{
}

} // verus!

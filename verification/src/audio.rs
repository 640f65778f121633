//! Sound: sequences that are registered with a sink, played, stopped and closed.

use crate::smaf::{
    is_plain_score, parse_events, score_is_plain, smaf_events, starts_smaf, SmafEvent, SmafEventView,
};
use std::collections::{BTreeMap, BTreeSet};
use std::sync::Arc;
use vstd::prelude::*;
use vstd::std_specs::btree::*;
use vstd::std_specs::cmp::OrdSpec;
use vstd::std_specs::iter::IteratorSpec;

verus! {

/// The number by which the guest knows a sound.
pub type AudioHandle = u32;

/// The number by which the sink knows a sequence.
#[derive(Clone, Copy, Debug, PartialEq, Eq, Structural)]
pub struct AudioSequenceId(pub u32);

/// Why a request is refused.
#[derive(Debug, Clone, Copy, PartialEq, Eq, Structural)]
pub enum AudioError {
    InvalidHandle,
}

/// What happens at some time in a sequence.
#[derive(Debug, PartialEq, Eq)]
pub enum AudioEventData {
    /// A MIDI message.
    Midi(Vec<u8>),
    /// Sampled sound.
    Wave { channels: u8, sampling_rate: u32, samples: Vec<i16> },
}

/// An event of a sequence.
#[derive(Debug, PartialEq, Eq)]
pub struct TimedAudioEvent {
    /// Milliseconds from the start of the sequence.
    pub time: u64,
    pub data: AudioEventData,
}

/// A sequence of events.
#[derive(Debug, PartialEq, Eq)]
pub struct AudioSequence {
    /// Milliseconds.
    pub duration: u64,
    pub events: Vec<TimedAudioEvent>,
}

/// What a sink is told.
#[derive(Debug, PartialEq, Eq)]
pub enum AudioCommand {
    Register { id: AudioSequenceId, sequence: Arc<AudioSequence> },
    Play { handle: AudioHandle, id: AudioSequenceId, repeat: bool },
    Stop { handle: AudioHandle },
    Unregister { id: AudioSequenceId },
}

/// Where sound goes.
pub trait AudioSink {
    /// The commands that the sink was sent, in order. Nothing is known of them of a
    /// sink that does not define them.
    closed spec fn log(&self) -> Seq<AudioCommand> {
        arbitrary()
    }

    /// Takes the next command.
    fn send(&mut self, command: AudioCommand)
        ensures
            final(self).log() == old(self).log().push(command),
    ;
}

/// The meaning of [`AudioEventData`].
pub enum AudioDataView {
    Midi(Seq<u8>),
    Wave { channels: u8, sampling_rate: u32, samples: Seq<i16> },
}

/// The meaning of a [`TimedAudioEvent`].
pub struct AudioEventView {
    pub time: u64,
    pub data: AudioDataView,
}

/// The meaning of an [`AudioSequence`].
pub struct AudioSequenceView {
    pub duration: u64,
    pub events: Seq<AudioEventView>,
}

impl View for AudioEventData {
    type V = AudioDataView;

    open spec fn view(&self) -> AudioDataView {
        match self {
            AudioEventData::Midi(message) => AudioDataView::Midi(message@),
            AudioEventData::Wave { channels, sampling_rate, samples } => AudioDataView::Wave {
                channels: *channels,
                sampling_rate: *sampling_rate,
                samples: samples@,
            },
        }
    }
}

impl View for TimedAudioEvent {
    type V = AudioEventView;

    open spec fn view(&self) -> AudioEventView {
        AudioEventView { time: self.time, data: self.data@ }
    }
}

impl View for AudioSequence {
    type V = AudioSequenceView;

    open spec fn view(&self) -> AudioSequenceView {
        AudioSequenceView {
            duration: self.duration,
            events: self.events@.map_values(|event: TimedAudioEvent| event@),
        }
    }
}

/// What an event of a score sends. The end of a score sends nothing.
pub open spec fn transported(event: SmafEventView) -> Option<AudioDataView> {
    match event {
        SmafEventView::Wave { channel, sampling_rate, data } => Some(
            AudioDataView::Wave { channels: channel, sampling_rate, samples: data },
        ),
        SmafEventView::MidiNoteOn { channel, note, velocity } => Some(
            AudioDataView::Midi(seq![0x90u8 | channel, note, velocity]),
        ),
        SmafEventView::MidiNoteOff { channel, note, velocity } => Some(
            AudioDataView::Midi(seq![0x80u8 | channel, note, velocity]),
        ),
        SmafEventView::MidiProgramChange { channel, program } => Some(
            AudioDataView::Midi(seq![0xc0u8 | channel, program]),
        ),
        SmafEventView::MidiControlChange { channel, control, value } => Some(
            AudioDataView::Midi(seq![0xb0u8 | channel, control, value]),
        ),
        SmafEventView::MidiPitchBend { channel, value } => Some(
            AudioDataView::Midi(
                seq![0xe0u8 | channel, (value % 128) as u8, (value / 128 % 128) as u8],
            ),
        ),
        SmafEventView::MidiSysEx(message) => Some(AudioDataView::Midi(message)),
        SmafEventView::End => None,
    }
}

/// The time of the latest event.
pub open spec fn latest(events: Seq<(usize, SmafEventView)>) -> u64
    decreases events.len(),
{
    if events.len() == 0 {
        0
    } else {
        let before = latest(events.drop_last());
        let time = events.last().0 as u64;
        if before < time {
            time
        } else {
            before
        }
    }
}

/// The events that send something, in order.
pub open spec fn transported_all(events: Seq<(usize, SmafEventView)>) -> Seq<AudioEventView>
    decreases events.len(),
{
    if events.len() == 0 {
        Seq::empty()
    } else {
        let before = transported_all(events.drop_last());
        match transported(events.last().1) {
            Some(data) => before.push(AudioEventView { time: events.last().0 as u64, data }),
            None => before,
        }
    }
}

/// The sequence that the events of a score make. It lasts to its latest event,
/// its end with it.
pub open spec fn converted(events: Seq<(usize, SmafEventView)>) -> AudioSequenceView {
    AudioSequenceView { duration: latest(events), events: transported_all(events) }
}

/// The meaning of the events of a score.
pub open spec fn event_views(events: Seq<(usize, SmafEvent)>) -> Seq<(usize, SmafEventView)> {
    events.map_values(|event: (usize, SmafEvent)| (event.0, event.1@))
}

/// No event of a sequence comes after its duration.
pub proof fn law_events_end_with_the_sequence(events: Seq<(usize, SmafEventView)>, i: int)
    requires
        0 <= i < converted(events).events.len(),
    ensures
        converted(events).events[i].time <= converted(events).duration,
    decreases events.len(),
{
    if events.len() > 0 {
        let front = events.drop_last();
        if i < transported_all(front).len() {
            law_events_end_with_the_sequence(front, i);
        }
    }
}

/// What one event of a score sends.
fn transport(event: &SmafEvent) -> (data: Option<AudioEventData>)
    ensures
        data is Some == transported(event@) is Some,
        data is Some ==> data->0@ == transported(event@)->0,
{
    let data = match event {
        SmafEvent::Wave { channel, sampling_rate, data } => AudioEventData::Wave {
            channels: *channel,
            sampling_rate: *sampling_rate,
            samples: copy_samples(data),
        },
        SmafEvent::MidiNoteOn { channel, note, velocity } => AudioEventData::Midi(
            three(0x90u8 | *channel, *note, *velocity),
        ),
        SmafEvent::MidiNoteOff { channel, note, velocity } => AudioEventData::Midi(
            three(0x80u8 | *channel, *note, *velocity),
        ),
        SmafEvent::MidiProgramChange { channel, program } => AudioEventData::Midi(
            two(0xc0u8 | *channel, *program),
        ),
        SmafEvent::MidiControlChange { channel, control, value } => AudioEventData::Midi(
            three(0xb0u8 | *channel, *control, *value),
        ),
        SmafEvent::MidiPitchBend { channel, value } => AudioEventData::Midi(
            three(0xe0u8 | *channel, (*value % 128) as u8, (*value / 128 % 128) as u8),
        ),
        SmafEvent::MidiSysEx(message) => AudioEventData::Midi(copy_bytes(message)),
        SmafEvent::End => {
            return None;
        },
    };
    Some(data)
}

fn copy_bytes(bytes: &Vec<u8>) -> (copy: Vec<u8>)
    ensures
        copy@ == bytes@,
{
    let copy = bytes.clone();
    assert(copy@ =~= bytes@);
    copy
}

fn copy_samples(samples: &Vec<i16>) -> (copy: Vec<i16>)
    ensures
        copy@ == samples@,
{
    let copy = samples.clone();
    assert(copy@ =~= samples@);
    copy
}

fn two(a: u8, b: u8) -> (bytes: Vec<u8>)
    ensures
        bytes@ == seq![a, b],
{
    let mut bytes: Vec<u8> = Vec::new();
    bytes.push(a);
    bytes.push(b);
    assert(bytes@ =~= seq![a, b]);
    bytes
}

fn three(a: u8, b: u8, c: u8) -> (bytes: Vec<u8>)
    ensures
        bytes@ == seq![a, b, c],
{
    let mut bytes: Vec<u8> = two(a, b);
    bytes.push(c);
    assert(bytes@ =~= seq![a, b, c]);
    bytes
}

/// The sequence that the events of a score make.
pub fn convert_smaf_events(events: Vec<(usize, SmafEvent)>) -> (sequence: AudioSequence)
    ensures
        sequence@ == converted(event_views(events@)),
{
    let ghost all = event_views(events@);
    let mut duration: u64 = 0;
    let mut out: Vec<TimedAudioEvent> = Vec::new();
    let mut i: usize = 0;
    proof {
        assert(all.take(0) =~= Seq::empty());
        assert(out@.map_values(|event: TimedAudioEvent| event@) =~= Seq::empty());
    }
    while i < events.len()
        invariant
            i <= events.len(),
            all == event_views(events@),
            duration == latest(all.take(i as int)),
            out@.map_values(|event: TimedAudioEvent| event@) == transported_all(all.take(i as int)),
        decreases events.len() - i,
    {
        let ghost before = out@.map_values(|event: TimedAudioEvent| event@);
        proof {
            assert(all.take(i + 1).drop_last() =~= all.take(i as int));
            assert(all.take(i + 1).last() == (events@[i as int].0, events@[i as int].1@));
        }
        let time: u64 = events[i].0 as u64;
        if duration < time {
            duration = time;
        }
        match transport(&events[i].1) {
            Some(data) => {
                let timed = TimedAudioEvent { time, data };
                out.push(timed);
                assert(out@.map_values(|event: TimedAudioEvent| event@) =~= before.push(timed@));
            },
            None => {},
        }
        i += 1;
    }
    assert(all.take(i as int) =~= all);
    AudioSequence { duration, events: out }
}

/// Whether `handles` are those of `all`, each once and in ascending order.
pub open spec fn ascending(handles: Seq<AudioHandle>, all: Set<AudioHandle>) -> bool {
    &&& handles.to_set() == all
    &&& forall|i: int, j: int| 0 <= i < j < handles.len() ==> handles[i] < handles[j]
}

/// A set has one ascending order.
pub proof fn law_ascending_order_is_unique(
    a: Seq<AudioHandle>,
    b: Seq<AudioHandle>,
    all: Set<AudioHandle>,
)
    requires
        ascending(a, all),
        ascending(b, all),
    ensures
        a == b,
    decreases a.len(),
{
    if a.len() == 0 {
        if b.len() > 0 {
            assert(b.to_set().contains(b[0]));
            assert(a.to_set().contains(b[0]));
        }
        assert(a =~= b);
    } else {
        assert(a.to_set().contains(a[0]));
        assert(b.to_set().contains(a[0]));
        let m = a.last();
        let n = b.last();
        assert(a[a.len() - 1] == m && b[b.len() - 1] == n);
        assert(a.to_set().contains(m) && b.to_set().contains(n));
        assert(b.contains(m) && a.contains(n));
        let i = choose|i: int| 0 <= i < b.len() && b[i] == m;
        let j = choose|j: int| 0 <= j < a.len() && a[j] == n;
        assert(m == n);
        lemma_ascending_front(a, all);
        lemma_ascending_front(b, all);
        law_ascending_order_is_unique(a.drop_last(), b.drop_last(), all.remove(m));
        assert(a =~= a.drop_last().push(m));
        assert(b =~= b.drop_last().push(n));
    }
}

proof fn lemma_ascending_front(a: Seq<AudioHandle>, all: Set<AudioHandle>)
    requires
        ascending(a, all),
        a.len() > 0,
    ensures
        ascending(a.drop_last(), all.remove(a.last())),
{
    let front = a.drop_last();
    assert forall|h: AudioHandle| #[trigger] front.to_set().contains(h) == all.remove(
        a.last(),
    ).contains(h) by {
        if front.contains(h) {
            let i = choose|i: int| 0 <= i < front.len() && front[i] == h;
            assert(a[i] == h);
            assert(a.to_set().contains(h));
        }
        if all.remove(a.last()).contains(h) {
            assert(a.to_set().contains(h));
            let i = choose|i: int| 0 <= i < a.len() && a[i] == h;
            assert(front[i] == h);
        }
    }
    assert(front.to_set() =~= all.remove(a.last()));
}

/// The handles of `files`, in ascending order.
fn ascending_keys(files: &BTreeMap<AudioHandle, AudioSequenceId>) -> (handles: Vec<AudioHandle>)
    ensures
        ascending(handles@, files@.dom()),
{
    let mut handles: Vec<AudioHandle> = Vec::new();
    let ghost all = files.keys().remaining();
    for handle in it: files.keys()
        invariant
            it.seq() == all,
            handles@ == all.unref().take(it.index()),
    {
        handles.push(*handle);
        assert(handles@ =~= all.unref().take(it.index() + 1));
    }
    assert(handles@ =~= all.unref());
    proof {
        broadcast use {vstd::laws_cmp::lemma_ref_obeys_cmp_spec, vstd::laws_cmp::group_laws_cmp};

        assert(vstd::laws_cmp::obeys_cmp::<&AudioHandle>());
        assert(increasing_seq(all));
        assert forall|i: int, j: int| 0 <= i < j < handles@.len() implies handles@[i]
            < handles@[j] by {
            assert(OrdSpec::cmp_spec(&all[i], &all[j]) is Less);
        }
    }
    handles
}

/// The members of `playing`, in ascending order.
fn ascending_members(playing: &BTreeSet<AudioHandle>) -> (handles: Vec<AudioHandle>)
    ensures
        ascending(handles@, playing@),
{
    let mut handles: Vec<AudioHandle> = Vec::new();
    let ghost all = playing.iter().remaining();
    for handle in it: playing.iter()
        invariant
            it.seq() == all,
            handles@ == all.unref().take(it.index()),
    {
        handles.push(*handle);
        assert(handles@ =~= all.unref().take(it.index() + 1));
    }
    assert(handles@ =~= all.unref());
    proof {
        broadcast use {vstd::laws_cmp::lemma_ref_obeys_cmp_spec, vstd::laws_cmp::group_laws_cmp};

        assert(vstd::laws_cmp::obeys_cmp::<&AudioHandle>());
        assert(increasing_seq(all));
        assert forall|i: int, j: int| 0 <= i < j < handles@.len() implies handles@[i]
            < handles@[j] by {
            assert(OrdSpec::cmp_spec(&all[i], &all[j]) is Less);
        }
    }
    handles
}

/// The sounds that the guest has loaded.
pub struct Audio<S> {
    sink: S,
    files: BTreeMap<AudioHandle, AudioSequenceId>,
    playing: BTreeSet<AudioHandle>,
    last_audio_handle: AudioHandle,
}

/// The commands that stop sounds.
pub open spec fn stops(handles: Seq<AudioHandle>) -> Seq<AudioCommand> {
    handles.map_values(|handle: AudioHandle| AudioCommand::Stop { handle })
}

/// The commands that unregister the sequences of sounds.
pub open spec fn unregisters(
    handles: Seq<AudioHandle>,
    files: Map<AudioHandle, AudioSequenceId>,
) -> Seq<AudioCommand> {
    handles.map_values(|handle: AudioHandle| AudioCommand::Unregister { id: files[handle] })
}

impl<S: AudioSink> Audio<S> {
    /// The sequence of each loaded sound.
    pub closed spec fn files(&self) -> Map<AudioHandle, AudioSequenceId> {
        self.files@
    }

    /// The sounds that play.
    pub closed spec fn playing(&self) -> Set<AudioHandle> {
        self.playing@
    }

    /// The handle that the next sound gets.
    pub closed spec fn next_handle(&self) -> AudioHandle {
        self.last_audio_handle
    }

    /// The commands that the sink was sent so far.
    pub closed spec fn sent(&self) -> Seq<AudioCommand> {
        self.sink.log()
    }

    /// Only loaded sounds play; handles were given out in order, and each sound
    /// has a sequence of its own.
    pub open spec fn wf(&self) -> bool {
        &&& self.playing().subset_of(self.files().dom())
        &&& forall|handle: AudioHandle| #[trigger]
            self.files().dom().contains(handle) ==> handle < self.next_handle()
                && self.files()[handle] == AudioSequenceId((handle + 1) as u32)
    }

    /// No sounds, and a sink that was sent nothing yet from here.
    pub fn new(sink: S) -> (audio: Audio<S>)
        ensures
            audio.wf(),
            audio.files() == Map::<AudioHandle, AudioSequenceId>::empty(),
            audio.playing() == Set::<AudioHandle>::empty(),
            audio.next_handle() == 0,
            audio.sent() == sink.log(),
    {
        Audio {
            sink,
            files: BTreeMap::new(),
            playing: BTreeSet::new(),
            last_audio_handle: 0,
        }
    }

    /// Sends the sink a command.
    fn send(&mut self, command: AudioCommand)
        ensures
            final(self).sent() == old(self).sent().push(command),
            final(self).files() == old(self).files(),
            final(self).playing() == old(self).playing(),
            final(self).next_handle() == old(self).next_handle(),
    {
        self.sink.send(command);
    }

    /// Stops all sounds and forgets them, each in ascending order of the handles.
    pub fn shutdown(&mut self)
        requires
            old(self).wf(),
        ensures
            final(self).wf(),
            final(self).files() == Map::<AudioHandle, AudioSequenceId>::empty(),
            final(self).playing() == Set::<AudioHandle>::empty(),
            final(self).next_handle() == old(self).next_handle(),
            exists|playing: Seq<AudioHandle>, loaded: Seq<AudioHandle>|
                {
                    &&& ascending(playing, old(self).playing())
                    &&& ascending(loaded, old(self).files().dom())
                    &&& final(self).sent() == old(self).sent() + #[trigger] stops(playing)
                        + #[trigger] unregisters(loaded, old(self).files())
                },
    {
        let ghost sent = self.sent();
        let ghost files = self.files();
        let playing = ascending_members(&self.playing);
        self.playing.clear();
        let mut i: usize = 0;
        assert(self.sent() =~= sent + stops(playing@).take(0));
        while i < playing.len()
            invariant
                i <= playing.len(),
                self.files() == files,
                self.playing() == Set::<AudioHandle>::empty(),
                self.next_handle() == old(self).next_handle(),
                self.sent() == sent + stops(playing@).take(i as int),
            decreases playing.len() - i,
        {
            self.send(AudioCommand::Stop { handle: playing[i] });
            assert(self.sent() =~= sent + stops(playing@).take(i + 1));
            i += 1;
        }
        assert(stops(playing@).take(playing@.len() as int) =~= stops(playing@));
        let loaded = ascending_keys(&self.files);
        let ghost stopped = self.sent();
        let mut k: usize = 0;
        assert(self.sent() =~= stopped + unregisters(loaded@, files).take(0));
        while k < loaded.len()
            invariant
                k <= loaded.len(),
                loaded@.to_set() == files.dom(),
                self.files() == files,
                self.playing() == Set::<AudioHandle>::empty(),
                self.next_handle() == old(self).next_handle(),
                self.sent() == stopped + unregisters(loaded@, files).take(k as int),
            decreases loaded.len() - k,
        {
            proof {
                assert(loaded@.contains(loaded@[k as int]));
                assert(loaded@.to_set().contains(loaded@[k as int]));
            }
            match self.files.get(&loaded[k]) {
                Some(id) => {
                    let id: AudioSequenceId = *id;
                    self.send(AudioCommand::Unregister { id });
                    assert(self.sent() =~= stopped + unregisters(loaded@, files).take(k + 1));
                },
                None => {
                    assert(false);
                },
            }
            k += 1;
        }
        assert(unregisters(loaded@, files).take(loaded@.len() as int) =~= unregisters(
            loaded@,
            files,
        ));
        self.files.clear();
    }

    /// Loads the events of a score as a new sound and registers it with the
    /// sink. Fails when there is no handle left.
    pub fn load_events(&mut self, events: Vec<(usize, SmafEvent)>) -> (handle: Result<
        AudioHandle,
        AudioError,
    >)
        requires
            old(self).wf(),
        ensures
            is_load(old(self), final(self), event_views(events@), handle),
    {
        if self.last_audio_handle == u32::MAX {
            return Err(AudioError::InvalidHandle);
        }
        let handle: AudioHandle = self.last_audio_handle;
        self.last_audio_handle = self.last_audio_handle + 1;
        let id = AudioSequenceId(self.last_audio_handle);
        let sequence = Arc::new(convert_smaf_events(events));
        self.files.insert(handle, id);
        self.send(AudioCommand::Register { id, sequence });
        assert(self.sent().drop_last() =~= old(self).sent());
        Ok(handle)
    }

    /// Loads a score as a new sound and registers it with the sink. Data that
    /// does not begin as a score does makes an empty sound. Fails when there is
    /// no handle left.
    pub fn load_smaf(&mut self, data: &[u8]) -> (handle: Result<AudioHandle, AudioError>)
        requires
            old(self).wf(),
            !starts_smaf(data@) || is_plain_score(data@) || smaf_events(data@) is Some,
        ensures
            is_load(
                old(self),
                final(self),
                if starts_smaf(data@) {
                    smaf_events(data@)->0
                } else {
                    Seq::empty()
                },
                handle,
            ),
    {
        if self.last_audio_handle == u32::MAX {
            return Err(AudioError::InvalidHandle);
        }
        let events = parse_events(data);
        assert(!starts_smaf(data@) ==> event_views(events@) =~= Seq::empty());
        self.load_events(events)
    }

    /// Loads data that is no score, which makes an empty sound, or a plain score.
    /// Another score is left alone: `None` says so.
    pub fn load_plain(&mut self, data: &[u8]) -> (handle: Option<Result<AudioHandle, AudioError>>)
        requires
            old(self).wf(),
        ensures
            handle is None == (starts_smaf(data@) && !is_plain_score(data@)),
            handle is None ==> *final(self) == *old(self),
            handle is Some ==> is_load(
                old(self),
                final(self),
                if starts_smaf(data@) {
                    smaf_events(data@)->0
                } else {
                    Seq::empty()
                },
                handle->0,
            ),
    {
        if data.len() >= 4 && data[0] == 0x4d && data[1] == 0x4d && data[2] == 0x4d && data[3]
            == 0x44 && !score_is_plain(data) {
            return None;
        }
        Some(self.load_smaf(data))
    }

    /// Plays a loaded sound, from its start if it plays already.
    pub fn play(&mut self, audio_handle: AudioHandle, repeat: bool) -> (done: Result<(), AudioError>)
        requires
            old(self).wf(),
        ensures
            final(self).wf(),
            final(self).files() == old(self).files(),
            final(self).next_handle() == old(self).next_handle(),
            !old(self).files().dom().contains(audio_handle) ==> {
                &&& done == Err::<(), AudioError>(AudioError::InvalidHandle)
                &&& final(self).playing() == old(self).playing()
                &&& final(self).sent() == old(self).sent()
            },
            old(self).files().dom().contains(audio_handle) ==> {
                &&& done == Ok::<(), AudioError>(())
                &&& final(self).playing() == old(self).playing().insert(audio_handle)
                &&& final(self).sent() == stopped(
                    old(self).sent(),
                    old(self).playing(),
                    audio_handle,
                ).push(
                    AudioCommand::Play {
                        handle: audio_handle,
                        id: old(self).files()[audio_handle],
                        repeat,
                    },
                )
            },
    {
        let id: AudioSequenceId = match self.files.get(&audio_handle) {
            Some(id) => *id,
            None => return Err(AudioError::InvalidHandle),
        };
        self.stop(audio_handle);
        self.playing.insert(audio_handle);
        proof {
            assert(self.playing() =~= old(self).playing().insert(audio_handle));
        }
        self.send(AudioCommand::Play { handle: audio_handle, id, repeat });
        Ok(())
    }

    /// Stops a sound, if it plays.
    pub fn stop(&mut self, audio_handle: AudioHandle)
        requires
            old(self).wf(),
        ensures
            final(self).wf(),
            final(self).files() == old(self).files(),
            final(self).next_handle() == old(self).next_handle(),
            final(self).playing() == old(self).playing().remove(audio_handle),
            final(self).sent() == stopped(old(self).sent(), old(self).playing(), audio_handle),
    {
        if self.playing.remove(&audio_handle) {
            self.send(AudioCommand::Stop { handle: audio_handle });
        }
    }

    /// Stops a sound, if it plays, and forgets it.
    pub fn close(&mut self, audio_handle: AudioHandle) -> (done: Result<(), AudioError>)
        requires
            old(self).wf(),
        ensures
            final(self).wf(),
            final(self).files() == old(self).files().remove(audio_handle),
            final(self).next_handle() == old(self).next_handle(),
            final(self).playing() == old(self).playing().remove(audio_handle),
            !old(self).files().dom().contains(audio_handle) ==> {
                &&& done == Err::<(), AudioError>(AudioError::InvalidHandle)
                &&& final(self).sent() == old(self).sent()
            },
            old(self).files().dom().contains(audio_handle) ==> {
                &&& done == Ok::<(), AudioError>(())
                &&& final(self).sent() == stopped(
                    old(self).sent(),
                    old(self).playing(),
                    audio_handle,
                ).push(AudioCommand::Unregister { id: old(self).files()[audio_handle] })
            },
    {
        self.stop(audio_handle);
        match self.files.remove(&audio_handle) {
            Some(id) => {
                self.send(AudioCommand::Unregister { id });
                Ok(())
            },
            None => {
                assert(self.files() =~= old(self).files().remove(audio_handle));
                Err(AudioError::InvalidHandle)
            },
        }
    }
}

/// The commands after a sound was stopped: one more, if it played.
pub open spec fn stopped(
    sent: Seq<AudioCommand>,
    playing: Set<AudioHandle>,
    handle: AudioHandle,
) -> Seq<AudioCommand> {
    if playing.contains(handle) {
        sent.push(AudioCommand::Stop { handle })
    } else {
        sent
    }
}

/// Whether `handle` is what loading a score with these events gives, and what it
/// does: the sound has a new handle, and its sequence is registered.
pub open spec fn is_load<S: AudioSink>(
    before: &Audio<S>,
    after: &Audio<S>,
    events: Seq<(usize, SmafEventView)>,
    handle: Result<AudioHandle, AudioError>,
) -> bool {
    let next = before.next_handle();
    &&& after.wf()
    &&& after.playing() == before.playing()
    &&& next == u32::MAX ==> {
        &&& handle == Err::<AudioHandle, AudioError>(AudioError::InvalidHandle)
        &&& after.next_handle() == next
        &&& after.files() == before.files()
        &&& after.sent() == before.sent()
    }
    &&& next < u32::MAX ==> {
        let id = AudioSequenceId((next + 1) as u32);
        &&& handle == Ok::<AudioHandle, AudioError>(next)
        &&& after.next_handle() == next + 1
        &&& after.files() == before.files().insert(next, id)
        &&& after.sent().len() == before.sent().len() + 1
        &&& after.sent().drop_last() == before.sent()
        &&& after.sent().last() matches AudioCommand::Register { id: registered, sequence } && registered
            == id && (*sequence)@ == converted(events)
    }
}

/// Playing a sound that plays stops it first: between two starts of one sound
/// the sink is told to stop it.
pub proof fn law_replay_stops_first(
    sent: Seq<AudioCommand>,
    playing: Set<AudioHandle>,
    handle: AudioHandle,
    id: AudioSequenceId,
    repeat: bool,
)
    requires
        playing.contains(handle),
    ensures
        stopped(sent, playing, handle).push(AudioCommand::Play { handle, id, repeat }) == sent.push(
            AudioCommand::Stop { handle },
        ).push(AudioCommand::Play { handle, id, repeat }),
{
}

/// A closed sound is gone: it does not play, and its handle is not given out
/// again.
pub proof fn law_closed_sounds_are_gone<S: AudioSink>(
    before: &Audio<S>,
    after: &Audio<S>,
    handle: AudioHandle,
)
    requires
        before.wf(),
        after.wf(),
        before.files().dom().contains(handle),
        after.files() == before.files().remove(handle),
        after.next_handle() == before.next_handle(),
    ensures
        !after.files().dom().contains(handle),
        !after.playing().contains(handle),
        handle < after.next_handle(),
{
}

/// Different sounds have different sequences.
pub proof fn law_sounds_have_their_own_sequences<S: AudioSink>(
    audio: &Audio<S>,
    a: AudioHandle,
    b: AudioHandle,
)
    requires
        audio.wf(),
        audio.files().dom().contains(a),
        audio.files().dom().contains(b),
        audio.files()[a] == audio.files()[b],
    ensures
        a == b,
{
}

/// A shutdown tells the sink to stop each sound that plays and to forget the
/// sequence of each that is loaded, and nothing else.
pub proof fn law_shutdown_reaches_every_sound(
    playing: Seq<AudioHandle>,
    loaded: Seq<AudioHandle>,
    all_playing: Set<AudioHandle>,
    files: Map<AudioHandle, AudioSequenceId>,
)
    requires
        ascending(playing, all_playing),
        ascending(loaded, files.dom()),
    ensures
        forall|handle: AudioHandle|
            #![trigger all_playing.contains(handle)]
            all_playing.contains(handle) == stops(playing).contains(AudioCommand::Stop { handle }),
        forall|handle: AudioHandle|
            #![trigger files.dom().contains(handle)]
            files.dom().contains(handle) ==> unregisters(loaded, files).contains(
                AudioCommand::Unregister { id: files[handle] },
            ),
        stops(playing).len() == all_playing.len(),
        unregisters(loaded, files).len() == files.dom().len(),
{
    assert(playing.no_duplicates());
    assert(loaded.no_duplicates());
    playing.unique_seq_to_set();
    loaded.unique_seq_to_set();
    assert forall|handle: AudioHandle|
        #![trigger all_playing.contains(handle)]
        all_playing.contains(handle) == stops(playing).contains(AudioCommand::Stop { handle }) by {
        if all_playing.contains(handle) {
            assert(playing.to_set().contains(handle));
            let i = choose|i: int| 0 <= i < playing.len() && playing[i] == handle;
            assert(stops(playing)[i] == AudioCommand::Stop { handle });
        }
        if stops(playing).contains(AudioCommand::Stop { handle }) {
            let i = choose|i: int|
                0 <= i < stops(playing).len() && stops(playing)[i] == AudioCommand::Stop { handle };
            assert(playing[i] == handle);
            assert(playing.to_set().contains(handle));
        }
    }
    assert forall|handle: AudioHandle|
        #![trigger files.dom().contains(handle)]
        files.dom().contains(handle) implies unregisters(loaded, files).contains(
        AudioCommand::Unregister { id: files[handle] },
    ) by {
        assert(loaded.to_set().contains(handle));
        let i = choose|i: int| 0 <= i < loaded.len() && loaded[i] == handle;
        assert(unregisters(loaded, files)[i] == AudioCommand::Unregister { id: files[handle] });
    }
}

/// Once all sounds are gone, a further shutdown sends nothing.
pub proof fn law_second_shutdown_is_silent(
    playing: Seq<AudioHandle>,
    loaded: Seq<AudioHandle>,
    files: Map<AudioHandle, AudioSequenceId>,
)
    requires
        files == Map::<AudioHandle, AudioSequenceId>::empty(),
        ascending(playing, Set::empty()),
        ascending(loaded, files.dom()),
    ensures
        stops(playing) + unregisters(loaded, files) == Seq::<AudioCommand>::empty(),
{
    if playing.len() > 0 {
        assert(playing.to_set().contains(playing[0]));
    }
    if loaded.len() > 0 {
        assert(loaded.to_set().contains(loaded[0]));
    }
    assert(stops(playing) + unregisters(loaded, files) =~= Seq::<AudioCommand>::empty());
}

/// Setting bits of a status byte that are clear in a channel adds the channel.
proof fn lemma_status(status: u8, channel: u8)
    requires
        status % 16 == 0,
        channel < 16,
    ensures
        (status | channel) == status + channel,
{
    assert((status | channel) == status + channel) by (bit_vector)
        requires
            status % 16 == 0,
            channel < 16,
    ;
}

/// A channel message can be read back from what it sends: the high half of its
/// first byte says what it is, the low half is the channel, and the data bytes are
/// its own. A pitch bend has its value in two bytes of seven bits, low ones first.
/// Sampled sound and exclusive messages are sent as they are, and only the end of a
/// score sends nothing.
pub proof fn law_messages_can_be_read_back(event: SmafEventView)
    ensures
        transported(event) is None == (event is End),
        match event {
            SmafEventView::MidiNoteOn { channel, note, velocity } => channel < 16 ==> (transported(
                event,
            ) matches Some(AudioDataView::Midi(m)) && m.len() == 3 && m[0] / 16 == 9 && m[0] % 16
                == channel && m[1] == note && m[2] == velocity),
            SmafEventView::MidiNoteOff { channel, note, velocity } => channel < 16 ==> (transported(
                event,
            ) matches Some(AudioDataView::Midi(m)) && m.len() == 3 && m[0] / 16 == 8 && m[0] % 16
                == channel && m[1] == note && m[2] == velocity),
            SmafEventView::MidiControlChange { channel, control, value } => channel < 16 ==> (
            transported(event) matches Some(AudioDataView::Midi(m)) && m.len() == 3 && m[0] / 16
                == 11 && m[0] % 16 == channel && m[1] == control && m[2] == value),
            SmafEventView::MidiProgramChange { channel, program } => channel < 16 ==> (transported(
                event,
            ) matches Some(AudioDataView::Midi(m)) && m.len() == 2 && m[0] / 16 == 12 && m[0] % 16
                == channel && m[1] == program),
            SmafEventView::MidiPitchBend { channel, value } => channel < 16 ==> (transported(
                event,
            ) matches Some(AudioDataView::Midi(m)) && m.len() == 3 && m[0] / 16 == 14 && m[0] % 16
                == channel && m[1] < 128 && m[2] < 128 && m[1] + 128 * m[2] == value % 0x4000),
            SmafEventView::MidiSysEx(message) => transported(event) matches Some(
                AudioDataView::Midi(m),
            ) && m == message,
            SmafEventView::Wave { channel, sampling_rate, data } => transported(event) matches Some(
                AudioDataView::Wave { channels, sampling_rate: rate, samples },
            ) && channels == channel && rate == sampling_rate && samples == data,
            SmafEventView::End => true,
        },
{
    match event {
        SmafEventView::MidiNoteOn { channel, .. } => {
            if channel < 16 {
                lemma_status(0x90, channel);
            }
        },
        SmafEventView::MidiNoteOff { channel, .. } => {
            if channel < 16 {
                lemma_status(0x80, channel);
            }
        },
        SmafEventView::MidiControlChange { channel, .. } => {
            if channel < 16 {
                lemma_status(0xb0, channel);
            }
        },
        SmafEventView::MidiProgramChange { channel, .. } => {
            if channel < 16 {
                lemma_status(0xc0, channel);
            }
        },
        SmafEventView::MidiPitchBend { channel, value } => {
            if channel < 16 {
                lemma_status(0xe0, channel);
            }
            assert(value % 128 + 128 * (value / 128 % 128) == value % 0x4000);
        },
        _ => {},
    }
}

/// The channel of a message, where it has one.
pub open spec fn channel_of(event: SmafEventView) -> Option<u8> {
    match event {
        SmafEventView::MidiNoteOn { channel, .. } => Some(channel),
        SmafEventView::MidiNoteOff { channel, .. } => Some(channel),
        SmafEventView::MidiControlChange { channel, .. } => Some(channel),
        SmafEventView::MidiProgramChange { channel, .. } => Some(channel),
        SmafEventView::MidiPitchBend { channel, .. } => Some(channel),
        _ => None,
    }
}

/// Different channel messages send different bytes.
pub proof fn law_different_messages_sound_different(a: SmafEventView, b: SmafEventView)
    requires
        channel_of(a) matches Some(channel) && channel < 16,
        channel_of(b) matches Some(channel) && channel < 16,
        a matches SmafEventView::MidiPitchBend { value, .. } ==> value < 0x4000,
        b matches SmafEventView::MidiPitchBend { value, .. } ==> value < 0x4000,
        transported(a) == transported(b),
    ensures
        a == b,
{
    law_messages_can_be_read_back(a);
    law_messages_can_be_read_back(b);
}

/// Whatever its channel is, the first byte of a message has the bits of the channel
/// and those of its kind, and no others.
pub proof fn law_statuses_keep_all_bits(event: SmafEventView)
    requires
        channel_of(event) is Some,
    ensures
        ({
            let channel = channel_of(event)->0;
            let status: u8 = match event {
                SmafEventView::MidiNoteOn { .. } => 144,
                SmafEventView::MidiNoteOff { .. } => 128,
                SmafEventView::MidiControlChange { .. } => 176,
                SmafEventView::MidiProgramChange { .. } => 192,
                _ => 224,
            };
            transported(event) matches Some(AudioDataView::Midi(m)) && m.len() >= 2 && m[0]
                | channel == m[0] && m[0] | status == m[0] && m[0] & !channel & !status == 0
        }),
{
    let channel = channel_of(event)->0;
    assert forall|status: u8|
        #![trigger status | channel]
        (status | channel) | channel == status | channel && (status | channel) | status == status
            | channel && (status | channel) & !channel & !status == 0 by {
        assert((status | channel) | channel == status | channel && (status | channel) | status
            == status | channel && (status | channel) & !channel & !status == 0) by (bit_vector);
    }
}

/// A sequence is converted event by event: the events of two scores one after the
/// other make the events of both, and one event alone keeps its time and what it
/// sends.
pub proof fn law_scores_are_converted_event_by_event(
    a: Seq<(usize, SmafEventView)>,
    b: Seq<(usize, SmafEventView)>,
    time: usize,
    event: SmafEventView,
)
    ensures
        converted(a + b).events == converted(a).events + converted(b).events,
        converted(seq![(time, event)]).events.len() == (if event is End {
            0int
        } else {
            1
        }),
        !(event is End) ==> converted(seq![(time, event)]).events[0].time == time
            && transported(event) == Some(converted(seq![(time, event)]).events[0].data),
    decreases b.len(),
{
    law_messages_can_be_read_back(event);
    let one = seq![(time, event)];
    assert(one.drop_last() =~= Seq::empty());
    assert(one.last() == (time, event));
    assert(transported_all(one.drop_last()) =~= Seq::empty());
    if b.len() == 0 {
        assert(a + b =~= a);
        assert(transported_all(a) + transported_all(b) =~= transported_all(a));
    } else {
        law_scores_are_converted_event_by_event(a, b.drop_last(), time, event);
        assert((a + b).drop_last() =~= a + b.drop_last());
        assert((a + b).last() == b.last());
        assert(transported_all(a + b) =~= transported_all(a) + transported_all(b));
    }
}

/// A sequence lasts to its latest event, its end with it: no event of the score is
/// later, and one is as late, unless there is none.
pub proof fn law_a_sequence_lasts_to_its_latest_event(events: Seq<(usize, SmafEventView)>)
    ensures
        forall|i: int|
            0 <= i < events.len() ==> (#[trigger] events[i]).0 <= converted(events).duration,
        events.len() > 0 ==> exists|i: int|
            0 <= i < events.len() && (#[trigger] events[i]).0 == converted(events).duration,
        events.len() == 0 ==> converted(events).duration == 0,
    decreases events.len(),
{
    if events.len() > 0 {
        let front = events.drop_last();
        law_a_sequence_lasts_to_its_latest_event(front);
        let duration = converted(events).duration;
        assert forall|i: int| 0 <= i < events.len() implies (#[trigger] events[i]).0 <= duration by {
            if i < front.len() {
                assert(front[i] == events[i]);
            }
        }
        if duration == events.last().0 {
            assert(events[events.len() - 1].0 == duration);
        } else if front.len() > 0 {
            let i = choose|i: int|
                0 <= i < front.len() && (#[trigger] front[i]).0 == converted(front).duration;
            assert(events[i].0 == duration);
        }
    }
}

/// Loading succeeds as long as there is a handle left. The sound's handle is new, its
/// sequence is one that no loaded sound has, and the sink is told once to register
/// just that sequence.
pub proof fn law_loading_registers_a_new_sound<S: AudioSink>(
    before: &Audio<S>,
    after: &Audio<S>,
    events: Seq<(usize, SmafEventView)>,
    handle: Result<AudioHandle, AudioError>,
)
    requires
        before.wf(),
        is_load(before, after, events, handle),
    ensures
        handle is Err == (before.next_handle() == 0xffff_ffff),
        handle is Err ==> after.files() == before.files() && after.sent() == before.sent(),
        handle matches Ok(new) ==> {
            &&& !before.files().dom().contains(new)
            &&& after.files().dom() == before.files().dom().insert(new)
            &&& forall|old: AudioHandle| #[trigger]
                before.files().dom().contains(old) ==> after.files()[old] == before.files()[old]
                    && after.files()[old] != after.files()[new]
            &&& !after.playing().contains(new)
            &&& after.sent().len() == before.sent().len() + 1
            &&& forall|i: int|
                0 <= i < before.sent().len() ==> #[trigger] after.sent()[i] == before.sent()[i]
            &&& after.sent()[before.sent().len() as int] matches AudioCommand::Register {
                id,
                sequence,
            } && id == after.files()[new] && sequence.events@.len() == converted(events).events.len()
                && sequence.duration == converted(events).duration && forall|i: int|
                0 <= i < sequence.events@.len() ==> (#[trigger] sequence.events@[i])@ == converted(
                    events,
                ).events[i]
        },
{
    if let Ok(new) = handle {
        assert(after.sent() == after.sent().drop_last().push(after.sent().last()));
        if let AudioCommand::Register { sequence, .. } = after.sent().last() {
            let views = sequence.events@.map_values(|event: TimedAudioEvent| event@);
            assert(views == converted(events).events);
            assert forall|i: int| 0 <= i < sequence.events@.len() implies (
            #[trigger] sequence.events@[i])@ == converted(events).events[i] by {
                assert(views[i] == sequence.events@[i]@);
            }
        }
    }
}

/// Stopping a sound tells the sink so exactly where it plays.
pub proof fn law_only_playing_sounds_are_stopped(
    sent: Seq<AudioCommand>,
    playing: Set<AudioHandle>,
    handle: AudioHandle,
)
    ensures
        !playing.contains(handle) ==> stopped(sent, playing, handle) == sent,
        playing.contains(handle) ==> stopped(sent, playing, handle).len() == sent.len() + 1
            && stopped(sent, playing, handle).last() == (AudioCommand::Stop { handle })
            && stopped(sent, playing, handle).drop_last() == sent,
{
    if playing.contains(handle) {
        assert(stopped(sent, playing, handle).drop_last() =~= sent);
    }
}

/// Playing a sound succeeds exactly where it is loaded. The sink is then told to play
/// its sequence, repeated if asked, and before that to stop the sound if it played; it
/// is told nothing otherwise. Whether other sounds play is left alone.
pub proof fn law_playing_tells_the_sink<S: AudioSink>(
    audio: &mut Audio<S>,
    handle: AudioHandle,
    repeat: bool,
    done: Result<(), AudioError>,
)
    requires
        old(audio).wf(),
        call_ensures(Audio::<S>::play, (audio, handle, repeat), done),
    ensures
        ({
            let n = old(audio).sent().len() as int;
            let sent = final(audio).sent();
            let loaded = old(audio).files().dom().contains(handle);
            let played = old(audio).playing().contains(handle);
            &&& done is Ok == loaded
            &&& sent.take(n) == old(audio).sent()
            &&& !loaded ==> sent.len() == n
            &&& loaded ==> sent.len() == n + (if played {
                2int
            } else {
                1
            })
            &&& loaded && played ==> sent[n] == (AudioCommand::Stop { handle })
            &&& loaded ==> sent.last() == (AudioCommand::Play {
                handle,
                id: old(audio).files()[handle],
                repeat,
            })
            &&& final(audio).files() == old(audio).files()
            &&& forall|other: AudioHandle| #[trigger]
                final(audio).playing().contains(other) == (old(audio).playing().contains(other)
                    || loaded && other == handle)
        }),
{
    let n = old(audio).sent().len() as int;
    assert(final(audio).sent().take(n) =~= old(audio).sent());
}

/// Stopping a sound tells the sink so exactly where it plays, and leaves all other sounds
/// as they were.
pub proof fn law_stopping_tells_the_sink<S: AudioSink>(audio: &mut Audio<S>, handle: AudioHandle)
    requires
        old(audio).wf(),
        call_ensures(Audio::<S>::stop, (audio, handle), ()),
    ensures
        ({
            let n = old(audio).sent().len() as int;
            let sent = final(audio).sent();
            &&& sent.take(n) == old(audio).sent()
            &&& old(audio).playing().contains(handle) ==> sent.len() == n + 1 && sent[n] == (
            AudioCommand::Stop { handle })
            &&& !old(audio).playing().contains(handle) ==> sent.len() == n
            &&& final(audio).files() == old(audio).files()
            &&& forall|other: AudioHandle| #[trigger]
                final(audio).playing().contains(other) == (old(audio).playing().contains(other)
                    && other != handle)
        }),
{
    let n = old(audio).sent().len() as int;
    assert(final(audio).sent().take(n) =~= old(audio).sent());
}

/// Closing a sound succeeds exactly where it is loaded. The sink is told to stop it, if it
/// plays, and then to forget its sequence; the sound can then neither be played nor
/// closed, and all others are as they were.
pub proof fn law_closing_tells_the_sink<S: AudioSink>(
    audio: &mut Audio<S>,
    handle: AudioHandle,
    done: Result<(), AudioError>,
)
    requires
        old(audio).wf(),
        call_ensures(Audio::<S>::close, (audio, handle), done),
    ensures
        ({
            let n = old(audio).sent().len() as int;
            let sent = final(audio).sent();
            let loaded = old(audio).files().dom().contains(handle);
            let played = old(audio).playing().contains(handle);
            &&& done is Ok == loaded
            &&& sent.take(n) == old(audio).sent()
            &&& !loaded ==> sent.len() == n
            &&& loaded ==> sent.len() == n + (if played {
                2int
            } else {
                1
            })
            &&& loaded && played ==> sent[n] == (AudioCommand::Stop { handle })
            &&& loaded ==> sent.last() == (AudioCommand::Unregister {
                id: old(audio).files()[handle],
            })
            &&& !final(audio).files().dom().contains(handle)
            &&& forall|other: AudioHandle|
                #![trigger final(audio).files().dom().contains(other)]
                other != handle ==> final(audio).files().dom().contains(other)
                    == old(audio).files().dom().contains(other)
            &&& forall|other: AudioHandle|
                #![trigger final(audio).files()[other]]
                other != handle && old(audio).files().dom().contains(other)
                    ==> final(audio).files()[other] == old(audio).files()[other]
            &&& forall|other: AudioHandle| #[trigger]
                final(audio).playing().contains(other) == (old(audio).playing().contains(other)
                    && other != handle)
        }),
{
    let n = old(audio).sent().len() as int;
    assert(final(audio).sent().take(n) =~= old(audio).sent());
}

/// A shutdown tells the sink to stop every sound that plays and then to forget every
/// loaded sequence, each once and in ascending order, and nothing else. No sound is left.
pub proof fn law_shutting_down_tells_the_sink<S: AudioSink>(audio: &mut Audio<S>)
    requires
        old(audio).wf(),
        call_ensures(Audio::<S>::shutdown, (audio,), ()),
    ensures
        ({
            let n = old(audio).sent().len() as int;
            let p = old(audio).playing().len() as int;
            let sent = final(audio).sent();
            &&& sent.take(n) == old(audio).sent()
            &&& sent.len() == n + p + old(audio).files().dom().len()
            &&& forall|handle: AudioHandle| #[trigger]
                old(audio).playing().contains(handle) ==> exists|i: int|
                    n <= i < n + p && #[trigger] sent[i] == (AudioCommand::Stop { handle })
            &&& forall|handle: AudioHandle| #[trigger]
                old(audio).files().dom().contains(handle) ==> exists|i: int|
                    n + p <= i < sent.len() && #[trigger] sent[i] == (AudioCommand::Unregister {
                        id: old(audio).files()[handle],
                    })
            &&& forall|i: int, j: int|
                n <= i < j < n + p ==> match (#[trigger] sent[i], #[trigger] sent[j]) {
                    (AudioCommand::Stop { handle: a }, AudioCommand::Stop { handle: b }) => a < b,
                    _ => false,
                }
            &&& forall|i: int, j: int|
                n + p <= i < j < sent.len() ==> match (#[trigger] sent[i], #[trigger] sent[j]) {
                    (AudioCommand::Unregister { id: a }, AudioCommand::Unregister { id: b }) => a.0
                        < b.0,
                    _ => false,
                }
            &&& forall|handle: AudioHandle| !(#[trigger] final(audio).files().dom().contains(handle))
            &&& forall|handle: AudioHandle| !(#[trigger] final(audio).playing().contains(handle))
        }),
{
    let before = old(audio).sent();
    let files = old(audio).files();
    let sent = final(audio).sent();
    let n = before.len() as int;
    let (playing, loaded) = choose|playing: Seq<AudioHandle>, loaded: Seq<AudioHandle>|
        {
            &&& ascending(playing, old(audio).playing())
            &&& ascending(loaded, old(audio).files().dom())
            &&& final(audio).sent() == old(audio).sent() + #[trigger] stops(playing)
                + #[trigger] unregisters(loaded, old(audio).files())
        };
    law_shutdown_reaches_every_sound(playing, loaded, old(audio).playing(), files);
    let p = stops(playing).len() as int;
    assert(sent.take(n) =~= before);
    assert forall|i: int, j: int| n <= i < j < n + p implies match (
        #[trigger] sent[i],
        #[trigger] sent[j],
    ) {
        (AudioCommand::Stop { handle: a }, AudioCommand::Stop { handle: b }) => a < b,
        _ => false,
    } by {
        assert(sent[i] == stops(playing)[i - n] && sent[j] == stops(playing)[j - n]);
        assert(playing[i - n] < playing[j - n]);
    }
    assert forall|i: int, j: int| n + p <= i < j < sent.len() implies match (
        #[trigger] sent[i],
        #[trigger] sent[j],
    ) {
        (AudioCommand::Unregister { id: a }, AudioCommand::Unregister { id: b }) => a.0 < b.0,
        _ => false,
    } by {
        let a = i - n - p;
        let b = j - n - p;
        assert(sent[i] == unregisters(loaded, files)[a] && sent[j] == unregisters(
            loaded,
            files,
        )[b]);
        assert(loaded[a] < loaded[b]);
        assert(loaded.to_set().contains(loaded[a]) && loaded.to_set().contains(loaded[b]));
        assert(files.dom().contains(loaded[a]) && files.dom().contains(loaded[b]));
    }
    assert forall|handle: AudioHandle| #[trigger] old(audio).playing().contains(handle) implies exists|
        i: int,
    | n <= i < n + p && #[trigger] sent[i] == (AudioCommand::Stop { handle }) by {
        assert(stops(playing).contains(AudioCommand::Stop { handle }));
        let k = choose|k: int|
            0 <= k < stops(playing).len() && stops(playing)[k] == (AudioCommand::Stop { handle });
        assert(sent[n + k] == (AudioCommand::Stop { handle }));
    }
    assert forall|handle: AudioHandle| #[trigger] files.dom().contains(handle) implies exists|i: int|
        n + p <= i < sent.len() && #[trigger] sent[i] == (AudioCommand::Unregister {
            id: files[handle],
        }) by {
        let all = unregisters(loaded, files);
        assert(all.contains(AudioCommand::Unregister { id: files[handle] }));
        let k = choose|k: int|
            0 <= k < all.len() && all[k] == (AudioCommand::Unregister { id: files[handle] });
        assert(sent[n + p + k] == (AudioCommand::Unregister { id: files[handle] }));
    }
}

/// Loading data that is no score makes a silent sound, and loading a score makes one with
/// the score's events, wherever a handle is left. Both are registered once, under a
/// handle that no sound has.
pub proof fn law_loading_tells_the_sink<S: AudioSink>(
    audio: &mut Audio<S>,
    data: &[u8],
    loaded: Result<AudioHandle, AudioError>,
)
    requires
        old(audio).wf(),
        call_ensures(Audio::<S>::load_smaf, (audio, data), loaded),
    ensures
        loaded is Err == (old(audio).next_handle() == 0xffff_ffff),
        loaded is Err ==> final(audio).sent() == old(audio).sent() && final(audio).files()
            == old(audio).files(),
        loaded matches Ok(new) ==> {
            let n = old(audio).sent().len() as int;
            &&& !old(audio).files().dom().contains(new)
            &&& final(audio).files().dom() == old(audio).files().dom().insert(new)
            &&& !final(audio).playing().contains(new)
            &&& final(audio).sent().len() == n + 1
            &&& final(audio).sent()[n] matches AudioCommand::Register { id, sequence } && id
                == final(audio).files()[new] && (!(data@.len() >= 4 && data@[0] == 77 && data@[1]
                == 77 && data@[2] == 77 && data@[3] == 68) ==> sequence.events@.len() == 0
                && sequence.duration == 0)
        },
{
    let events = if starts_smaf(data@) {
        smaf_events(data@)->0
    } else {
        Seq::empty()
    };
    law_loading_registers_a_new_sound(old(audio), final(audio), events, loaded);
    law_a_sequence_lasts_to_its_latest_event(events);
}

/// A score is converted event by event: only its ends send nothing, every other event
/// keeps its time, and the sequence lasts to the latest of all, ends included.
pub proof fn law_conversion_keeps_times_and_events(
    events: Vec<(usize, SmafEvent)>,
    sequence: AudioSequence,
)
    requires
        call_ensures(convert_smaf_events, (events,), sequence),
    ensures
        sequence.events@.len() <= events@.len(),
        forall|i: int| 0 <= i < events@.len() ==> (#[trigger] events@[i]).0 <= sequence.duration,
        events@.len() > 0 ==> exists|i: int|
            0 <= i < events@.len() && (#[trigger] events@[i]).0 == sequence.duration,
        (forall|i: int| 0 <= i < events@.len() ==> !((#[trigger] events@[i]).1@ is End)) ==> {
            &&& sequence.events@.len() == events@.len()
            &&& forall|i: int|
                0 <= i < events@.len() ==> (#[trigger] sequence.events@[i]).time == events@[i].0
                    && Some(sequence.events@[i].data@) == transported(events@[i].1@)
        },
{
    let all = event_views(events@);
    law_a_sequence_lasts_to_its_latest_event(all);
    assert(sequence.duration == converted(all).duration);
    let views = sequence.events@.map_values(|event: TimedAudioEvent| event@);
    assert(views == converted(all).events);
    assert forall|i: int| 0 <= i < events@.len() implies (#[trigger] events@[i]).0
        <= sequence.duration by {
        assert(all[i].0 == events@[i].0);
    }
    if events@.len() > 0 {
        let i = choose|i: int|
            0 <= i < all.len() && (#[trigger] all[i]).0 == converted(all).duration;
        assert(events@[i].0 == sequence.duration);
    }
    lemma_conversion_in_step(all);
    if forall|i: int| 0 <= i < events@.len() ==> !((#[trigger] events@[i]).1@ is End) {
        assert forall|i: int| 0 <= i < all.len() implies !((#[trigger] all[i]).1 is End) by {
            assert(all[i].1 == events@[i].1@);
        }
        assert forall|i: int| 0 <= i < events@.len() implies (#[trigger] sequence.events@[i]).time
            == events@[i].0 && Some(sequence.events@[i].data@) == transported(events@[i].1@) by {
            assert(views[i] == sequence.events@[i]@);
            assert(all[i] == (events@[i].0, events@[i].1@));
        }
    }
}

proof fn lemma_conversion_in_step(events: Seq<(usize, SmafEventView)>)
    ensures
        transported_all(events).len() <= events.len(),
        (forall|i: int| 0 <= i < events.len() ==> !((#[trigger] events[i]).1 is End)) ==> {
            &&& transported_all(events).len() == events.len()
            &&& forall|i: int|
                0 <= i < events.len() ==> (#[trigger] transported_all(events)[i]).time == events[i].0
                    && Some(transported_all(events)[i].data) == transported(events[i].1)
        },
    decreases events.len(),
{
    if events.len() > 0 {
        let front = events.drop_last();
        lemma_conversion_in_step(front);
        if forall|i: int| 0 <= i < events.len() ==> !((#[trigger] events[i]).1 is End) {
            assert forall|i: int| 0 <= i < front.len() implies !((#[trigger] front[i]).1 is End) by {
                assert(front[i] == events[i]);
            }
            assert(!(events[events.len() - 1].1 is End));
            law_messages_can_be_read_back(events.last().1);
            assert forall|i: int| 0 <= i < events.len() implies (#[trigger] transported_all(
                events,
            )[i]).time == events[i].0 && Some(transported_all(events)[i].data) == transported(
                events[i].1,
            ) by {
                if i < front.len() {
                    assert(transported_all(events)[i] == transported_all(front)[i]);
                    assert(front[i] == events[i]);
                }
            }
        }
    }
}

/// Data is refused exactly where it begins as a score does and is no plain one; otherwise
/// it is loaded as any other.
pub proof fn law_only_plain_scores_are_loaded<S: AudioSink>(
    audio: &mut Audio<S>,
    data: &[u8],
    plain: bool,
    loaded: Option<Result<AudioHandle, AudioError>>,
)
    requires
        old(audio).wf(),
        call_ensures(score_is_plain, (data,), plain),
        call_ensures(Audio::<S>::load_plain, (audio, data), loaded),
    ensures
        loaded is None == (data@.len() >= 4 && data@[0] == 77 && data@[1] == 77 && data@[2] == 77
            && data@[3] == 68 && !plain),
        loaded is None ==> *final(audio) == *old(audio),
        loaded matches Some(Ok(new)) ==> !old(audio).files().dom().contains(new)
            && final(audio).files().dom().contains(new) && final(audio).sent().len() == old(
            audio,
        ).sent().len() + 1,
        loaded matches Some(Err(_)) ==> old(audio).next_handle() == 0xffff_ffff,
{
}

} // verus!

//! What the web frontend's audio player is called with.

use crate::audio::{
    AudioCommand, AudioDataView, AudioEventData, AudioEventView, AudioHandle, TimedAudioEvent,
};
use crate::text::concatenated;
use vstd::prelude::*;

verus! {

/// A value that is handed to the player.
#[derive(Debug, PartialEq, Eq)]
pub enum TransportValue {
    Number(u64),
    Text(String),
    Bytes(Vec<u8>),
    Samples(Vec<i16>),
}

/// A call of the player.
#[derive(Debug, PartialEq, Eq)]
pub enum TransportCall {
    Register { id: u32, duration: u64, events: Vec<Vec<TransportValue>> },
    PlayRegistered { handle: AudioHandle, id: u32, repeat: bool },
    Stop { handle: AudioHandle },
    Unregister { id: u32 },
}

/// The meaning of a [`TransportValue`].
pub enum TransportValueView {
    Number(u64),
    Text(Seq<char>),
    Bytes(Seq<u8>),
    Samples(Seq<i16>),
}

/// The meaning of a [`TransportCall`].
pub enum TransportCallView {
    Register { id: u32, duration: u64, events: Seq<Seq<TransportValueView>> },
    PlayRegistered { handle: AudioHandle, id: u32, repeat: bool },
    Stop { handle: AudioHandle },
    Unregister { id: u32 },
}

impl View for TransportValue {
    type V = TransportValueView;

    open spec fn view(&self) -> TransportValueView {
        match self {
            TransportValue::Number(number) => TransportValueView::Number(*number),
            TransportValue::Text(text) => TransportValueView::Text(text@),
            TransportValue::Bytes(bytes) => TransportValueView::Bytes(bytes@),
            TransportValue::Samples(samples) => TransportValueView::Samples(samples@),
        }
    }
}

/// The meaning of an encoded event.
pub open spec fn value_views(values: Seq<TransportValue>) -> Seq<TransportValueView> {
    values.map_values(|value: TransportValue| value@)
}

impl View for TransportCall {
    type V = TransportCallView;

    open spec fn view(&self) -> TransportCallView {
        match self {
            TransportCall::Register { id, duration, events } => TransportCallView::Register {
                id: *id,
                duration: *duration,
                events: events@.map_values(|values: Vec<TransportValue>| value_views(values@)),
            },
            TransportCall::PlayRegistered { handle, id, repeat } =>
            TransportCallView::PlayRegistered { handle: *handle, id: *id, repeat: *repeat },
            TransportCall::Stop { handle } => TransportCallView::Stop { handle: *handle },
            TransportCall::Unregister { id } => TransportCallView::Unregister { id: *id },
        }
    }
}

/// An event as the player takes it: its time, its kind, and what belongs to the
/// kind.
pub open spec fn encoded(event: AudioEventView) -> Seq<TransportValueView> {
    match event.data {
        AudioDataView::Midi(message) => seq![
            TransportValueView::Number(event.time),
            TransportValueView::Text("midi"@),
            TransportValueView::Bytes(message),
        ],
        AudioDataView::Wave { channels, sampling_rate, samples } => seq![
            TransportValueView::Number(event.time),
            TransportValueView::Text("wave"@),
            TransportValueView::Number(channels as u64),
            TransportValueView::Number(sampling_rate as u64),
            TransportValueView::Samples(samples),
        ],
    }
}

/// The call that a command makes.
pub open spec fn call_of(command: AudioCommand) -> TransportCallView {
    match command {
        AudioCommand::Register { id, sequence } => TransportCallView::Register {
            id: id.0,
            duration: (*sequence)@.duration,
            events: (*sequence)@.events.map_values(|event: AudioEventView| encoded(event)),
        },
        AudioCommand::Play { handle, id, repeat } => TransportCallView::PlayRegistered {
            handle,
            id: id.0,
            repeat,
        },
        AudioCommand::Stop { handle } => TransportCallView::Stop { handle },
        AudioCommand::Unregister { id } => TransportCallView::Unregister { id: id.0 },
    }
}

/// Nothing of an event is lost on the way to the player: events that are encoded
/// alike are alike.
pub proof fn law_encoding_loses_nothing(a: AudioEventView, b: AudioEventView)
    requires
        encoded(a) == encoded(b),
    ensures
        a == b,
{
    let x = encoded(a);
    let y = encoded(b);
    assert(x[0] == y[0]);
    assert(x.len() == y.len());
    assert(x[2] == y[2]);
    if x.len() == 5 {
        assert(x[3] == y[3]);
        assert(x[4] == y[4]);
    }
}

/// An event as the player takes it.
pub fn encode_event(event: &TimedAudioEvent) -> (values: Vec<TransportValue>)
    ensures
        value_views(values@) == encoded(event@),
{
    let mut values: Vec<TransportValue> = Vec::new();
    values.push(TransportValue::Number(event.time));
    match &event.data {
        AudioEventData::Midi(message) => {
            let bytes = message.clone();
            assert(bytes@ =~= message@);
            values.push(TransportValue::Text("midi".to_owned()));
            values.push(TransportValue::Bytes(bytes));
        },
        AudioEventData::Wave { channels, sampling_rate, samples } => {
            let copy = samples.clone();
            assert(copy@ =~= samples@);
            values.push(TransportValue::Text("wave".to_owned()));
            values.push(TransportValue::Number(*channels as u64));
            values.push(TransportValue::Number(*sampling_rate as u64));
            values.push(TransportValue::Samples(copy));
        },
    }
    assert(value_views(values@) =~= encoded(event@));
    values
}

/// The call that a command makes.
pub fn transport_call(command: &AudioCommand) -> (call: TransportCall)
    ensures
        call@ == call_of(*command),
{
    match command {
        AudioCommand::Register { id, sequence } => {
            let mut events: Vec<Vec<TransportValue>> = Vec::new();
            let ghost all = (**sequence)@.events.map_values(|event: AudioEventView| encoded(event));
            let mut i: usize = 0;
            assert(events@.map_values(|values: Vec<TransportValue>| value_views(values@))
                =~= all.take(0));
            while i < sequence.events.len()
                invariant
                    i <= sequence.events.len(),
                    all == (**sequence)@.events.map_values(|event: AudioEventView| encoded(event)),
                    events@.map_values(|values: Vec<TransportValue>| value_views(values@))
                        == all.take(i as int),
                decreases sequence.events.len() - i,
            {
                let ghost before = events@.map_values(
                    |values: Vec<TransportValue>| value_views(values@),
                );
                let values = encode_event(&sequence.events[i]);
                events.push(values);
                assert(events@.map_values(|values: Vec<TransportValue>| value_views(values@))
                    =~= before.push(value_views(values@)));
                assert(all.take(i + 1) =~= all.take(i as int).push(all[i as int]));
                i += 1;
            }
            assert(all.take(i as int) =~= all);
            TransportCall::Register { id: id.0, duration: sequence.duration, events }
        },
        AudioCommand::Play { handle, id, repeat } => TransportCall::PlayRegistered {
            handle: *handle,
            id: id.0,
            repeat: *repeat,
        },
        AudioCommand::Stop { handle } => TransportCall::Stop { handle: *handle },
        AudioCommand::Unregister { id } => TransportCall::Unregister { id: id.0 },
    }
}

/// What is reported when a call of the player fails.
pub fn transport_failure(error: &str) -> (message: String)
    ensures
        message@ == "Audio transport failed: "@ + error@,
{
    concatenated("Audio transport failed: ", error)
}

/// An event is handed over as its time, the word for its kind, and then its bytes, or its
/// channels, its rate and its samples in this order.
pub proof fn law_events_are_handed_over_in_order(event: AudioEventView)
    ensures
        encoded(event)[0] == TransportValueView::Number(event.time),
        event.data matches AudioDataView::Midi(message) ==> encoded(event).len() == 3 && encoded(
            event,
        )[1] == TransportValueView::Text(seq!['m', 'i', 'd', 'i']) && encoded(event)[2]
            == TransportValueView::Bytes(message),
        event.data matches AudioDataView::Wave { channels, sampling_rate, samples } ==> encoded(
            event,
        ).len() == 5 && encoded(event)[1] == TransportValueView::Text(seq!['w', 'a', 'v', 'e'])
            && encoded(event)[2] == TransportValueView::Number(channels as u64) && encoded(event)[3]
            == TransportValueView::Number(sampling_rate as u64) && encoded(event)[4]
            == TransportValueView::Samples(samples),
{
    reveal_strlit("midi");
    reveal_strlit("wave");
    assert("midi"@ =~= seq!['m', 'i', 'd', 'i']);
    assert("wave"@ =~= seq!['w', 'a', 'v', 'e']);
}

/// A command is a call with just what it holds: commands that make the same call have the
/// same numbers, and a sequence that is registered keeps its duration and all its events
/// in order.
pub proof fn law_calls_have_what_commands_hold(command: AudioCommand)
    ensures
        match command {
            AudioCommand::Register { id, sequence } => call_of(command) matches
                TransportCallView::Register { id: number, duration, events } && number == id.0
                && duration == sequence.duration && events.len() == sequence.events@.len()
                && forall|i: int|
                0 <= i < events.len() ==> #[trigger] events[i] == encoded(sequence.events@[i]@),
            AudioCommand::Play { handle, id, repeat } => call_of(command) matches
                TransportCallView::PlayRegistered { handle: sound, id: number, repeat: again }
                && sound == handle && number == id.0 && again == repeat,
            AudioCommand::Stop { handle } => call_of(command) matches TransportCallView::Stop {
                handle: sound,
            } && sound == handle,
            AudioCommand::Unregister { id } => call_of(command) matches
                TransportCallView::Unregister { id: number } && number == id.0,
        },
{
}

/// The player is called with what a command holds, and nothing of a sequence is lost.
pub proof fn law_the_player_is_called_with_the_command(command: &AudioCommand, call: TransportCall)
    requires
        call_ensures(transport_call, (command,), call),
    ensures
        match (*command, call) {
            (
                AudioCommand::Register { id, sequence },
                TransportCall::Register { id: number, duration, events },
            ) => number == id.0 && duration == sequence.duration && events@.len()
                == sequence.events@.len() && forall|i: int|
                0 <= i < events@.len() ==> value_views((#[trigger] events@[i])@) == encoded(
                    sequence.events@[i]@,
                ),
            (
                AudioCommand::Play { handle, id, repeat },
                TransportCall::PlayRegistered { handle: sound, id: number, repeat: again },
            ) => sound == handle && number == id.0 && again == repeat,
            (AudioCommand::Stop { handle }, TransportCall::Stop { handle: sound }) => sound
                == handle,
            (AudioCommand::Unregister { id }, TransportCall::Unregister { id: number }) => number
                == id.0,
            _ => false,
        },
{
    law_calls_have_what_commands_hold(*command);
    if let TransportCall::Register { events, .. } = call {
        let views = events@.map_values(|values: Vec<TransportValue>| value_views(values@));
        assert forall|i: int| 0 <= i < events@.len() implies value_views((#[trigger] events@[i])@)
            == views[i] by {}
    }
}

} // verus!

use std::sync::{Arc, Mutex};

use wie::audio::{
    convert_smaf_events, Audio, AudioCommand, AudioError, AudioEventData, AudioSequence,
    AudioSequenceId, AudioSink, TimedAudioEvent,
};
use wie::smaf::{score_is_plain, SmafEvent};
use wie::transport::{
    encode_event, transport_call, transport_failure, TransportCall, TransportValue,
};

struct RecordingSink(Arc<Mutex<Vec<AudioCommand>>>);

impl AudioSink for RecordingSink {
    fn send(&mut self, command: AudioCommand) {
        self.0.lock().unwrap().push(command);
    }
}

#[test]
fn converts_smaf_events_to_timed_transport() {
    let sequence = convert_smaf_events(vec![
        (5, SmafEvent::MidiProgramChange { channel: 2, program: 7 }),
        (10, SmafEvent::MidiPitchBend { channel: 3, value: 0x1234 }),
        (15, SmafEvent::End),
    ]);

    assert_eq!(
        sequence,
        AudioSequence {
            duration: 15,
            events: vec![
                TimedAudioEvent {
                    time: 5,
                    data: AudioEventData::Midi(vec![0xc2, 7]),
                },
                TimedAudioEvent {
                    time: 10,
                    data: AudioEventData::Midi(vec![0xe3, 0x34, 0x24]),
                },
            ],
        }
    );
}

#[test]
fn every_kind_of_event_is_converted() {
    let sequence = convert_smaf_events(vec![
        (9, SmafEvent::MidiNoteOn { channel: 1, note: 60, velocity: 100 }),
        (7, SmafEvent::MidiNoteOff { channel: 1, note: 60, velocity: 0 }),
        (3, SmafEvent::MidiControlChange { channel: 15, control: 7, value: 90 }),
        (2, SmafEvent::MidiSysEx(vec![0xf0, 1, 0xf7])),
        (1, SmafEvent::Wave { channel: 2, sampling_rate: 8000, data: vec![-1, 2] }),
    ]);
    assert_eq!(sequence.duration, 9);
    let data: Vec<AudioEventData> = sequence.events.into_iter().map(|event| event.data).collect();
    assert_eq!(
        data,
        vec![
            AudioEventData::Midi(vec![0x91, 60, 100]),
            AudioEventData::Midi(vec![0x81, 60, 0]),
            AudioEventData::Midi(vec![0xbf, 7, 90]),
            AudioEventData::Midi(vec![0xf0, 1, 0xf7]),
            AudioEventData::Wave { channels: 2, sampling_rate: 8000, samples: vec![-1, 2] },
        ]
    );
    assert_eq!(convert_smaf_events(Vec::new()).duration, 0);
}

#[test]
fn replay_stops_previous_playback_before_starting_again() {
    let commands = Arc::new(Mutex::new(Vec::new()));
    let mut audio = Audio::new(RecordingSink(commands.clone()));
    let handle = audio.load_smaf(&[]).unwrap();

    audio.play(handle, false).unwrap();
    audio.play(handle, true).unwrap();

    let commands = commands.lock().unwrap();
    let AudioCommand::Register { id, .. } = &commands[0] else {
        panic!("expected one registration before playback");
    };
    assert_eq!(
        commands[1],
        AudioCommand::Play {
            handle,
            id: *id,
            repeat: false
        }
    );
    assert_eq!(commands[2], AudioCommand::Stop { handle });
    assert_eq!(
        commands[3],
        AudioCommand::Play {
            handle,
            id: *id,
            repeat: true
        }
    );
    assert_eq!(commands.len(), 4);
}

#[test]
fn close_stops_playback_and_removes_the_handle() {
    let commands = Arc::new(Mutex::new(Vec::new()));
    let mut audio = Audio::new(RecordingSink(commands.clone()));
    let handle = audio.load_smaf(&[]).unwrap();

    audio.play(handle, false).unwrap();
    audio.close(handle).unwrap();

    assert_eq!(commands.lock().unwrap()[2], AudioCommand::Stop { handle });
    assert!(matches!(commands.lock().unwrap()[3], AudioCommand::Unregister { .. }));
    assert!(audio.play(handle, false).is_err());

    let next = audio.load_smaf(&[]).unwrap();
    audio.play(next, true).unwrap();
    audio.shutdown();
    assert_eq!(commands.lock().unwrap()[6], AudioCommand::Stop { handle: next });
    assert!(audio.play(next, false).is_err());
    audio.shutdown();
    assert_eq!(commands.lock().unwrap().len(), 8);
}

#[test]
fn shutdown_goes_by_ascending_handles() {
    let commands = Arc::new(Mutex::new(Vec::new()));
    let mut audio = Audio::new(RecordingSink(commands.clone()));
    for _ in 0..3 {
        audio.load_smaf(b"no score").unwrap();
    }
    audio.play(2, false).unwrap();
    audio.play(0, false).unwrap();
    commands.lock().unwrap().clear();
    audio.shutdown();
    assert_eq!(
        *commands.lock().unwrap(),
        vec![
            AudioCommand::Stop { handle: 0 },
            AudioCommand::Stop { handle: 2 },
            AudioCommand::Unregister { id: AudioSequenceId(1) },
            AudioCommand::Unregister { id: AudioSequenceId(2) },
            AudioCommand::Unregister { id: AudioSequenceId(3) },
        ]
    );
    assert_eq!(audio.close(1), Err(AudioError::InvalidHandle));
    assert_eq!(audio.play(1, true), Err(AudioError::InvalidHandle));
}

fn chunk(tag: &[u8], data: &[u8]) -> Vec<u8> {
    let mut chunk = tag.to_vec();
    chunk.extend_from_slice(&(data.len() as u32).to_be_bytes());
    chunk.extend_from_slice(data);
    chunk
}

#[test]
fn a_score_is_parsed_and_registered() {
    // A mobile score track: a note on channel 0 after no time, then the end.
    let mut track = vec![2, 0, 2, 2];
    track.extend_from_slice(&[0; 16]);
    track.extend(chunk(b"Mtsq", &[0, 0x90, 60, 100, 4, 4, 0xff, 0x2f, 0]));
    let mut body = chunk(b"CNTI", &[0, 0, 0, 0, 0]);
    body.extend(chunk(b"MTR\x05", &track));
    body.extend_from_slice(&[0, 0]);
    let data = chunk(b"MMMD", &body);

    let parsed = smaf_player::parse_smaf(&data).len();
    assert!(parsed > 0);
    let commands = Arc::new(Mutex::new(Vec::new()));
    let mut audio = Audio::new(RecordingSink(commands.clone()));
    assert_eq!(audio.load_smaf(&data), Ok(0));
    let commands = commands.lock().unwrap();
    let AudioCommand::Register { id, sequence } = &commands[0] else {
        panic!("expected a registration");
    };
    assert_eq!(*id, AudioSequenceId(1));
    assert!(sequence
        .events
        .iter()
        .any(|event| event.data == AudioEventData::Midi(vec![0x90, 60, 100])));
}

/// A score with one track of the oldest format, with these notes and a setup.
fn plain_score(timebase: u8, notes: &[u8]) -> Vec<u8> {
    let mut track = vec![0, 0, timebase, 2, 0, 0];
    track.extend(chunk(b"Mtsu", &[0xf0, 3, 0x43, 0x79, 0xf7]));
    track.extend(chunk(b"Mtsq", notes));
    let mut body = chunk(b"CNTI", &[0, 0, 0, 0, 0]);
    body.extend(chunk(b"MTR\x05", &track));
    body.extend_from_slice(&[0, 0]);
    chunk(b"MMMD", &body)
}

#[test]
fn plain_scores_and_other_data_are_loaded() {
    let commands = Arc::new(Mutex::new(Vec::new()));
    let mut audio = Audio::new(RecordingSink(commands.clone()));
    assert_eq!(audio.load_plain(b"MMM"), Some(Ok(0)));
    let data = plain_score(2, &[2, 0x1c, 5, 0, 0, 0x37, 0x50, 0, 0xff, 0xf0, 1, 0xf7, 0, 0, 0, 0]);
    assert!(smaf_player::parse_smaf(&data).len() > 2);
    assert_eq!(audio.load_plain(&data), Some(Ok(1)));
    let commands = commands.lock().unwrap();
    let AudioCommand::Register { sequence, .. } = &commands[0] else {
        panic!("expected a registration");
    };
    assert_eq!(**sequence, AudioSequence { duration: 0, events: Vec::new() });
    let AudioCommand::Register { id, sequence } = &commands[1] else {
        panic!("expected a registration");
    };
    assert_eq!(*id, AudioSequenceId(2));
    // The first note sounds two units of four milliseconds after the start.
    let start = sequence
        .events
        .iter()
        .find(|event| matches!(&event.data, AudioEventData::Midi(message) if message[0] & 0xf0 == 0x90))
        .unwrap();
    assert_eq!(start.time, 8);
}

#[test]
fn scores_that_are_not_plain_are_left_alone() {
    let commands = Arc::new(Mutex::new(Vec::new()));
    let mut audio = Audio::new(RecordingSink(commands.clone()));
    let end = [0, 0, 0, 0];
    assert!(score_is_plain(&plain_score(2, &end)));
    // A time base that there is not, a stray status, and a wide pitch bend.
    assert_eq!(audio.load_plain(&plain_score(9, &end)), None);
    assert_eq!(audio.load_plain(&plain_score(2, &[0, 0xff, 1, 0, 0, 0, 0])), None);
    assert_eq!(audio.load_plain(&plain_score(2, &[0, 0, 0x14, 0, 0, 0, 0])), None);
    // A second track, sampled sound, a newer format, and a long length.
    let mut twice = plain_score(2, &end);
    twice.extend(plain_score(2, &end));
    assert_eq!(audio.load_plain(&twice), None);
    for tag in [&b"ATR\0"[..], b"SEQU", b"Mtsp"] {
        let mut data = plain_score(2, &end);
        data.extend_from_slice(tag);
        assert_eq!(audio.load_plain(&data), None);
    }
    let mut newer = plain_score(2, &end);
    let track = newer.windows(3).position(|bytes| bytes == b"MTR").unwrap();
    newer[track + 8] = 2;
    assert_eq!(audio.load_plain(&newer), None);
    let mut long = plain_score(2, &end);
    long.extend_from_slice(&[0x80; 4]);
    assert_eq!(audio.load_plain(&long), None);
    assert_eq!(audio.load_plain(&[&b"MMMD"[..], &[1; 15_000]].concat()), None);
    assert!(commands.lock().unwrap().is_empty());
}

#[test]
fn commands_become_calls_of_the_player() {
    let midi = TimedAudioEvent { time: 4, data: AudioEventData::Midi(vec![0x90, 1, 2]) };
    let wave = TimedAudioEvent {
        time: 6,
        data: AudioEventData::Wave { channels: 1, sampling_rate: 4000, samples: vec![5, -5] },
    };
    assert_eq!(
        encode_event(&midi),
        vec![
            TransportValue::Number(4),
            TransportValue::Text("midi".into()),
            TransportValue::Bytes(vec![0x90, 1, 2]),
        ]
    );
    assert_eq!(
        transport_call(&AudioCommand::Register {
            id: AudioSequenceId(3),
            sequence: Arc::new(AudioSequence { duration: 9, events: vec![wave] }),
        }),
        TransportCall::Register {
            id: 3,
            duration: 9,
            events: vec![vec![
                TransportValue::Number(6),
                TransportValue::Text("wave".into()),
                TransportValue::Number(1),
                TransportValue::Number(4000),
                TransportValue::Samples(vec![5, -5]),
            ]],
        }
    );
    assert_eq!(
        transport_call(&AudioCommand::Play { handle: 1, id: AudioSequenceId(2), repeat: true }),
        TransportCall::PlayRegistered { handle: 1, id: 2, repeat: true }
    );
    assert_eq!(
        transport_call(&AudioCommand::Stop { handle: 1 }),
        TransportCall::Stop { handle: 1 }
    );
    assert_eq!(
        transport_call(&AudioCommand::Unregister { id: AudioSequenceId(2) }),
        TransportCall::Unregister { id: 2 }
    );
    assert_eq!(transport_failure("gone"), "Audio transport failed: gone");
}

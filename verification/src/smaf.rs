//! Scores in the SMAF format, as the `smaf-player` crate reads them.

use crate::audio::event_views;
use smaf_player::SmafEvent as Parsed;
use vstd::prelude::*;

verus! {

/// An event of a score.
#[allow(inconsistent_fields)]
#[derive(Debug, PartialEq, Eq)]
pub enum SmafEvent {
    Wave { channel: u8, sampling_rate: u32, data: Vec<i16> },
    MidiNoteOn { channel: u8, note: u8, velocity: u8 },
    MidiNoteOff { channel: u8, note: u8, velocity: u8 },
    MidiProgramChange { channel: u8, program: u8 },
    MidiControlChange { channel: u8, control: u8, value: u8 },
    MidiPitchBend { channel: u8, value: u16 },
    MidiSysEx(Vec<u8>),
    End,
}

/// The meaning of a [`SmafEvent`].
#[allow(inconsistent_fields)]
pub enum SmafEventView {
    Wave { channel: u8, sampling_rate: u32, data: Seq<i16> },
    MidiNoteOn { channel: u8, note: u8, velocity: u8 },
    MidiNoteOff { channel: u8, note: u8, velocity: u8 },
    MidiProgramChange { channel: u8, program: u8 },
    MidiControlChange { channel: u8, control: u8, value: u8 },
    MidiPitchBend { channel: u8, value: u16 },
    MidiSysEx(Seq<u8>),
    End,
}

impl View for SmafEvent {
    type V = SmafEventView;

    open spec fn view(&self) -> SmafEventView {
        match self {
            SmafEvent::Wave { channel, sampling_rate, data } => SmafEventView::Wave {
                channel: *channel,
                sampling_rate: *sampling_rate,
                data: data@,
            },
            SmafEvent::MidiNoteOn { channel, note, velocity } => SmafEventView::MidiNoteOn {
                channel: *channel,
                note: *note,
                velocity: *velocity,
            },
            SmafEvent::MidiNoteOff { channel, note, velocity } => SmafEventView::MidiNoteOff {
                channel: *channel,
                note: *note,
                velocity: *velocity,
            },
            SmafEvent::MidiProgramChange { channel, program } => SmafEventView::MidiProgramChange {
                channel: *channel,
                program: *program,
            },
            SmafEvent::MidiControlChange { channel, control, value } =>
            SmafEventView::MidiControlChange { channel: *channel, control: *control, value: *value },
            SmafEvent::MidiPitchBend { channel, value } => SmafEventView::MidiPitchBend {
                channel: *channel,
                value: *value,
            },
            SmafEvent::MidiSysEx(message) => SmafEventView::MidiSysEx(message@),
            SmafEvent::End => SmafEventView::End,
        }
    }
}

/// Whether data begins as a score does, with `MMMD`.
pub open spec fn starts_smaf(data: Seq<u8>) -> bool {
    &&& data.len() >= 4
    &&& data[0] == 0x4d
    &&& data[1] == 0x4d
    &&& data[2] == 0x4d
    &&& data[3] == 0x44
}

/// The bytes up to which a score is taken for a plain one. In so few, the times of
/// all events fit 32 bits.
pub const PLAIN_SCORE_BYTES: usize = 15_000;

/// Whether `tag` stands at `at`.
pub open spec fn has_tag(data: Seq<u8>, at: int, tag: Seq<u8>) -> bool {
    0 <= at && at + tag.len() <= data.len() && data.subrange(at, at + tag.len()) == tag
}

/// The beginning of the tag of a score track, `MTR`.
pub open spec fn track_tag() -> Seq<u8> {
    seq![0x4d, 0x54, 0x52]
}

/// The tag of a track's notes, `Mtsq`.
pub open spec fn sequence_tag() -> Seq<u8> {
    seq![0x4d, 0x74, 0x73, 0x71]
}

/// The tag of a track's setup data, `Mtsu`.
pub open spec fn setup_tag() -> Seq<u8> {
    seq![0x4d, 0x74, 0x73, 0x75]
}

/// The tag of a track's sampled sound, `Mtsp`.
pub open spec fn sample_tag() -> Seq<u8> {
    seq![0x4d, 0x74, 0x73, 0x70]
}

/// The beginning of the tag of a track of sampled sound, `ATR`.
pub open spec fn wave_tag() -> Seq<u8> {
    seq![0x41, 0x54, 0x52]
}

/// The tag of a sequence outside of tracks, `SEQU`.
pub open spec fn loose_tag() -> Seq<u8> {
    seq![0x53, 0x45, 0x51, 0x55]
}

/// Whether a byte stands for a time base.
pub open spec fn is_timebase(byte: u8) -> bool {
    byte <= 3 || 0x10 <= byte <= 0x13
}

/// Whether the track whose tag stands at `at` is in the oldest format, with time
/// bases that there are.
pub open spec fn plain_track(data: Seq<u8>, at: int) -> bool {
    &&& at + 8 < data.len() ==> data[at + 8] == 0
    &&& at + 10 < data.len() ==> is_timebase(data[at + 10])
    &&& at + 11 < data.len() ==> is_timebase(data[at + 11])
}

/// Whether two neighbours can stand among notes: nothing but an exclusive message
/// or a pause follows `0xff`, and no short pitch bend above a quarter follows zero.
pub open spec fn plain_neighbours(a: u8, b: u8) -> bool {
    &&& a == 0xff ==> b == 0 || b == 0xf0
    &&& a == 0 ==> !(0x14 <= b % 64 <= 0x1e)
}

/// Whether all neighbours from `from` on can stand among notes.
pub open spec fn plain_notes(data: Seq<u8>, from: int) -> bool {
    forall|j: int|
        from <= j < data.len() - 1 ==> plain_neighbours(#[trigger] data[j], data[j + 1])
}

/// Whether four bytes in a row have their high bit set.
pub open spec fn has_long_run(data: Seq<u8>, at: int) -> bool {
    &&& at + 4 <= data.len()
    &&& data[at] >= 0x80
    &&& data[at + 1] >= 0x80
    &&& data[at + 2] >= 0x80
    &&& data[at + 3] >= 0x80
}

/// Whether no number from `from` on has more than four bytes.
pub open spec fn plain_lengths(data: Seq<u8>, from: int) -> bool {
    forall|j: int| from <= j < data.len() ==> !#[trigger] has_long_run(data, j)
}

/// Whether what stands at `at` can stand in a plain score.
pub open spec fn plain_at(data: Seq<u8>, at: int) -> bool {
    &&& !has_tag(data, at, wave_tag())
    &&& !has_tag(data, at, loose_tag())
    &&& !has_tag(data, at, sample_tag())
    &&& has_tag(data, at, track_tag()) ==> plain_track(data, at)
    &&& has_tag(data, at, sequence_tag()) ==> plain_notes(data, at + 8)
    &&& has_tag(data, at, setup_tag()) ==> plain_lengths(data, at)
}

/// Whether a score is a plain one: short, with at most one track, in the oldest
/// format and without sampled sound, and with none of the bytes that such a track
/// cannot have. No such score makes `parse_smaf` panic.
pub open spec fn is_plain_score(data: Seq<u8>) -> bool {
    &&& data.len() <= PLAIN_SCORE_BYTES
    &&& forall|at: int| 0 <= at < data.len() ==> #[trigger] plain_at(data, at)
    &&& forall|i: int, j: int|
        0 <= i < j < data.len() ==> !(#[trigger] has_tag(data, i, track_tag()) && #[trigger] has_tag(
            data,
            j,
            track_tag(),
        ))
}

/// Whether `tag` stands at `at`.
fn tag_at(data: &[u8], at: usize, tag: &[u8]) -> (found: bool)
    requires
        at <= data@.len(),
    ensures
        found == has_tag(data@, at as int, tag@),
{
    if data.len() - at < tag.len() {
        return false;
    }
    let mut i: usize = 0;
    while i < tag.len()
        invariant
            i <= tag@.len(),
            at + tag@.len() <= data@.len() <= usize::MAX,
            forall|k: int| 0 <= k < i ==> data@[at + k] == #[trigger] tag@[k],
        decreases tag@.len() - i,
    {
        if data[at + i] != tag[i] {
            assert(data@.subrange(at as int, at + tag@.len())[i as int] != tag@[i as int]);
            return false;
        }
        i += 1;
    }
    assert(data@.subrange(at as int, at + tag@.len()) =~= tag@);
    true
}

/// Whether the track whose tag stands at `at` is a plain one.
fn track_is_plain(data: &[u8], at: usize) -> (plain: bool)
    requires
        at < data@.len() <= PLAIN_SCORE_BYTES,
    ensures
        plain == plain_track(data@, at as int),
{
    let timebase = |byte: u8| -> (found: bool)
        ensures
            found == is_timebase(byte),
        { byte <= 3 || 0x10 <= byte && byte <= 0x13 };
    if at + 8 < data.len() && data[at + 8] != 0 {
        return false;
    }
    if at + 10 < data.len() && !timebase(data[at + 10]) {
        return false;
    }
    !(at + 11 < data.len() && !timebase(data[at + 11]))
}

/// Whether all neighbours from `from` on can stand among notes.
fn notes_are_plain(data: &[u8], from: usize) -> (plain: bool)
    ensures
        plain == plain_notes(data@, from as int),
{
    let mut j: usize = from;
    while j < data.len() && data.len() - j > 1
        invariant
            from <= j,
            forall|k: int|
                from <= k < j && k < data@.len() - 1 ==> plain_neighbours(
                    #[trigger] data@[k],
                    data@[k + 1],
                ),
        decreases data@.len() - j,
    {
        let a: u8 = data[j];
        let b: u8 = data[j + 1];
        if a == 0xff && b != 0 && b != 0xf0 || a == 0 && 0x14 <= b % 64 && b % 64 <= 0x1e {
            assert(!plain_neighbours(data@[j as int], data@[j + 1]));
            return false;
        }
        j += 1;
    }
    true
}

/// Whether no number from `from` on has more than four bytes.
fn lengths_are_plain(data: &[u8], from: usize) -> (plain: bool)
    ensures
        plain == plain_lengths(data@, from as int),
{
    let mut j: usize = from;
    while j < data.len() && data.len() - j > 3
        invariant
            from <= j,
            forall|k: int| from <= k < j ==> !#[trigger] has_long_run(data@, k),
        decreases data@.len() - j,
    {
        if data[j] >= 0x80 && data[j + 1] >= 0x80 && data[j + 2] >= 0x80 && data[j + 3] >= 0x80 {
            assert(has_long_run(data@, j as int));
            return false;
        }
        j += 1;
    }
    true
}

/// Whether a score is a plain one.
pub fn score_is_plain(data: &[u8]) -> (plain: bool)
    ensures
        plain == is_plain_score(data@),
{
    if data.len() > PLAIN_SCORE_BYTES {
        return false;
    }
    let wave: [u8; 3] = [0x41, 0x54, 0x52];
    let loose: [u8; 4] = [0x53, 0x45, 0x51, 0x55];
    let sample: [u8; 4] = [0x4d, 0x74, 0x73, 0x70];
    let track: [u8; 3] = [0x4d, 0x54, 0x52];
    let sequence: [u8; 4] = [0x4d, 0x74, 0x73, 0x71];
    let setup: [u8; 4] = [0x4d, 0x74, 0x73, 0x75];
    proof {
        assert(wave@ =~= wave_tag());
        assert(loose@ =~= loose_tag());
        assert(sample@ =~= sample_tag());
        assert(track@ =~= track_tag());
        assert(sequence@ =~= sequence_tag());
        assert(setup@ =~= setup_tag());
    }
    let mut tracks: usize = 0;
    let ghost mut place: int = 0;
    let mut at: usize = 0;
    while at < data.len()
        invariant
            at <= data@.len() <= PLAIN_SCORE_BYTES,
            wave@ == wave_tag(),
            loose@ == loose_tag(),
            sample@ == sample_tag(),
            track@ == track_tag(),
            sequence@ == sequence_tag(),
            setup@ == setup_tag(),
            forall|k: int| 0 <= k < at ==> #[trigger] plain_at(data@, k),
            tracks <= 1,
            tracks == 1 ==> 0 <= place < at && has_tag(data@, place, track_tag()),
            forall|k: int|
                0 <= k < at && #[trigger] has_tag(data@, k, track_tag()) ==> tracks == 1 && k
                    == place,
        decreases data@.len() - at,
    {
        if tag_at(data, at, &wave) || tag_at(data, at, &loose) || tag_at(data, at, &sample) {
            assert(!plain_at(data@, at as int));
            return false;
        }
        if tag_at(data, at, &sequence) && !notes_are_plain(data, at + 8) {
            assert(!plain_at(data@, at as int));
            return false;
        }
        if tag_at(data, at, &setup) && !lengths_are_plain(data, at) {
            assert(!plain_at(data@, at as int));
            return false;
        }
        if tag_at(data, at, &track) {
            if tracks == 1 {
                assert(has_tag(data@, place, track_tag()) && has_tag(
                    data@,
                    at as int,
                    track_tag(),
                ));
                return false;
            }
            if !track_is_plain(data, at) {
                assert(!plain_at(data@, at as int));
                return false;
            }
            tracks = 1;
            proof {
                place = at as int;
            }
        }
        at += 1;
    }
    true
}

/// The events that `parse_smaf` finds in data that begins as a score does, each
/// with its time. There are none where it stops with a panic, as it does on some
/// malformed scores, or where a time does not fit 32 bits.
pub uninterp spec fn smaf_events(data: Seq<u8>) -> Option<Seq<(usize, SmafEventView)>>;

/// `smaf_player::parse_smaf`, with its events as values of this library. Data
/// that does not begin as a score does has no events, and a plain score does not
/// make it panic. What the events of a score are is not stated.
///
/// What can panic, overflow or not end in `parse_smaf` is: a track of sampled
/// sound, a sequence outside of tracks, sampled sound in a track, the newer track
/// formats, a time base that there is not, `0xff` before another byte than zero or
/// `0xf0` among notes, a short pitch bend above a quarter, setup data with a
/// length of five bytes or more, and the channels of a second track. A plain score
/// has none of these.
#[verifier::external_body]
pub(crate) fn parse_events(data: &[u8]) -> (events: Vec<(usize, SmafEvent)>)
    requires
        !starts_smaf(data@) || is_plain_score(data@) || smaf_events(data@) is Some,
    ensures
        !starts_smaf(data@) ==> events@.len() == 0,
        starts_smaf(data@) ==> smaf_events(data@) == Some(event_views(events@)),
{
    smaf_player::parse_smaf(data).into_iter().map(|(time, event)| (time, match event {
        Parsed::Wave { channel, sampling_rate, data } => SmafEvent::Wave { channel, sampling_rate, data },
        Parsed::MidiNoteOn { channel, note, velocity } => SmafEvent::MidiNoteOn { channel, note, velocity },
        Parsed::MidiNoteOff { channel, note, velocity } => SmafEvent::MidiNoteOff { channel, note, velocity },
        Parsed::MidiProgramChange { channel, program } => SmafEvent::MidiProgramChange { channel, program },
        Parsed::MidiControlChange { channel, control, value } => SmafEvent::MidiControlChange { channel, control, value },
        Parsed::MidiPitchBend { channel, value } => SmafEvent::MidiPitchBend { channel, value },
        Parsed::MidiSysEx(message) => SmafEvent::MidiSysEx(message),
        Parsed::End => SmafEvent::End,
    })).collect()
}

/// A plain score is short and has at most one track, which is in the oldest format: no bytes
/// of it name a track of sampled sound, sampled sound or a sequence outside of tracks.
pub proof fn law_plain_scores_have_one_old_track(data: &[u8], plain: bool, i: int, j: int)
    requires
        call_ensures(score_is_plain, (data,), plain),
        plain,
        0 <= i <= j < data@.len() - 12,
        data@[i] == 0x4d && data@[i + 1] == 0x54 && data@[i + 2] == 0x52,
        data@[j] == 0x4d && data@[j + 1] == 0x54 && data@[j + 2] == 0x52,
    ensures
        data@.len() <= 15_000,
        i == j,
        data@[i + 8] == 0,
{
    assert(data@.subrange(i, i + 3) =~= track_tag());
    assert(data@.subrange(j, j + 3) =~= track_tag());
    assert(has_tag(data@, i, track_tag()) && has_tag(data@, j, track_tag()));
    assert(plain_at(data@, i));
}

/// A short score without any tag of a track, of notes, of setup data or of sampled sound is
/// plain.
pub proof fn law_scores_without_tracks_are_plain(data: &[u8], plain: bool)
    requires
        call_ensures(score_is_plain, (data,), plain),
        data@.len() <= 15_000,
        forall|at: int|
            #![trigger data@[at]]
            0 <= at < data@.len() ==> data@[at] != 0x4d || at + 1 < data@.len() && data@[at + 1]
                != 0x54 && data@[at + 1] != 0x74,
        forall|at: int|
            #![trigger data@[at]]
            0 <= at < data@.len() ==> data@[at] != 0x41 && data@[at] != 0x53,
    ensures
        plain,
{
    assert forall|at: int| 0 <= at < data@.len() implies #[trigger] plain_at(data@, at)
        && !has_tag(data@, at, track_tag()) by {
        let c = data@[at];
        if has_tag(data@, at, wave_tag()) {
            assert(data@.subrange(at, at + 3)[0] == 0x41);
        }
        if has_tag(data@, at, loose_tag()) {
            assert(data@.subrange(at, at + 4)[0] == 0x53);
        }
        if has_tag(data@, at, track_tag()) {
            assert(data@.subrange(at, at + 3)[0] == 0x4d && data@.subrange(at, at + 3)[1] == 0x54);
        }
        if has_tag(data@, at, sample_tag()) {
            assert(data@.subrange(at, at + 4)[0] == 0x4d && data@.subrange(at, at + 4)[1] == 0x74);
        }
        if has_tag(data@, at, sequence_tag()) {
            assert(data@.subrange(at, at + 4)[0] == 0x4d && data@.subrange(at, at + 4)[1] == 0x74);
        }
        if has_tag(data@, at, setup_tag()) {
            assert(data@.subrange(at, at + 4)[0] == 0x4d && data@.subrange(at, at + 4)[1] == 0x74);
        }
    }
    assert forall|i: int, j: int| 0 <= i < j < data@.len() implies !(#[trigger] has_tag(
        data@,
        i,
        track_tag(),
    ) && #[trigger] has_tag(data@, j, track_tag())) by {
        assert(plain_at(data@, i));
    }
}

/// Whether these three bytes stand at `at`.
pub open spec fn three_at(data: Seq<u8>, at: int, a: u8, b: u8, c: u8) -> bool {
    0 <= at && at + 3 <= data.len() && data[at] == a && data[at + 1] == b && data[at + 2] == c
}

/// Whether these four bytes stand at `at`.
pub open spec fn four_at(data: Seq<u8>, at: int, a: u8, b: u8, c: u8, d: u8) -> bool {
    three_at(data, at, a, b, c) && at + 4 <= data.len() && data[at + 3] == d
}

proof fn lemma_three(data: Seq<u8>, at: int, tag: Seq<u8>)
    requires
        tag.len() == 3,
        has_tag(data, at, tag),
    ensures
        three_at(data, at, tag[0], tag[1], tag[2]),
{
    let part = data.subrange(at, at + 3);
    assert(part[0] == tag[0] && part[1] == tag[1] && part[2] == tag[2]);
}

proof fn lemma_four(data: Seq<u8>, at: int, tag: Seq<u8>)
    requires
        tag.len() == 4,
        has_tag(data, at, tag),
    ensures
        four_at(data, at, tag[0], tag[1], tag[2], tag[3]),
{
    let part = data.subrange(at, at + 4);
    assert(part[0] == tag[0] && part[1] == tag[1] && part[2] == tag[2] && part[3] == tag[3]);
}

/// A short score is plain wherever its bytes are: it names no sampled sound and no sequence
/// outside of tracks, it has one track at most, of the oldest format and with time bases that
/// there are, its notes hold no stray status and no wide pitch bend, and its setup data no
/// long number.
pub proof fn law_scores_of_plain_bytes_are_plain(data: &[u8], plain: bool)
    requires
        call_ensures(score_is_plain, (data,), plain),
        data@.len() <= 15_000,
        forall|i: int| !#[trigger] three_at(data@, i, 0x41, 0x54, 0x52),
        forall|i: int| !#[trigger] four_at(data@, i, 0x53, 0x45, 0x51, 0x55),
        forall|i: int| !#[trigger] four_at(data@, i, 0x4d, 0x74, 0x73, 0x70),
        forall|i: int| #[trigger]
            three_at(data@, i, 0x4d, 0x54, 0x52) ==> {
                &&& i + 8 < data@.len() ==> data@[i + 8] == 0
                &&& i + 10 < data@.len() ==> data@[i + 10] < 4 || 16 <= data@[i + 10] < 20
                &&& i + 11 < data@.len() ==> data@[i + 11] < 4 || 16 <= data@[i + 11] < 20
            },
        forall|i: int, j: int|
            i < j ==> !(#[trigger] three_at(data@, i, 0x4d, 0x54, 0x52) && #[trigger] three_at(
                data@,
                j,
                0x4d,
                0x54,
                0x52,
            )),
        forall|i: int, j: int|
            #![trigger four_at(data@, i, 0x4d, 0x74, 0x73, 0x71), data@[j]]
            four_at(data@, i, 0x4d, 0x74, 0x73, 0x71) && i + 8 <= j < data@.len() - 1 ==> !(data@[j]
                == 255 && data@[j + 1] != 0 && data@[j + 1] != 240) && !(data@[j] == 0 && 20
                <= data@[j + 1] % 64 <= 30),
        forall|i: int, j: int|
            #![trigger four_at(data@, i, 0x4d, 0x74, 0x73, 0x75), data@[j]]
            four_at(data@, i, 0x4d, 0x74, 0x73, 0x75) && i <= j < data@.len() - 3 ==> !(data@[j]
                >= 128 && data@[j + 1] >= 128 && data@[j + 2] >= 128 && data@[j + 3] >= 128),
    ensures
        plain,
{
    let bytes = data@;
    assert forall|at: int| 0 <= at < bytes.len() implies #[trigger] plain_at(bytes, at) by {
        if has_tag(bytes, at, wave_tag()) {
            lemma_three(bytes, at, wave_tag());
        }
        if has_tag(bytes, at, loose_tag()) {
            lemma_four(bytes, at, loose_tag());
        }
        if has_tag(bytes, at, sample_tag()) {
            lemma_four(bytes, at, sample_tag());
        }
        if has_tag(bytes, at, track_tag()) {
            lemma_three(bytes, at, track_tag());
        }
        if has_tag(bytes, at, sequence_tag()) {
            lemma_four(bytes, at, sequence_tag());
        }
        if has_tag(bytes, at, setup_tag()) {
            lemma_four(bytes, at, setup_tag());
            assert forall|j: int| at <= j < bytes.len() implies !#[trigger] has_long_run(
                bytes,
                j,
            ) by {
                let there = bytes[j];
            }
        }
    }
    assert forall|i: int, j: int| 0 <= i < j < bytes.len() implies !(#[trigger] has_tag(
        bytes,
        i,
        track_tag(),
    ) && #[trigger] has_tag(bytes, j, track_tag())) by {
        if has_tag(bytes, i, track_tag()) && has_tag(bytes, j, track_tag()) {
            lemma_three(bytes, i, track_tag());
            lemma_three(bytes, j, track_tag());
        }
    }
}

} // verus!

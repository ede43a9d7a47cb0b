//! The workspace: the tracks of one Standard MIDI File as raw delta-time
//! streams, together with the file's resolution and format. Tracks are
//! checked out as detached absolute-tick copies, edited, and written back;
//! the tempo and time-signature maps are derived from a track's meta
//! events on demand.
//!
//! Reading a file's bytes into a workspace and writing a workspace back to
//! bytes belong to an outside codec and live with the surrounding
//! application; this module holds every rule about what the tracks mean.

use crate::event::META_END_OF_TRACK;
use crate::event::META_TEMPO_SETTING;
use crate::event::META_TIME_SIGNATURE;
use crate::event::MetaEvent;
use crate::event::SmfEvent;
use crate::event::TrackEvent;
use crate::event::same_event;
use crate::maps::MetaDecodeError;
use crate::maps::TempoInfo;
use crate::maps::TimeSignatureInfo;
use crate::maps::decode_tempo;
use crate::maps::decode_time_signature;
use crate::maps::pow2_u8;
use crate::maps::tempo_usec_of;
use crate::order::count_matching;
use crate::order::first_matching;
use crate::order::lemma_first_matching_is;
use crate::order::lemma_first_matching_none;
use crate::order::pointwise_related;
use crate::track::AbsTrack;
use crate::track::AbsTrackEvent;
use crate::track::lemma_eot_count_from_wire;
use crate::track::lemma_sort_and_fix_related;
use crate::track::same_abs_pred;
use crate::track::sort_and_fix;
use crate::track::to_absolute;
use crate::track::track_events_of;
use crate::track::vtime_prefix_sum;
use crate::track::wire_eot_pred;
use vstd::prelude::*;

verus! {

/// The track layout of a Standard MIDI File.
#[derive(Debug, Clone, Copy, PartialEq, Eq, Structural)]
pub enum SmfFormat {
    /// A single track.
    Single,
    /// Several simultaneous tracks of one song.
    MultiTrack,
    /// A series of independent single-track songs.
    MultiSong,
}

/// The parsed contents of one Standard MIDI File: its format, its
/// resolution in pulses per quarter note, and each track as the wire
/// sequence of delta-timed events.
#[derive(Debug, Clone)]
pub struct MidiWorkspace {
    pub format: SmfFormat,
    pub division: i16,
    pub tracks: Vec<Vec<TrackEvent>>,
}

/// The running delta-time sums of every prefix lie within every later one:
/// the sums are non-negative and non-decreasing.
pub proof fn lemma_prefix_sum_bounds(s: Seq<TrackEvent>, i: int, j: int)
    requires
        -1 <= i <= j,
    ensures
        0 <= vtime_prefix_sum(s, i) <= vtime_prefix_sum(s, j),
    decreases j - i,
{
    lemma_prefix_sum_nonneg(s, i);
    if i < j {
        lemma_prefix_sum_bounds(s, i, j - 1);
    }
}

/// Delta-times are unsigned, so every running sum is non-negative.
pub proof fn lemma_prefix_sum_nonneg(s: Seq<TrackEvent>, i: int)
    ensures
        vtime_prefix_sum(s, i) >= 0,
    decreases i + 1,
{
    if i >= 0 {
        lemma_prefix_sum_nonneg(s, i - 1);
    }
}

/// The sum of the first delta-times reads only those elements: sequences
/// agreeing up to `i` have the same sum at `i`.
pub proof fn lemma_prefix_sum_agree(a: Seq<TrackEvent>, b: Seq<TrackEvent>, i: int)
    requires
        forall|k: int| 0 <= k <= i ==> (#[trigger] a[k]).vtime == b[k].vtime,
    ensures
        vtime_prefix_sum(a, i) == vtime_prefix_sum(b, i),
    decreases i + 1,
{
    if i >= 0 {
        lemma_prefix_sum_agree(a, b, i - 1);
    }
}

/// Whether an event is the tempo-setting meta event.
pub open spec fn is_tempo_meta(e: SmfEvent) -> bool {
    match e {
        SmfEvent::Meta(m) => m.command == META_TEMPO_SETTING,
        SmfEvent::Midi(_) => false,
    }
}

/// Whether an event is the time-signature meta event.
pub open spec fn is_time_signature_meta(e: SmfEvent) -> bool {
    match e {
        SmfEvent::Meta(m) => m.command == META_TIME_SIGNATURE,
        SmfEvent::Midi(_) => false,
    }
}

/// The payload bytes an event carries.
pub open spec fn payload_of(e: SmfEvent) -> Seq<u8> {
    match e {
        SmfEvent::Meta(m) => m.data@,
        SmfEvent::Midi(m) => m.data@,
    }
}

/// A tempo meta event whose payload cannot be decoded: a length other than
/// three bytes, or a tempo of zero microseconds per quarter note.
pub open spec fn bad_tempo_pred() -> spec_fn(TrackEvent) -> bool {
    |e: TrackEvent|
        is_tempo_meta(e.event) && !(payload_of(e.event).len() == 3 && tempo_usec_of(
            payload_of(e.event),
        ) != 0)
}

/// A time-signature meta event whose payload cannot be decoded: a length
/// other than four bytes.
pub open spec fn bad_time_signature_pred() -> spec_fn(TrackEvent) -> bool {
    |e: TrackEvent| is_time_signature_meta(e.event) && payload_of(e.event).len() != 4
}

/// The tempo changes a wire stream encodes: one `(tick, bpm)` entry per
/// tempo meta event, at the running delta-time sum, in stream order.
pub open spec fn tempo_changes_of(s: Seq<TrackEvent>) -> Seq<(u64, u16)>
    decreases s.len(),
{
    if s.len() == 0 {
        Seq::empty()
    } else {
        let rest = tempo_changes_of(s.drop_last());
        let e = s.last();
        if is_tempo_meta(e.event) {
            rest.push(
                (
                    vtime_prefix_sum(s, s.len() - 1) as u64,
                    (60_000_000 as int / tempo_usec_of(payload_of(e.event))) as u16,
                ),
            )
        } else {
            rest
        }
    }
}

/// The time-signature changes a wire stream encodes: one
/// `(tick, (numerator, denominator))` entry per time-signature meta event,
/// at the running delta-time sum, in stream order.
pub open spec fn time_signature_changes_of(s: Seq<TrackEvent>) -> Seq<(u64, (u8, u8))>
    decreases s.len(),
{
    if s.len() == 0 {
        Seq::empty()
    } else {
        let rest = time_signature_changes_of(s.drop_last());
        let e = s.last();
        if is_time_signature_meta(e.event) {
            rest.push(
                (
                    vtime_prefix_sum(s, s.len() - 1) as u64,
                    (payload_of(e.event)[0], pow2_u8(payload_of(e.event)[1])),
                ),
            )
        } else {
            rest
        }
    }
}

impl Default for MidiWorkspace {
    /// An empty multi-track workspace at 480 pulses per quarter note.
    fn default() -> (r: MidiWorkspace)
        ensures
            r.format == SmfFormat::MultiTrack,
            r.division == 480,
            r.tracks@.len() == 0,
    {
        MidiWorkspace { format: SmfFormat::MultiTrack, division: 480, tracks: Vec::new() }
    }
}

/// The event is a meta event with the given command whose payload holds
/// exactly the given bytes, at a delta-time of zero.
pub open spec fn zero_delta_meta(e: TrackEvent, command: u8, data: Seq<u8>) -> bool {
    &&& e.vtime == 0
    &&& match e.event {
        SmfEvent::Meta(m) => m.command == command && m.data@ == data,
        SmfEvent::Midi(_) => false,
    }
}

impl MidiWorkspace {
    /// How many tracks the workspace holds.
    pub fn track_count(&self) -> (r: usize)
        ensures
            r == self.tracks@.len(),
    {
        self.tracks.len()
    }

    /// The file's resolution in pulses per quarter note.
    pub fn resolution(&self) -> (r: i16)
        ensures
            r == self.division,
    {
        self.division
    }

    /// The stored wire stream of a track, or None when no such track
    /// exists.
    pub fn track(&self, track: usize) -> (r: Option<&Vec<TrackEvent>>)
        ensures
            match r {
                Some(t) => track < self.tracks@.len() && *t == self.tracks@[track as int],
                None => track >= self.tracks@.len(),
            },
    {
        if track < self.tracks.len() {
            Some(&self.tracks[track])
        } else {
            None
        }
    }

    /// A detached copy of a track's wire events: the same delta-times and
    /// the same event bytes, or None when no such track exists.
    pub fn events(&self, track: usize) -> (r: Option<Vec<TrackEvent>>)
        ensures
            match r {
                Some(v) => track < self.tracks@.len() && v@.len()
                    == self.tracks@[track as int]@.len() && forall|k: int|
                    0 <= k < v@.len() ==> (#[trigger] v@[k]).vtime
                        == self.tracks@[track as int]@[k].vtime && same_event(
                        v@[k].event,
                        self.tracks@[track as int]@[k].event,
                    ),
                None => track >= self.tracks@.len(),
            },
    {
        if track >= self.tracks.len() {
            return None;
        }
        let tr = &self.tracks[track];
        let n = tr.len();
        let mut out: Vec<TrackEvent> = Vec::new();
        let mut k: usize = 0;
        while k < n
            invariant
                k <= n,
                n == tr@.len(),
                out@.len() == k,
                forall|m: int|
                    0 <= m < k ==> (#[trigger] out@[m]).vtime == tr@[m].vtime && same_event(
                        out@[m].event,
                        tr@[m].event,
                    ),
            decreases n - k,
        {
            let e = &tr[k];
            out.push(e.duplicate());
            k += 1;
        }
        Some(out)
    }

    /// The track converted to absolute-tick form: a detached clean track
    /// whose events carry the running sums of the delta-times as their
    /// ticks. None when no such track exists.
    pub fn events_abs_tick(&self, track: usize) -> (r: Option<AbsTrack>)
        requires
            track < self.tracks@.len() ==> vtime_prefix_sum(
                self.tracks@[track as int]@,
                self.tracks@[track as int]@.len() - 1,
            ) <= u64::MAX,
        ensures
            match r {
                Some(at) => track < self.tracks@.len() && at.dirty == false && at.events@.len()
                    == self.tracks@[track as int]@.len() && forall|k: int|
                    0 <= k < at.events@.len() ==> {
                        &&& (#[trigger] at.events@[k]).abs_time == vtime_prefix_sum(
                            self.tracks@[track as int]@,
                            k,
                        )
                        &&& at.events@[k].track_event.vtime == self.tracks@[track as int]@[k].vtime
                        &&& same_event(
                            at.events@[k].track_event.event,
                            self.tracks@[track as int]@[k].event,
                        )
                    },
                None => track >= self.tracks@.len(),
            },
    {
        let ghost stored = self.tracks@[track as int]@;
        match self.events(track) {
            Some(events) => {
                let ghost full = events@;
                proof {
                    assert(forall|k: int|
                        0 <= k < full.len() ==> (#[trigger] full[k]).vtime == stored[k].vtime);
                }
                let mut rest = events;
                let mut abs_events: Vec<AbsTrackEvent> = Vec::new();
                let mut abs_time: u64 = 0;
                while rest.len() > 0
                    invariant
                        abs_events@.len() + rest@.len() == full.len(),
                        rest@ == full.skip(abs_events@.len() as int),
                        full.len() == stored.len(),
                        forall|k: int|
                            0 <= k < full.len() ==> (#[trigger] full[k]).vtime == stored[k].vtime
                                && same_event(full[k].event, stored[k].event),
                        vtime_prefix_sum(stored, stored.len() - 1) <= u64::MAX,
                        abs_time == vtime_prefix_sum(stored, abs_events@.len() - 1),
                        forall|m: int|
                            0 <= m < abs_events@.len() ==> {
                                &&& (#[trigger] abs_events@[m]).abs_time == vtime_prefix_sum(
                                    stored,
                                    m,
                                )
                                &&& abs_events@[m].track_event == full[m]
                            },
                    decreases rest@.len(),
                {
                    let ghost k = abs_events@.len() as int;
                    let te = rest.remove(0);
                    proof {
                        assert(te == full[k]);
                        assert(te.vtime == stored[k].vtime);
                        lemma_prefix_sum_bounds(stored, k, stored.len() - 1);
                        lemma_prefix_sum_bounds(stored, k - 1, k);
                        assert(vtime_prefix_sum(stored, k) == vtime_prefix_sum(stored, k - 1)
                            + stored[k].vtime);
                    }
                    abs_time = abs_time + te.vtime;
                    abs_events.push(AbsTrackEvent { abs_time, track_event: te });
                    proof {
                        assert(rest@ =~= full.skip(abs_events@.len() as int));
                    }
                }
                Some(AbsTrack::new_without_sort(abs_events))
            },
            None => None,
        }
    }

    /// Replaces a track's stored wire stream with the given events'
    /// delta-timed form, dropping their absolute ticks. An error when no
    /// such track exists, with the workspace unchanged.
    pub fn replace_events(&mut self, track: usize, events: Vec<AbsTrackEvent>) -> (r: Result<
        (),
        (),
    >)
        ensures
            match r {
                Ok(u) => {
                    &&& track < old(self).tracks@.len()
                    &&& final(self).format == old(self).format
                    &&& final(self).division == old(self).division
                    &&& final(self).tracks@.len() == old(self).tracks@.len()
                    &&& forall|t: int|
                        0 <= t < old(self).tracks@.len() && t != track ==> final(self).tracks@[t]
                            == old(self).tracks@[t]
                    &&& final(self).tracks@[track as int]@ == track_events_of(events@)
                },
                Err(u) => track >= old(self).tracks@.len() && *final(self) == *old(self),
            },
    {
        if track >= self.tracks.len() {
            return Err(());
        }
        let ghost evfull = events@;
        let mut built: Vec<TrackEvent> = Vec::new();
        let mut rest = events;
        while rest.len() > 0
            invariant
                built@.len() + rest@.len() == evfull.len(),
                rest@ == evfull.skip(built@.len() as int),
                forall|m: int|
                    0 <= m < built@.len() ==> (#[trigger] built@[m]) == evfull[m].track_event,
            decreases rest@.len(),
        {
            let ghost k = built@.len() as int;
            let e = rest.remove(0);
            proof {
                assert(e == evfull[k]);
            }
            built.push(e.track_event);
            proof {
                assert(rest@ =~= evfull.skip(built@.len() as int));
            }
        }
        proof {
            assert(built@ =~= track_events_of(evfull));
        }
        self.tracks[track] = built;
        Ok(())
    }

    /// The tempo map encoded by a track's tempo meta events, in stream
    /// order. `Ok(None)` when no such track exists; an error naming the
    /// first undecodable tempo payload otherwise.
    pub fn create_tempo_info(&self, track: usize) -> (r: Result<Option<TempoInfo>, MetaDecodeError>)
        requires
            track < self.tracks@.len() ==> vtime_prefix_sum(
                self.tracks@[track as int]@,
                self.tracks@[track as int]@.len() - 1,
            ) <= u64::MAX,
        ensures
            match r {
                Ok(opt) => match opt {
                    Some(info) => track < self.tracks@.len() && first_matching(
                        self.tracks@[track as int]@,
                        bad_tempo_pred(),
                    ) is None && info.changes@ == tempo_changes_of(self.tracks@[track as int]@),
                    None => track >= self.tracks@.len(),
                },
                Err(e) => track < self.tracks@.len() && match first_matching(
                    self.tracks@[track as int]@,
                    bad_tempo_pred(),
                ) {
                    Some(b) => e == if payload_of(self.tracks@[track as int]@[b].event).len()
                        != 3 {
                        MetaDecodeError::PayloadLength
                    } else {
                        MetaDecodeError::ZeroTempo
                    },
                    None => false,
                },
            },
    {
        if track >= self.tracks.len() {
            return Ok(None);
        }
        let tr = &self.tracks[track];
        let ghost stored = tr@;
        let n = tr.len();
        let mut changes: Vec<(u64, u16)> = Vec::new();
        let mut abs_time: u64 = 0;
        let mut k: usize = 0;
        while k < n
            invariant
                k <= n,
                n == stored.len(),
                stored == tr@,
                track < self.tracks@.len(),
                stored == self.tracks@[track as int]@,
                vtime_prefix_sum(stored, stored.len() - 1) <= u64::MAX,
                abs_time == vtime_prefix_sum(stored, k - 1),
                changes@ == tempo_changes_of(stored.take(k as int)),
                forall|m: int| 0 <= m < k ==> !bad_tempo_pred()(#[trigger] stored[m]),
            decreases n - k,
        {
            let e = &tr[k];
            proof {
                lemma_prefix_sum_bounds(stored, k as int, stored.len() - 1);
                lemma_prefix_sum_bounds(stored, k - 1, k as int);
                assert(vtime_prefix_sum(stored, k as int) == vtime_prefix_sum(stored, k - 1)
                    + stored[k as int].vtime);
                let t1 = stored.take(k + 1);
                assert(t1.drop_last() =~= stored.take(k as int));
                assert(t1.last() == stored[k as int]);
                assert forall|j: int| 0 <= j <= k implies (#[trigger] t1[j]).vtime
                    == stored[j].vtime by {}
                lemma_prefix_sum_agree(t1, stored, k as int);
            }
            abs_time = abs_time + e.vtime;
            match &e.event {
                SmfEvent::Meta(m) => {
                    if m.command == META_TEMPO_SETTING {
                        match decode_tempo(&m.data) {
                            Ok(bpm) => {
                                changes.push((abs_time, bpm));
                            },
                            Err(err) => {
                                proof {
                                    assert(bad_tempo_pred()(stored[k as int]));
                                    lemma_first_matching_is(stored, bad_tempo_pred(), k as int);
                                }
                                return Err(err);
                            },
                        }
                    }
                },
                SmfEvent::Midi(_) => {},
            }
            k += 1;
        }
        proof {
            lemma_first_matching_none(stored, bad_tempo_pred());
            assert(stored.take(n as int) =~= stored);
        }
        Ok(Some(TempoInfo::new(changes, false)))
    }

    /// The time-signature map encoded by a track's time-signature meta
    /// events, in stream order. `Ok(None)` when no such track exists; an
    /// error naming the first undecodable payload otherwise.
    pub fn create_time_signature_info(&self, track: usize) -> (r: Result<
        Option<TimeSignatureInfo>,
        MetaDecodeError,
    >)
        requires
            track < self.tracks@.len() ==> vtime_prefix_sum(
                self.tracks@[track as int]@,
                self.tracks@[track as int]@.len() - 1,
            ) <= u64::MAX,
        ensures
            match r {
                Ok(opt) => match opt {
                    Some(info) => track < self.tracks@.len() && first_matching(
                        self.tracks@[track as int]@,
                        bad_time_signature_pred(),
                    ) is None && info.changes@ == time_signature_changes_of(
                        self.tracks@[track as int]@,
                    ),
                    None => track >= self.tracks@.len(),
                },
                Err(e) => track < self.tracks@.len() && e == MetaDecodeError::PayloadLength
                    && first_matching(
                    self.tracks@[track as int]@,
                    bad_time_signature_pred(),
                ) is Some,
            },
    {
        if track >= self.tracks.len() {
            return Ok(None);
        }
        let tr = &self.tracks[track];
        let ghost stored = tr@;
        let n = tr.len();
        let mut changes: Vec<(u64, (u8, u8))> = Vec::new();
        let mut abs_time: u64 = 0;
        let mut k: usize = 0;
        while k < n
            invariant
                k <= n,
                n == stored.len(),
                stored == tr@,
                track < self.tracks@.len(),
                stored == self.tracks@[track as int]@,
                vtime_prefix_sum(stored, stored.len() - 1) <= u64::MAX,
                abs_time == vtime_prefix_sum(stored, k - 1),
                changes@ == time_signature_changes_of(stored.take(k as int)),
                forall|m: int| 0 <= m < k ==> !bad_time_signature_pred()(#[trigger] stored[m]),
            decreases n - k,
        {
            let e = &tr[k];
            proof {
                lemma_prefix_sum_bounds(stored, k as int, stored.len() - 1);
                lemma_prefix_sum_bounds(stored, k - 1, k as int);
                assert(vtime_prefix_sum(stored, k as int) == vtime_prefix_sum(stored, k - 1)
                    + stored[k as int].vtime);
                let t1 = stored.take(k + 1);
                assert(t1.drop_last() =~= stored.take(k as int));
                assert(t1.last() == stored[k as int]);
                assert forall|j: int| 0 <= j <= k implies (#[trigger] t1[j]).vtime
                    == stored[j].vtime by {}
                lemma_prefix_sum_agree(t1, stored, k as int);
            }
            abs_time = abs_time + e.vtime;
            match &e.event {
                SmfEvent::Meta(m) => {
                    if m.command == META_TIME_SIGNATURE {
                        match decode_time_signature(&m.data) {
                            Ok(ts) => {
                                changes.push((abs_time, ts));
                            },
                            Err(err) => {
                                proof {
                                    assert(bad_time_signature_pred()(stored[k as int]));
                                    lemma_first_matching_is(
                                        stored,
                                        bad_time_signature_pred(),
                                        k as int,
                                    );
                                }
                                return Err(err);
                            },
                        }
                    }
                },
                SmfEvent::Midi(_) => {},
            }
            k += 1;
        }
        proof {
            lemma_first_matching_none(stored, bad_time_signature_pred());
            assert(stored.take(n as int) =~= stored);
        }
        Ok(Some(TimeSignatureInfo::new(changes, false)))
    }

    /// A minimal two-track workspace at 480 pulses per quarter note:
    /// track 0 carries a 4/4 time signature, a 120-beats-per-minute tempo
    /// (500000 microseconds per quarter note) and the end-of-track event;
    /// track 1 carries only the end-of-track event.
    pub fn empty() -> (r: MidiWorkspace)
        ensures
            r.format == SmfFormat::MultiTrack,
            r.division == 480,
            r.tracks@.len() == 2,
            r.tracks@[0]@.len() == 3,
            zero_delta_meta(r.tracks@[0]@[0], META_TIME_SIGNATURE, seq![4u8, 2u8, 24u8, 8u8]),
            zero_delta_meta(r.tracks@[0]@[1], META_TEMPO_SETTING, seq![0x07u8, 0xA1u8, 0x20u8]),
            zero_delta_meta(r.tracks@[0]@[2], META_END_OF_TRACK, Seq::empty()),
            r.tracks@[1]@.len() == 1,
            zero_delta_meta(r.tracks@[1]@[0], META_END_OF_TRACK, Seq::empty()),
    {
        let mut ts_data: Vec<u8> = Vec::new();
        ts_data.push(4);
        ts_data.push(2);
        ts_data.push(24);
        ts_data.push(8);
        let mut tempo_data: Vec<u8> = Vec::new();
        tempo_data.push(0x07);
        tempo_data.push(0xA1);
        tempo_data.push(0x20);
        proof {
            assert(ts_data@ =~= seq![4u8, 2u8, 24u8, 8u8]);
            assert(tempo_data@ =~= seq![0x07u8, 0xA1u8, 0x20u8]);
        }
        let mut track0: Vec<TrackEvent> = Vec::new();
        track0.push(
            TrackEvent {
                vtime: 0,
                event: SmfEvent::Meta(
                    MetaEvent { command: META_TIME_SIGNATURE, data: ts_data },
                ),
            },
        );
        track0.push(
            TrackEvent {
                vtime: 0,
                event: SmfEvent::Meta(
                    MetaEvent { command: META_TEMPO_SETTING, data: tempo_data },
                ),
            },
        );
        track0.push(
            TrackEvent {
                vtime: 0,
                event: SmfEvent::Meta(
                    MetaEvent {
                        command: META_END_OF_TRACK,
                        data: Vec::new(),
                    },
                ),
            },
        );
        let mut track1: Vec<TrackEvent> = Vec::new();
        track1.push(
            TrackEvent {
                vtime: 0,
                event: SmfEvent::Meta(
                    MetaEvent {
                        command: META_END_OF_TRACK,
                        data: Vec::new(),
                    },
                ),
            },
        );
        let mut tracks: Vec<Vec<TrackEvent>> = Vec::new();
        tracks.push(track0);
        tracks.push(track1);
        MidiWorkspace { format: SmfFormat::MultiTrack, division: 480, tracks }
    }

    /// The final pass before exporting: every track is repaired in
    /// absolute form — sorted, end-of-track fixed, delta-times rebuilt —
    /// and stored back as its wire stream.
    pub fn finalize(&mut self)
        requires
            forall|t: int|
                0 <= t < old(self).tracks@.len() ==> vtime_prefix_sum(
                    #[trigger] old(self).tracks@[t]@,
                    old(self).tracks@[t]@.len() - 1,
                ) <= u64::MAX,
            forall|t: int|
                0 <= t < old(self).tracks@.len() ==> count_matching(
                    #[trigger] old(self).tracks@[t]@,
                    wire_eot_pred(),
                ) <= 1,
        ensures
            final(self).format == old(self).format,
            final(self).division == old(self).division,
            final(self).tracks@.len() == old(self).tracks@.len(),
            forall|t: int|
                0 <= t < old(self).tracks@.len() ==> repaired_wire_stream(
                    #[trigger] final(self).tracks@[t]@,
                    old(self).tracks@[t]@,
                ),
    {
        let track_count = self.tracks.len();
        let mut i: usize = 0;
        while i < track_count
            invariant
                i <= track_count,
                track_count == self.tracks@.len(),
                self.tracks@.len() == old(self).tracks@.len(),
                self.format == old(self).format,
                self.division == old(self).division,
                forall|t: int| i <= t < track_count ==> self.tracks@[t] == old(self).tracks@[t],
                forall|t: int|
                    0 <= t < track_count ==> vtime_prefix_sum(
                        #[trigger] old(self).tracks@[t]@,
                        old(self).tracks@[t]@.len() - 1,
                    ) <= u64::MAX,
                forall|t: int|
                    0 <= t < track_count ==> count_matching(
                        #[trigger] old(self).tracks@[t]@,
                        wire_eot_pred(),
                    ) <= 1,
                forall|t: int|
                    0 <= t < i ==> repaired_wire_stream(
                        #[trigger] self.tracks@[t]@,
                        old(self).tracks@[t]@,
                    ),
            decreases track_count - i,
        {
            let ghost stored = self.tracks@[i as int]@;
            let mut abs_track = match self.events_abs_tick(i) {
                Some(at) => at,
                None => {
                    proof {
                        assert(false);
                    }
                    AbsTrack::new_without_sort(Vec::new())
                },
            };
            proof {
                lemma_eot_count_from_wire(abs_track.events@, stored);
                assert(pointwise_related(abs_track.events@, to_absolute(stored), same_abs_pred()))
                    by {
                    assert forall|k: int| 0 <= k < abs_track.events@.len() implies same_abs_pred()(
                        #[trigger] abs_track.events@[k],
                        to_absolute(stored)[k],
                    ) by {
                        assert(to_absolute(stored)[k].abs_time == vtime_prefix_sum(
                            stored,
                            k,
                        ) as u64);
                        lemma_prefix_sum_bounds(stored, k, stored.len() - 1);
                    }
                }
            }
            let ghost before = abs_track.events@;
            abs_track.finalize();
            proof {
                lemma_sort_and_fix_related(before, to_absolute(stored));
            }
            let ghost repaired = sort_and_fix(to_absolute(stored));
            let ghost got = abs_track.events@;
            let r = self.replace_events(i, abs_track.into_events());
            proof {
                assert(r is Ok);
                assert(repaired_wire_stream(self.tracks@[i as int]@, old(self).tracks@[i as int]@))
                    by {
                    assert(self.tracks@[i as int]@ == track_events_of(got));
                    assert(pointwise_related(got, repaired, same_abs_pred()));
                }
            }
            i += 1;
        }
    }
}

/// A placeholder for the sequencer that will play a workspace back; it
/// does not act yet.
pub struct WorkspaceSequencer {}

/// The stored wire stream `w` is, value for value, the repaired form of
/// the old stream `orig`: the delta-timed events of the old stream's
/// absolute form after sorting, end-of-track fix-up and delta rebuild.
pub open spec fn repaired_wire_stream(w: Seq<TrackEvent>, orig: Seq<TrackEvent>) -> bool {
    let repaired = track_events_of(sort_and_fix(to_absolute(orig)));
    w.len() == repaired.len() && forall|k: int|
        0 <= k < w.len() ==> (#[trigger] w[k]).vtime == repaired[k].vtime && same_event(
            w[k].event,
            repaired[k].event,
        )
}

} // verus!

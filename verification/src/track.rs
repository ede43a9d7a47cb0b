//! The absolute-tick track: an ordered container of events pinned to
//! absolute ticks, with a dirty flag, owning all mutation, sorting and
//! delta-time rebuilding.
//!
//! When a track is not dirty it keeps the format's ordering discipline:
//! events sorted by tick, a note-off never after a note-on at the same tick,
//! and the end-of-track event last with its tick equal to the largest tick of
//! the other events.

use crate::event::MidiMessage;
use crate::event::SmfEvent;
use crate::event::TrackEvent;
use crate::event::same_event;
use crate::order::SortOrder;
use crate::order::adjacent_ordered;
use crate::order::count_matching;
use crate::order::first_matching;
use crate::order::insertion_sort;
use crate::order::lemma_first_matching_is;
use crate::order::lemma_first_matching_none;
use crate::order::lemma_first_matching_props;
use crate::order::lemma_count_matching_at_least_two;
use crate::order::lemma_count_matching_exists;
use crate::order::lemma_count_matching_pointwise;
use crate::order::lemma_count_matching_update;
use crate::order::lemma_sort_ordered_count;
use crate::order::lemma_sort_ordered_len;
use crate::order::lemma_sort_of_ordered;
use crate::order::lemma_sort_ordered_adjacent;
use crate::order::lemma_sort_ordered_related;
use crate::order::lemma_sort_ordered_weight_sorted;
use crate::order::pointwise_related;
use crate::order::relation_respects_order;
use crate::order::sort_ordered;
use crate::order::weight_sorted;
use vstd::prelude::*;

verus! {

/// An event paired with the absolute tick at which it occurs.
#[derive(Debug, Clone)]
pub struct AbsTrackEvent {
    pub abs_time: u64,
    pub track_event: TrackEvent,
}

impl AbsTrackEvent {
    pub fn new(abs_time: u64, track_event: TrackEvent) -> (r: AbsTrackEvent)
        ensures
            r.abs_time == abs_time,
            r.track_event == track_event,
    {
        AbsTrackEvent { abs_time, track_event }
    }

    pub open spec fn spec_is_end_of_track(self) -> bool {
        self.track_event.event.spec_is_end_of_track()
    }

    pub open spec fn spec_is_note_on(self) -> bool {
        self.track_event.event.spec_is_note_on()
    }

    pub open spec fn spec_is_note_off(self) -> bool {
        self.track_event.event.spec_is_note_off()
    }
}

/// The sorting discipline of a track, as a comparator. An end-of-track event
/// comes after everything else; otherwise events are compared by tick; at
/// equal ticks a note-on comes after a note-off, and nothing else is
/// separated, so the stable sort keeps the relative order of other events.
impl SortOrder for AbsTrackEvent {
    open spec fn comes_after(self, other: Self) -> bool {
        if self.spec_is_end_of_track() {
            !other.spec_is_end_of_track()
        } else if other.spec_is_end_of_track() {
            false
        } else if self.abs_time != other.abs_time {
            self.abs_time > other.abs_time
        } else {
            self.spec_is_note_on() && other.spec_is_note_off()
        }
    }

    fn check_comes_after(&self, other: &Self) -> (r: bool) {
        if self.track_event.event.is_end_of_track() {
            !other.track_event.event.is_end_of_track()
        } else if other.track_event.event.is_end_of_track() {
            false
        } else if self.abs_time != other.abs_time {
            self.abs_time > other.abs_time
        } else {
            self.track_event.event.is_note_on() && other.track_event.event.is_note_off()
        }
    }
}

/// The weight a sorted track orders its events by: the absolute tick, with
/// end-of-track events above every tick.
pub open spec fn event_weight() -> spec_fn(AbsTrackEvent) -> int {
    |e: AbsTrackEvent|
        if e.spec_is_end_of_track() {
            0x1_0000_0000_0000_0000
        } else {
            e.abs_time as int
        }
}

/// The track comparator respects `event_weight`: whatever comes after
/// weighs at least as much, whatever does not weighs at most as much.
pub proof fn lemma_comparator_respects_weight()
    ensures
        forall|a: AbsTrackEvent, b: AbsTrackEvent|
            #[trigger] a.comes_after(b) ==> event_weight()(a) >= event_weight()(b),
        forall|a: AbsTrackEvent, b: AbsTrackEvent|
            !(#[trigger] a.comes_after(b)) ==> event_weight()(a) <= event_weight()(b),
{
}

pub open spec fn is_eot_pred() -> spec_fn(AbsTrackEvent) -> bool {
    |e: AbsTrackEvent| e.spec_is_end_of_track()
}

/// How many end-of-track events a sequence holds.
pub open spec fn eot_count(s: Seq<AbsTrackEvent>) -> nat {
    count_matching(s, is_eot_pred())
}

pub open spec fn with_abs(e: AbsTrackEvent, a: u64) -> AbsTrackEvent {
    AbsTrackEvent { abs_time: a, ..e }
}

pub open spec fn with_vtime(e: AbsTrackEvent, v: u64) -> AbsTrackEvent {
    AbsTrackEvent { track_event: TrackEvent { vtime: v, ..e.track_event }, ..e }
}

/// After sorting, the end-of-track event's tick is forced to the largest
/// tick among the other events, which stand just before it.
pub open spec fn fix_end_tick(s: Seq<AbsTrackEvent>) -> Seq<AbsTrackEvent> {
    if s.len() >= 2 {
        s.update(s.len() - 1, with_abs(s.last(), s[s.len() - 2].abs_time))
    } else {
        s
    }
}

/// Each event's delta-time recomputed from the absolute ticks: the first
/// event's delta is its own tick, and every later event's delta is its tick
/// minus its predecessor's.
pub open spec fn rebuild_vtimes(s: Seq<AbsTrackEvent>) -> Seq<AbsTrackEvent> {
    Seq::new(
        s.len(),
        |i: int|
            with_vtime(
                s[i],
                if i == 0 {
                    s[0].abs_time
                } else {
                    (s[i].abs_time - s[i - 1].abs_time) as u64
                },
            ),
    )
}

/// The full repair a dirty track undergoes: stable sort under the track
/// comparator, end-of-track tick fix-up, delta-time rebuild.
pub open spec fn sort_and_fix(s: Seq<AbsTrackEvent>) -> Seq<AbsTrackEvent> {
    rebuild_vtimes(fix_end_tick(sort_ordered(s)))
}

/// The ticks are non-decreasing throughout the sorted-and-fixed sequence,
/// provided at most one end-of-track event is present.
pub proof fn lemma_fixed_ticks_sorted(s: Seq<AbsTrackEvent>)
    requires
        weight_sorted(s, event_weight()),
        count_matching(s, is_eot_pred()) <= 1,
    ensures
        forall|i: int, j: int|
            0 <= i < j < fix_end_tick(s).len() ==> (#[trigger] fix_end_tick(s)[i]).abs_time <= (
            #[trigger] fix_end_tick(s)[j]).abs_time,
{
    let t = fix_end_tick(s);
    let n = s.len() as int;
    if n >= 2 {
        assert forall|i: int, j: int| 0 <= i < j < n implies (#[trigger] t[i]).abs_time <= (
        #[trigger] t[j]).abs_time by {
            // no event before the last position is an end-of-track event
            assert forall|k: int| 0 <= k < n - 1 implies !(#[trigger] s[k]).spec_is_end_of_track()
                by {
                if s[k].spec_is_end_of_track() {
                    assert(event_weight()(s[k]) <= event_weight()(s[n - 1]));
                    assert(s[n - 1].spec_is_end_of_track());
                    assert(is_eot_pred()(s[k]) && is_eot_pred()(s[n - 1]));
                    lemma_count_matching_at_least_two(s, is_eot_pred(), k, n - 1);
                }
            }
            if j < n - 1 {
                assert(event_weight()(s[i]) <= event_weight()(s[j]));
            } else {
                assert(t[j].abs_time == s[n - 2].abs_time);
                if i < n - 2 {
                    assert(event_weight()(s[i]) <= event_weight()(s[n - 2]));
                }
            }
        }
    }
}

/// Whether an event is a note-on at the given tick for the given note and
/// velocity. The channel is not compared.
pub open spec fn note_on_match(e: AbsTrackEvent, abs_tick: u64, note: u8, velocity: u8) -> bool {
    e.abs_time == abs_tick && match e.track_event.event.spec_note_on() {
        Some(t) => t.1 == note && t.2 == velocity,
        None => false,
    }
}

/// Whether an event is a note-off for the given note, at any tick, with any
/// velocity, on any channel.
pub open spec fn note_off_match(e: AbsTrackEvent, note: u8) -> bool {
    match e.track_event.event.spec_note_off() {
        Some(t) => t.1 == note,
        None => false,
    }
}

pub open spec fn on_pred(abs_tick: u64, note: u8, velocity: u8) -> spec_fn(AbsTrackEvent) -> bool {
    |e: AbsTrackEvent| note_on_match(e, abs_tick, note, velocity)
}

pub open spec fn off_pred(note: u8) -> spec_fn(AbsTrackEvent) -> bool {
    |e: AbsTrackEvent| note_off_match(e, note)
}

/// The pair of indices `delete_note` removes from a clean track: the first
/// note-on matching `(abs_tick, note, velocity)`, and the first note-off for
/// the same note after it. None when either is missing; a dangling note-on
/// is left in place.
pub open spec fn note_pair_indices(
    s: Seq<AbsTrackEvent>,
    abs_tick: u64,
    note: u8,
    velocity: u8,
) -> Option<(int, int)> {
    match first_matching(s, on_pred(abs_tick, note, velocity)) {
        Some(i) => match first_matching(s.skip(i + 1), off_pred(note)) {
            Some(k) => Some((i, i + 1 + k)),
            None => None,
        },
        None => None,
    }
}

/// A found note pair lies within the track, the note-off strictly after
/// the note-on.
pub proof fn lemma_note_pair_indices_props(
    s: Seq<AbsTrackEvent>,
    abs_tick: u64,
    note: u8,
    velocity: u8,
)
    ensures
        match note_pair_indices(s, abs_tick, note, velocity) {
            Some(pair) => 0 <= pair.0 < pair.1 < s.len(),
            None => true,
        },
{
    lemma_first_matching_props(s, on_pred(abs_tick, note, velocity));
    match first_matching(s, on_pred(abs_tick, note, velocity)) {
        Some(i) => {
            lemma_first_matching_props(s.skip(i + 1), off_pred(note));
        },
        None => {},
    }
}

/// The index of the first note-on in `events` matching
/// `(abs_tick, note, velocity)`.
fn find_first_on(events: &Vec<AbsTrackEvent>, abs_tick: u64, note: u8, velocity: u8) -> (r: Option<
    usize,
>)
    ensures
        match r {
            Some(i) => first_matching(events@, on_pred(abs_tick, note, velocity)) == Some(i as int),
            None => first_matching(events@, on_pred(abs_tick, note, velocity)) is None,
        },
{
    let n = events.len();
    let mut i: usize = 0;
    while i < n
        invariant
            i <= n,
            n == events@.len(),
            forall|m: int|
                0 <= m < i ==> !on_pred(abs_tick, note, velocity)(#[trigger] events@[m]),
        decreases n - i,
    {
        let e = &events[i];
        let matched: bool = if e.abs_time == abs_tick {
            match &e.track_event.event {
                SmfEvent::Midi(m) => match crate::util::note_on(m) {
                    Some(t) => t.1 == note && t.2 == velocity,
                    None => false,
                },
                SmfEvent::Meta(_) => false,
            }
        } else {
            false
        };
        if matched {
            proof {
                assert(on_pred(abs_tick, note, velocity)(events@[i as int]));
                lemma_first_matching_is(events@, on_pred(abs_tick, note, velocity), i as int);
            }
            return Some(i);
        }
        proof {
            assert(!on_pred(abs_tick, note, velocity)(events@[i as int]));
        }
        i += 1;
    }
    proof {
        lemma_first_matching_none(events@, on_pred(abs_tick, note, velocity));
    }
    None
}

/// The index of the first note-off for `note` at position `start` or later.
fn find_first_off_from(events: &Vec<AbsTrackEvent>, start: usize, note: u8) -> (r: Option<usize>)
    requires
        start <= events@.len(),
    ensures
        match r {
            Some(j) => start <= j < events@.len() && first_matching(
                events@.skip(start as int),
                off_pred(note),
            ) == Some(j - start),
            None => first_matching(events@.skip(start as int), off_pred(note)) is None,
        },
{
    let ghost tail = events@.skip(start as int);
    let n = events.len();
    let mut j: usize = start;
    while j < n
        invariant
            start <= j <= n,
            n == events@.len(),
            tail == events@.skip(start as int),
            forall|m: int| 0 <= m < j - start ==> !off_pred(note)(#[trigger] tail[m]),
        decreases n - j,
    {
        let e = &events[j];
        let matched: bool = match &e.track_event.event {
            SmfEvent::Midi(m) => match crate::util::note_off(m) {
                Some(t) => t.1 == note,
                None => false,
            },
            SmfEvent::Meta(_) => false,
        };
        if matched {
            proof {
                assert(tail[j - start] == events@[j as int]);
                assert(off_pred(note)(tail[j - start]));
                lemma_first_matching_is(tail, off_pred(note), j - start);
            }
            return Some(j);
        }
        proof {
            assert(tail[j - start] == events@[j as int]);
            assert(!off_pred(note)(tail[j - start]));
        }
        j += 1;
    }
    proof {
        lemma_first_matching_none(tail, off_pred(note));
    }
    None
}

/// A track of events at absolute ticks. `dirty` records that mutations may
/// have broken the ordering discipline; `clean` restores it.
#[derive(Debug, Clone)]
pub struct AbsTrack {
    pub events: Vec<AbsTrackEvent>,
    pub dirty: bool,
}

/// What a track's events are after `clean`: repaired when the track was
/// dirty, untouched otherwise.
pub open spec fn clean_result(s: Seq<AbsTrackEvent>, dirty: bool) -> Seq<AbsTrackEvent> {
    if dirty {
        sort_and_fix(s)
    } else {
        s
    }
}

/// Whether an appended note event matches one requested entry
/// `(abs_tick, note, velocity, channel)`: it sits at the requested tick with
/// a placeholder delta of zero, and is a note-on carrying the requested
/// fields, or, when the requested velocity is zero, a note-off instead.
pub open spec fn appended_note_event(e: AbsTrackEvent, n: (u64, u8, u8, u8)) -> bool {
    &&& e.abs_time == n.0
    &&& e.track_event.vtime == 0
    &&& if n.2 == 0 {
        e.track_event.event.spec_note_off() == Some((n.3, n.1, 0u8))
    } else {
        e.track_event.event.spec_note_on() == Some((n.3, n.1, n.2))
    }
}

impl AbsTrack {
    /// A track from events in no particular order; marked dirty so that the
    /// next `clean` sorts it.
    pub fn new(events: Vec<AbsTrackEvent>) -> (r: AbsTrack)
        ensures
            r.events == events,
            r.dirty == true,
    {
        AbsTrack { events, dirty: true }
    }

    /// A track from events trusted to be in wire order already.
    pub fn new_without_sort(events: Vec<AbsTrackEvent>) -> (r: AbsTrack)
        ensures
            r.events == events,
            r.dirty == false,
    {
        AbsTrack { events, dirty: false }
    }

    pub fn events(&self) -> (r: &Vec<AbsTrackEvent>)
        ensures
            r == &self.events,
    {
        &self.events
    }

    /// Direct mutable access to the events; whoever edits through it must
    /// mark the track dirty or keep the order intact.
    pub fn events_mut(&mut self) -> (r: &mut Vec<AbsTrackEvent>)
        ensures
            *r == old(self).events,
            final(self).events == *final(r),
            final(self).dirty == old(self).dirty,
    {
        &mut self.events
    }

    /// The events moved out of the track, in their current order.
    pub fn into_events(self) -> (r: Vec<AbsTrackEvent>)
        ensures
            r == self.events,
    {
        self.events
    }

    /// Appends one synthesized note event per entry
    /// `(abs_tick, note, velocity, channel)`: a note-on, or a note-off when
    /// the velocity is zero. Marks the track dirty; the placeholder
    /// delta-times are corrected by the next `clean`.
    pub fn append_notes(&mut self, notes: Vec<(u64, u8, u8, u8)>)
        requires
            forall|k: int| 0 <= k < notes@.len() ==> (#[trigger] notes@[k]).3 < 16,
        ensures
            final(self).dirty == true,
            final(self).events@.len() == old(self).events@.len() + notes@.len(),
            forall|k: int|
                0 <= k < old(self).events@.len() ==> final(self).events@[k] == old(
                    self,
                ).events@[k],
            forall|k: int|
                0 <= k < notes@.len() ==> appended_note_event(
                    #[trigger] final(self).events@[old(self).events@.len() + k],
                    notes@[k],
                ),
    {
        let ghost base = self.events@;
        let n = notes.len();
        let mut k: usize = 0;
        while k < n
            invariant
                k <= n,
                n == notes@.len(),
                forall|m: int| 0 <= m < notes@.len() ==> (#[trigger] notes@[m]).3 < 16,
                self.events@.len() == base.len() + k,
                forall|m: int| 0 <= m < base.len() ==> self.events@[m] == base[m],
                forall|m: int|
                    0 <= m < k ==> appended_note_event(
                        #[trigger] self.events@[base.len() + m],
                        notes@[m],
                    ),
                self.dirty == old(self).dirty,
            decreases n - k,
        {
            let (abs_tick, note, velocity, ch) = notes[k];
            let mut data: Vec<u8> = Vec::new();
            if velocity == 0 {
                data.push(0x80 + ch);
            } else {
                data.push(0x90 + ch);
            }
            data.push(note);
            data.push(velocity);
            let ev = AbsTrackEvent {
                abs_time: abs_tick,
                track_event: TrackEvent { vtime: 0, event: SmfEvent::Midi(MidiMessage { data }) },
            };
            self.events.push(ev);
            k += 1;
        }
        self.dirty = true;
    }

    /// Appends one synthesized note event at `(abs_tick, note, velocity)` on
    /// channel `ch`: a note-on, or a note-off when the velocity is zero.
    pub fn append_note(&mut self, note: (u64, u8, u8), ch: u8)
        requires
            ch < 16,
        ensures
            final(self).dirty == true,
            final(self).events@.len() == old(self).events@.len() + 1,
            forall|k: int|
                0 <= k < old(self).events@.len() ==> final(self).events@[k] == old(
                    self,
                ).events@[k],
            appended_note_event(
                final(self).events@.last(),
                (note.0, note.1, note.2, ch),
            ),
    {
        let (abs_tick, n, velocity) = note;
        let mut batch: Vec<(u64, u8, u8, u8)> = Vec::new();
        batch.push((abs_tick, n, velocity, ch));
        proof {
            assert(batch@ =~= seq![(abs_tick, n, velocity, ch)]);
        }
        self.append_notes(batch);
        proof {
            let base_len = old(self).events@.len() as int;
            assert(appended_note_event(self.events@[base_len + 0], batch@[0]));
            assert(self.events@.last() == self.events@[base_len + 0]);
        }
    }

    /// Deletes a note pair: cleans the track, finds the first note-on
    /// matching `(abs_tick, note, velocity)`, then the first note-off for
    /// the same note after it, and removes both. Returns whether a pair was
    /// found and removed; a note-on without a matching note-off is left in
    /// place and the call returns false.
    pub fn delete_note(&mut self, note_key: (u64, u8, u8)) -> (found: bool)
        requires
            old(self).dirty ==> eot_count(old(self).events@) <= 1,
        ensures
            ({
                let c = clean_result(old(self).events@, old(self).dirty);
                match note_pair_indices(c, note_key.0, note_key.1, note_key.2) {
                    Some(pair) => found && final(self).dirty == true && final(self).events@
                        == c.remove(pair.0).remove(pair.1 - 1),
                    None => !found && final(self).dirty == false && final(self).events@ == c,
                }
            }),
    {
        let (abs_tick, note, velocity) = note_key;
        self.clean();
        let ghost c = self.events@;
        match find_first_on(&self.events, abs_tick, note, velocity) {
            Some(i) => {
                let n = self.events.len();
                proof {
                    lemma_first_matching_props(c, on_pred(abs_tick, note, velocity));
                    assert(i < n);
                }
                match find_first_off_from(&self.events, i + 1, note) {
                    Some(j) => {
                        self.events.remove(i);
                        self.events.remove(j - 1);
                        self.dirty = true;
                        proof {
                            assert(note_pair_indices(c, abs_tick, note, velocity) == Some(
                                (i as int, j as int),
                            ));
                        }
                        true
                    },
                    None => {
                        proof {
                            assert(note_pair_indices(c, abs_tick, note, velocity) is None);
                        }
                        false
                    },
                }
            },
            None => false,
        }
    }

    /// Restores the ordering discipline if the track is dirty: sorts the
    /// events stably under the track comparator, forces the end-of-track
    /// event's tick to the largest tick of the others, rebuilds the
    /// delta-times from the ticks, and clears the dirty flag. Does nothing
    /// on a track that is already clean.
    pub fn clean(&mut self)
        requires
            old(self).dirty ==> eot_count(old(self).events@) <= 1,
        ensures
            final(self).dirty == false,
            final(self).events@ == clean_result(old(self).events@, old(self).dirty),
    {
        if self.dirty {
            self.sort_rebuild_delta_time();
            self.dirty = false;
        }
    }

    /// The final pass before exporting: repairs the order and the
    /// delta-times whether or not the track is marked dirty.
    pub fn finalize(&mut self)
        requires
            eot_count(old(self).events@) <= 1,
        ensures
            final(self).dirty == old(self).dirty,
            final(self).events@ == sort_and_fix(old(self).events@),
    {
        self.sort_rebuild_delta_time();
    }

    fn sort_rebuild_delta_time(&mut self)
        requires
            eot_count(old(self).events@) <= 1,
        ensures
            final(self).dirty == old(self).dirty,
            final(self).events@ == sort_and_fix(old(self).events@),
    {
        insertion_sort(&mut self.events);
        proof {
            lemma_comparator_respects_weight();
            lemma_sort_ordered_weight_sorted(old(self).events@, event_weight());
            lemma_sort_ordered_count(old(self).events@, is_eot_pred());
            lemma_sort_ordered_len(old(self).events@);
        }
        let ghost sorted_snap = self.events@;
        let n = self.events.len();
        if n >= 2 {
            let max_abs = self.events[n - 2].abs_time;
            let mut last = self.events.pop().unwrap();
            last.abs_time = max_abs;
            self.events.push(last);
            proof {
                assert(self.events@ =~= fix_end_tick(sorted_snap));
            }
        }
        let ghost fixed = self.events@;
        proof {
            assert(fixed == fix_end_tick(sorted_snap));
            lemma_fixed_ticks_sorted(sorted_snap);
        }
        let len = self.events.len();
        if len > 0 {
            let a0 = self.events[0].abs_time;
            self.events[0].track_event.vtime = a0;
            assert(self.events@[0] == rebuild_vtimes(fixed)[0]);
            let mut idx: usize = 1;
            while idx < len
                invariant
                    1 <= idx <= len,
                    len == fixed.len(),
                    self.dirty == old(self).dirty,
                    self.events@.len() == fixed.len(),
                    forall|i: int, j: int|
                        0 <= i < j < fixed.len() ==> (#[trigger] fixed[i]).abs_time <= (
                        #[trigger] fixed[j]).abs_time,
                    forall|k: int| idx <= k < len ==> self.events@[k] == fixed[k],
                    forall|k: int| 0 <= k < idx ==> self.events@[k] == rebuild_vtimes(fixed)[k],
                decreases len - idx,
            {
                let prev = self.events[idx - 1].abs_time;
                let cur = self.events[idx].abs_time;
                proof {
                    assert(rebuild_vtimes(fixed)[idx - 1].abs_time == fixed[idx - 1].abs_time);
                    assert(prev == fixed[idx - 1].abs_time);
                    assert(cur == fixed[idx as int].abs_time);
                    assert(prev <= cur);
                }
                self.events[idx].track_event.vtime = cur - prev;
                idx += 1;
            }
        }
        proof {
            assert(self.events@ =~= rebuild_vtimes(fixed));
        }
    }
}

/// A track from events in no particular order, like `AbsTrack::new`:
/// marked dirty so that the next `clean` sorts it.
impl From<Vec<AbsTrackEvent>> for AbsTrack {
    fn from(v: Vec<AbsTrackEvent>) -> (r: AbsTrack) {
        AbsTrack::new(v)
    }
}

impl vstd::std_specs::convert::FromSpecImpl<Vec<AbsTrackEvent>> for AbsTrack {
    open spec fn obeys_from_spec() -> bool {
        true
    }

    open spec fn from_spec(v: Vec<AbsTrackEvent>) -> AbsTrack {
        AbsTrack { events: v, dirty: true }
    }
}

/// The wire stream of a track: each event with its delta-time, the
/// absolute ticks dropped.
pub open spec fn track_events_of(s: Seq<AbsTrackEvent>) -> Seq<TrackEvent> {
    s.map_values(|e: AbsTrackEvent| e.track_event)
}

/// The sum of the delta-times of `s[0..=i]`: the absolute tick encoded for
/// position `i` of a wire stream.
pub open spec fn vtime_prefix_sum(s: Seq<TrackEvent>, i: int) -> int
    decreases i + 1,
{
    if i < 0 {
        0
    } else {
        vtime_prefix_sum(s, i - 1) + s[i].vtime
    }
}

/// Conversion of a wire stream to absolute-tick form: each event is pinned
/// at the running sum of the delta-times up to and including its own.
pub open spec fn to_absolute(s: Seq<TrackEvent>) -> Seq<AbsTrackEvent> {
    Seq::new(
        s.len(),
        |i: int| AbsTrackEvent { abs_time: vtime_prefix_sum(s, i) as u64, track_event: s[i] },
    )
}

proof fn lemma_prefix_sum_ticks(f: Seq<AbsTrackEvent>, i: int)
    requires
        0 <= i < f.len(),
        forall|a: int, b: int|
            0 <= a < b < f.len() ==> (#[trigger] f[a]).abs_time <= (#[trigger] f[b]).abs_time,
    ensures
        vtime_prefix_sum(track_events_of(rebuild_vtimes(f)), i) == f[i].abs_time as int,
    decreases i,
{
    let w = track_events_of(rebuild_vtimes(f));
    assert(w[i].vtime == rebuild_vtimes(f)[i].track_event.vtime);
    if i == 0 {
        assert(vtime_prefix_sum(w, 0) == vtime_prefix_sum(w, -1) + w[0].vtime);
    } else {
        lemma_prefix_sum_ticks(f, i - 1);
    }
}

/// Law: rebuilding the delta-times is lossless. After the sort-and-fix
/// repair, converting the resulting wire stream back to absolute form
/// reproduces the repaired track exactly, events and ticks alike.
pub proof fn lemma_delta_round_trip(s: Seq<AbsTrackEvent>)
    requires
        eot_count(s) <= 1,
    ensures
        to_absolute(track_events_of(sort_and_fix(s))) == sort_and_fix(s),
{
    let t = sort_ordered(s);
    lemma_comparator_respects_weight();
    lemma_sort_ordered_weight_sorted(s, event_weight());
    lemma_sort_ordered_count(s, is_eot_pred());
    lemma_fixed_ticks_sorted(t);
    let f = fix_end_tick(t);
    let c = sort_and_fix(s);
    assert forall|i: int| 0 <= i < c.len() implies to_absolute(track_events_of(c))[i] == c[i] by {
        lemma_prefix_sum_ticks(f, i);
        assert(c[i].abs_time == f[i].abs_time);
        assert(to_absolute(track_events_of(c))[i].track_event == c[i].track_event);
    }
    assert(to_absolute(track_events_of(c)) =~= c);
}

/// With exactly one end-of-track event present, the sort puts it last and
/// nothing else is one.
pub proof fn lemma_sorted_single_eot(s: Seq<AbsTrackEvent>)
    requires
        eot_count(s) == 1,
    ensures
        s.len() >= 1,
        sort_ordered(s).len() == s.len(),
        sort_ordered(s)[s.len() - 1].spec_is_end_of_track(),
        forall|k: int|
            0 <= k < s.len() - 1 ==> !(#[trigger] sort_ordered(s)[k]).spec_is_end_of_track(),
{
    let t = sort_ordered(s);
    let n = s.len() as int;
    lemma_sort_ordered_len(s);
    lemma_sort_ordered_count(s, is_eot_pred());
    lemma_comparator_respects_weight();
    lemma_sort_ordered_weight_sorted(s, event_weight());
    lemma_count_matching_exists(t, is_eot_pred());
    let i = choose|i: int| 0 <= i < t.len() && is_eot_pred()(#[trigger] t[i]);
    if i < n - 1 {
        assert(event_weight()(t[i]) <= event_weight()(t[n - 1]));
        assert(is_eot_pred()(t[n - 1]));
        lemma_count_matching_at_least_two(t, is_eot_pred(), i, n - 1);
    }
    assert(t[n - 1].spec_is_end_of_track());
    assert forall|k: int| 0 <= k < n - 1 implies !(#[trigger] t[k]).spec_is_end_of_track() by {
        if t[k].spec_is_end_of_track() {
            lemma_count_matching_at_least_two(t, is_eot_pred(), k, n - 1);
        }
    }
}

/// The track comparator is asymmetric: nothing comes after whatever comes
/// after it.
pub proof fn lemma_comparator_asymmetric()
    ensures
        forall|a: AbsTrackEvent, b: AbsTrackEvent|
            #[trigger] a.comes_after(b) ==> !b.comes_after(a),
{
}

/// With exactly one end-of-track event, the repaired track has no element
/// that comes after its successor: the repair leaves nothing for a second
/// sort to move.
pub proof fn lemma_repaired_adjacent_ordered(s: Seq<AbsTrackEvent>)
    requires
        eot_count(s) == 1,
    ensures
        sort_and_fix(s).len() == s.len(),
        adjacent_ordered(sort_and_fix(s)),
{
    let t = sort_ordered(s);
    let f = fix_end_tick(t);
    let c = sort_and_fix(s);
    let n = s.len() as int;
    lemma_comparator_asymmetric();
    lemma_sort_ordered_adjacent(s);
    lemma_sorted_single_eot(s);
    assert(c.len() == n);
    assert(adjacent_ordered(f)) by {
        assert forall|i: int| 0 <= i < f.len() - 1 implies !(#[trigger] f[i]).comes_after(
            f[i + 1],
        ) by {
            if i + 1 < n - 1 {
                assert(f[i] == t[i] && f[i + 1] == t[i + 1]);
            } else {
                assert(f[i + 1].spec_is_end_of_track());
                assert(!f[i].spec_is_end_of_track());
            }
        }
    }
    assert(adjacent_ordered(c)) by {
        assert forall|i: int| 0 <= i < c.len() - 1 implies !(#[trigger] c[i]).comes_after(
            c[i + 1],
        ) by {
            assert(c[i].comes_after(c[i + 1]) == f[i].comes_after(f[i + 1]));
        }
    }
}

/// Law: the tie-break holds in the repaired track. No note-on stands
/// immediately before a note-off at the same tick, so a consumer of the
/// stream never hears a note opened and closed at one instant in the wrong
/// order.
pub proof fn lemma_repaired_tie_break(s: Seq<AbsTrackEvent>)
    requires
        eot_count(s) == 1,
    ensures
        forall|i: int|
            0 <= i < sort_and_fix(s).len() - 1 ==> !((#[trigger] sort_and_fix(
                s,
            )[i]).spec_is_note_on() && sort_and_fix(s)[i + 1].spec_is_note_off() && sort_and_fix(
                s,
            )[i].abs_time == sort_and_fix(s)[i + 1].abs_time),
{
    lemma_repaired_adjacent_ordered(s);
    let c = sort_and_fix(s);
    assert forall|i: int| 0 <= i < c.len() - 1 implies !((#[trigger] c[i]).spec_is_note_on() && c[
        i + 1
    ].spec_is_note_off() && c[i].abs_time == c[i + 1].abs_time) by {
        assert(!c[i].comes_after(c[i + 1]));
    }
}

/// Law: the repaired track's ticks never decrease.
pub proof fn lemma_repaired_ticks_sorted(s: Seq<AbsTrackEvent>)
    requires
        eot_count(s) <= 1,
    ensures
        forall|i: int, j: int|
            0 <= i < j < sort_and_fix(s).len() ==> (#[trigger] sort_and_fix(s)[i]).abs_time <= (
            #[trigger] sort_and_fix(s)[j]).abs_time,
{
    let t = sort_ordered(s);
    lemma_comparator_respects_weight();
    lemma_sort_ordered_weight_sorted(s, event_weight());
    lemma_sort_ordered_count(s, is_eot_pred());
    lemma_fixed_ticks_sorted(t);
    let f = fix_end_tick(t);
    let c = sort_and_fix(s);
    assert forall|i: int, j: int| 0 <= i < j < c.len() implies (#[trigger] c[i]).abs_time <= (
    #[trigger] c[j]).abs_time by {
        assert(c[i].abs_time == f[i].abs_time && c[j].abs_time == f[j].abs_time);
    }
}

/// Law: the repair is a fixpoint. For a track holding exactly one
/// end-of-track event, repairing the repaired track changes nothing: the
/// sort finds the events already in order, the end-of-track tick is
/// already the largest tick of the others, and the delta-times already
/// encode the ticks.
pub proof fn lemma_sort_and_fix_stable(s: Seq<AbsTrackEvent>)
    requires
        eot_count(s) == 1,
    ensures
        sort_and_fix(sort_and_fix(s)) == sort_and_fix(s),
{
    let t = sort_ordered(s);
    let f = fix_end_tick(t);
    let c = sort_and_fix(s);
    let n = s.len() as int;
    lemma_sorted_single_eot(s);
    lemma_repaired_adjacent_ordered(s);
    assert forall|i: int| 0 <= i < n implies (#[trigger] c[i]).abs_time == f[i].abs_time && c[
        i
    ].track_event.event == f[i].track_event.event by {}
    lemma_sort_of_ordered(c);
    let f2 = fix_end_tick(c);
    assert(f2 == c) by {
        if n >= 2 {
            assert(c[n - 1].abs_time == c[n - 2].abs_time) by {
                assert(f[n - 1].abs_time == t[n - 2].abs_time);
                assert(f[n - 2] == t[n - 2]);
            }
            assert(with_abs(c.last(), c[n - 2].abs_time) == c.last());
            assert(c.update(n - 1, c.last()) =~= c);
        }
    }
    assert(rebuild_vtimes(c) =~= c) by {
        assert forall|i: int| 0 <= i < n implies rebuild_vtimes(c)[i] == c[i] by {
            assert(c[i] == with_vtime(
                f[i],
                if i == 0 {
                    f[0].abs_time
                } else {
                    (f[i].abs_time - f[i - 1].abs_time) as u64
                },
            ));
            assert(with_vtime(c[i], c[i].track_event.vtime) == c[i]);
        }
    }
}

/// Law: the end-of-track event ends up last. For a track holding exactly
/// one end-of-track event, the sort-and-fix repair leaves that event as the
/// last element, every other event earlier and at a tick no greater, and —
/// when any other event exists — the end-of-track tick equal to the largest
/// tick among the others.
pub proof fn lemma_end_of_track_placement(s: Seq<AbsTrackEvent>)
    requires
        eot_count(s) == 1,
        s.len() >= 1,
    ensures
        sort_and_fix(s).len() == s.len(),
        sort_and_fix(s)[s.len() - 1].spec_is_end_of_track(),
        forall|k: int|
            0 <= k < s.len() - 1 ==> !(#[trigger] sort_and_fix(s)[k]).spec_is_end_of_track(),
        forall|k: int|
            0 <= k < s.len() - 1 ==> (#[trigger] sort_and_fix(s)[k]).abs_time <= sort_and_fix(
                s,
            )[s.len() - 1].abs_time,
        s.len() >= 2 ==> sort_and_fix(s)[s.len() - 1].abs_time == sort_and_fix(s)[s.len()
            - 2].abs_time,
{
    let t = sort_ordered(s);
    let n = s.len() as int;
    lemma_sorted_single_eot(s);
    lemma_sort_ordered_len(s);
    lemma_sort_ordered_count(s, is_eot_pred());
    lemma_comparator_respects_weight();
    lemma_sort_ordered_weight_sorted(s, event_weight());
    lemma_fixed_ticks_sorted(t);
    let f = fix_end_tick(t);
    let c = sort_and_fix(s);
    assert(c.len() == n);
    assert forall|k: int| 0 <= k < n implies (#[trigger] c[k]).abs_time == f[k].abs_time && c[k].track_event.event
        == f[k].track_event.event by {
        assert(c[k] == with_vtime(
            f[k],
            if k == 0 {
                f[0].abs_time
            } else {
                (f[k].abs_time - f[k - 1].abs_time) as u64
            },
        ));
    }
    assert(f[n - 1].track_event.event == t[n - 1].track_event.event);
    assert(c[n - 1].spec_is_end_of_track());
    if n >= 2 {
        assert(f[n - 1].abs_time == t[n - 2].abs_time);
        assert(f[n - 2] == t[n - 2]);
    }
}

/// The sort-and-fix repair neither adds nor drops end-of-track events: the
/// sort permutes, the tick fix-up and the delta rebuild touch no event's
/// kind.
pub proof fn lemma_sort_and_fix_eot_count(s: Seq<AbsTrackEvent>)
    ensures
        eot_count(sort_and_fix(s)) == eot_count(s),
{
    let t = sort_ordered(s);
    lemma_sort_ordered_count(s, is_eot_pred());
    lemma_sort_ordered_len(s);
    let f = fix_end_tick(t);
    if t.len() >= 2 {
        lemma_count_matching_update(
            t,
            is_eot_pred(),
            t.len() - 1,
            with_abs(t.last(), t[t.len() - 2].abs_time),
        );
    }
    assert(count_matching(f, is_eot_pred()) == count_matching(t, is_eot_pred()));
    lemma_count_matching_pointwise(rebuild_vtimes(f), f, is_eot_pred());
}

/// Two absolute events carrying the same tick, the same delta and the same
/// event bytes. This is value equality of events pinned at ticks; it
/// ignores where the byte buffers live.
pub open spec fn same_abs_event(a: AbsTrackEvent, b: AbsTrackEvent) -> bool {
    a.abs_time == b.abs_time && a.track_event.vtime == b.track_event.vtime && same_event(
        a.track_event.event,
        b.track_event.event,
    )
}

pub open spec fn same_abs_pred() -> spec_fn(AbsTrackEvent, AbsTrackEvent) -> bool {
    |a: AbsTrackEvent, b: AbsTrackEvent| same_abs_event(a, b)
}

/// The sort-and-fix repair reads only the values of its events, never
/// where their bytes live: value-equal tracks repair to value-equal tracks.
pub proof fn lemma_sort_and_fix_related(s: Seq<AbsTrackEvent>, t: Seq<AbsTrackEvent>)
    requires
        pointwise_related(s, t, same_abs_pred()),
    ensures
        pointwise_related(sort_and_fix(s), sort_and_fix(t), same_abs_pred()),
{
    assert(relation_respects_order::<AbsTrackEvent>(same_abs_pred())) by {
        assert forall|a: AbsTrackEvent, b: AbsTrackEvent, a2: AbsTrackEvent, b2: AbsTrackEvent|
            #![trigger a.comes_after(b), same_abs_pred()(a, a2), same_abs_pred()(b, b2)]
            same_abs_pred()(a, a2) && same_abs_pred()(b, b2) implies a.comes_after(b)
            == a2.comes_after(b2) by {
            assert(a.spec_is_end_of_track() == a2.spec_is_end_of_track());
            assert(b.spec_is_end_of_track() == b2.spec_is_end_of_track());
            assert(a.spec_is_note_on() == a2.spec_is_note_on());
            assert(b.spec_is_note_off() == b2.spec_is_note_off());
        }
    }
    lemma_sort_ordered_related(s, t, same_abs_pred());
    lemma_sort_ordered_len(s);
    lemma_sort_ordered_len(t);
    let ss = sort_ordered(s);
    let st = sort_ordered(t);
    let fs = fix_end_tick(ss);
    let ft = fix_end_tick(st);
    assert(pointwise_related(fs, ft, same_abs_pred()));
    assert forall|k: int| 0 <= k < fs.len() implies same_abs_pred()(
        #[trigger] rebuild_vtimes(fs)[k],
        rebuild_vtimes(ft)[k],
    ) by {
        assert(same_abs_event(fs[k], ft[k]));
        if k > 0 {
            assert(same_abs_event(fs[k - 1], ft[k - 1]));
        }
    }
}

/// End-of-track events are recognized by their bytes alone, so value-equal
/// tracks hold as many of them as their wire streams do.
pub proof fn lemma_eot_count_from_wire(a: Seq<AbsTrackEvent>, w: Seq<TrackEvent>)
    requires
        a.len() == w.len(),
        forall|k: int|
            0 <= k < a.len() ==> same_event((#[trigger] a[k]).track_event.event, w[k].event),
    ensures
        eot_count(a) == count_matching(w, wire_eot_pred()),
    decreases a.len(),
{
    if a.len() > 0 {
        let da = a.drop_last();
        let dw = w.drop_last();
        assert(forall|k: int| 0 <= k < da.len() ==> da[k] == a[k] && dw[k] == w[k]);
        lemma_eot_count_from_wire(da, dw);
        assert(a.last() == a[a.len() - 1] && w.last() == w[w.len() - 1]);
        assert(is_eot_pred()(a.last()) == wire_eot_pred()(w.last()));
    }
}

/// Whether a wire event is the end-of-track meta event.
pub open spec fn wire_eot_pred() -> spec_fn(TrackEvent) -> bool {
    |e: TrackEvent| e.event.spec_is_end_of_track()
}

/// Law: `clean` is idempotent. Cleaning marks the track not dirty, and a
/// second clean of a track that is not dirty leaves its events untouched,
/// so two cleans in a row produce exactly what one produces.
pub proof fn lemma_clean_idempotent(s: Seq<AbsTrackEvent>, dirty: bool)
    ensures
        clean_result(clean_result(s, dirty), false) == clean_result(s, dirty),
{
}

} // verus!

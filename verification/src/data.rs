//! A small song model kept apart from the wire format: tracks of events at
//! absolute ticks, ordered lazily. A track records in its `sorted` flag
//! whether its events are known to be in tick order, and sorts on demand.

use crate::order::SortOrder;
use crate::order::insertion_sort;
use crate::order::lemma_sort_ordered_weight_sorted;
use crate::order::sort_ordered;
use vstd::prelude::*;

verus! {

/// Ticks per quarter note of the song model.
pub const TPQ: i32 = 960;

/// A note: its scale step, how long it sounds, and how hard it is struck.
#[derive(Debug, Clone)]
pub struct NoteEvent {
    pub scale: i32,
    pub duration: u64,
    pub velocity: i32,
}

/// What can happen in a song at a tick.
#[derive(Debug, Clone)]
pub enum Event {
    Note(NoteEvent),
}

/// An event pinned to an absolute tick.
#[derive(Debug, Clone)]
pub struct GeneralEvent {
    pub abs_tick: u64,
    pub event: Event,
}

impl GeneralEvent {
    pub fn new(abs_tick: u64, event: Event) -> (r: GeneralEvent)
        ensures
            r.abs_tick == abs_tick,
            r.event == event,
    {
        GeneralEvent { abs_tick, event }
    }

    pub fn abs_tick(&self) -> (r: u64)
        ensures
            r == self.abs_tick,
    {
        self.abs_tick
    }
}

/// Song events are ordered by their tick alone; events at the same tick
/// keep their relative order.
impl SortOrder for GeneralEvent {
    open spec fn comes_after(self, other: Self) -> bool {
        self.abs_tick > other.abs_tick
    }

    fn check_comes_after(&self, other: &Self) -> (r: bool) {
        self.abs_tick > other.abs_tick
    }
}

/// The weight song events are ordered by: the absolute tick.
pub open spec fn tick_weight() -> spec_fn(GeneralEvent) -> int {
    |e: GeneralEvent| e.abs_tick as int
}

/// Events in non-decreasing tick order.
pub open spec fn events_tick_sorted(s: Seq<GeneralEvent>) -> bool {
    forall|i: int, j: int|
        0 <= i < j < s.len() ==> (#[trigger] s[i]).abs_tick <= (#[trigger] s[j]).abs_tick
}

proof fn lemma_sorted_events_tick_sorted(s: Seq<GeneralEvent>)
    ensures
        events_tick_sorted(sort_ordered(s)),
{
    lemma_sort_ordered_weight_sorted(s, tick_weight());
    assert forall|i: int, j: int|
        0 <= i < j < sort_ordered(s).len() implies (#[trigger] sort_ordered(s)[i]).abs_tick <= (
    #[trigger] sort_ordered(s)[j]).abs_tick by {
        assert(tick_weight()(sort_ordered(s)[i]) <= tick_weight()(sort_ordered(s)[j]));
    }
}

/// A track: events at absolute ticks, with a flag recording whether they
/// are known to be in tick order.
#[derive(Debug, Clone)]
pub struct Track {
    pub events: Vec<GeneralEvent>,
    pub sorted: bool,
}

impl Track {
    /// An empty track; nothing is out of order yet.
    pub fn new() -> (r: Track)
        ensures
            r.events@.len() == 0,
            r.sorted == true,
    {
        Track { events: Vec::new(), sorted: true }
    }

    /// Sorts the events by tick if the track is not known sorted, and
    /// records that it now is. Does nothing on a track already known
    /// sorted.
    pub fn sort_all(&mut self)
        ensures
            final(self).sorted == true,
            old(self).sorted ==> final(self).events@ == old(self).events@,
            !old(self).sorted ==> final(self).events@ == sort_ordered(old(self).events@)
                && events_tick_sorted(final(self).events@),
    {
        if self.sorted {
            return ;
        }
        self.sort_events();
        self.sorted = true;
    }

    /// Sorts the events by tick, stably, leaving the flag untouched.
    fn sort_events(&mut self)
        ensures
            final(self).events@ == sort_ordered(old(self).events@),
            final(self).sorted == old(self).sorted,
            events_tick_sorted(final(self).events@),
    {
        insertion_sort(&mut self.events);
        proof {
            lemma_sorted_events_tick_sorted(old(self).events@);
        }
    }

    /// The tick of the last event once the events are in tick order, which
    /// is the largest tick on the track; zero on an empty track. Sorts
    /// first when the track is not known sorted, without recording it.
    pub fn last_tick(&mut self) -> (r: u64)
        ensures
            final(self).sorted == old(self).sorted,
            old(self).sorted ==> final(self).events@ == old(self).events@,
            !old(self).sorted ==> final(self).events@ == sort_ordered(old(self).events@),
            r == if final(self).events@.len() == 0 {
                0u64
            } else {
                final(self).events@.last().abs_tick
            },
            !old(self).sorted ==> forall|k: int|
                0 <= k < final(self).events@.len() ==> (#[trigger] final(self).events@[k]).abs_tick
                    <= r,
    {
        if !self.sorted {
            self.sort_events();
        }
        if self.events.len() == 0 {
            return 0;
        }
        let len = self.events.len();
        self.events[len - 1].abs_tick()
    }

    /// Sorts the track if needed, then pushes the event at the back. The
    /// event is not placed by its tick: a tick earlier than the last
    /// event's leaves the events out of order even though the track is
    /// marked sorted.
    pub fn add_event(&mut self, event: GeneralEvent)
        ensures
            final(self).sorted == true,
            old(self).sorted ==> final(self).events@ == old(self).events@.push(event),
            !old(self).sorted ==> final(self).events@ == sort_ordered(old(self).events@).push(
                event,
            ),
    {
        if !self.sorted {
            self.sort_all();
        }
        self.events.push(event);
    }

    /// Pushes the event at the back and marks the track unsorted.
    pub fn add_event_not_sort(&mut self, event: GeneralEvent)
        ensures
            final(self).events@ == old(self).events@.push(event),
            final(self).sorted == false,
    {
        self.events.push(event);
        self.sorted = false;
    }
}

/// A song: its tracks.
#[derive(Debug, Clone)]
pub struct Song {
    pub tracks: Vec<Track>,
}

impl Song {
    /// A song with no tracks.
    pub fn new() -> (r: Song)
        ensures
            r.tracks@.len() == 0,
    {
        Song { tracks: Vec::new() }
    }

    /// The track at the given index, or None when there is none.
    pub fn track(&self, track_index: usize) -> (r: Option<&Track>)
        ensures
            match r {
                Some(t) => track_index < self.tracks@.len() && *t
                    == self.tracks@[track_index as int],
                None => track_index >= self.tracks@.len(),
            },
    {
        if track_index < self.tracks.len() {
            Some(&self.tracks[track_index])
        } else {
            None
        }
    }

    /// Replaces the track at the given index; a missing index leaves the
    /// song unchanged.
    pub fn replace_track(&mut self, track_index: usize, new_track: Track)
        ensures
            track_index < old(self).tracks@.len() ==> final(self).tracks@ == old(
                self,
            ).tracks@.update(track_index as int, new_track),
            track_index >= old(self).tracks@.len() ==> final(self).tracks@ == old(self).tracks@,
    {
        if track_index < self.tracks.len() {
            self.tracks[track_index] = new_track;
        }
    }

    /// Adds a track at the end.
    pub fn add_track(&mut self, track: Track)
        ensures
            final(self).tracks@ == old(self).tracks@.push(track),
    {
        self.tracks.push(track);
    }

    /// Sorts every track that is not known sorted.
    pub fn sort_all(&mut self)
        ensures
            final(self).tracks@.len() == old(self).tracks@.len(),
            forall|t: int|
                0 <= t < old(self).tracks@.len() ==> {
                    &&& (#[trigger] final(self).tracks@[t]).sorted == true
                    &&& (old(self).tracks@[t].sorted ==> final(self).tracks@[t].events@
                        == old(self).tracks@[t].events@)
                    &&& (!old(self).tracks@[t].sorted ==> final(self).tracks@[t].events@
                        == sort_ordered(old(self).tracks@[t].events@))
                },
    {
        let n = self.tracks.len();
        let mut i: usize = 0;
        while i < n
            invariant
                i <= n,
                n == self.tracks@.len(),
                self.tracks@.len() == old(self).tracks@.len(),
                forall|t: int| i <= t < n ==> self.tracks@[t] == old(self).tracks@[t],
                forall|t: int|
                    0 <= t < i ==> {
                        &&& (#[trigger] self.tracks@[t]).sorted == true
                        &&& (old(self).tracks@[t].sorted ==> self.tracks@[t].events@
                            == old(self).tracks@[t].events@)
                        &&& (!old(self).tracks@[t].sorted ==> self.tracks@[t].events@
                            == sort_ordered(old(self).tracks@[t].events@))
                    },
            decreases n - i,
        {
            self.tracks[i].sort_all();
            i += 1;
        }
    }
}

} // verus!

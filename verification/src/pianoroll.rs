//! Editing support behind the piano-roll view: pairing a track's note-on
//! and note-off events into drawable note spans, deleting the note whose
//! span covers a clicked position, and snapping ticks to a quantization
//! grid. All pixel arithmetic stays with the drawing front end; this module
//! works on ticks and notes alone.

use crate::event::SmfEvent;
use crate::track::AbsTrack;
use crate::track::AbsTrackEvent;
use crate::track::clean_result;
use crate::track::eot_count;
use crate::track::lemma_sort_and_fix_eot_count;
use crate::track::lemma_note_pair_indices_props;
use crate::track::note_pair_indices;
use crate::order::lemma_count_matching_remove;
use crate::track::is_eot_pred;
use vstd::prelude::*;

verus! {

/// One drawable note: which note sounds, from which tick to which, and how
/// hard it was struck.
#[derive(Debug, Clone, Copy, PartialEq, Eq, Structural)]
pub struct IndependentNoteDrawingInfo {
    pub note: u8,
    pub start_tick: u64,
    pub end_tick: u64,
    pub velocity: u8,
}

/// A placeholder for drawable marks other than notes; nothing produces
/// any yet.
#[derive(Debug, Clone, Copy, PartialEq, Eq, Structural)]
pub struct IndependentSubDrawingInfo {}

/// The open-note table: for each of the 256 possible note numbers, the
/// tick and velocity of the note-on last seen for it, if any.
pub open spec fn no_open_notes() -> Seq<Option<(u64, u8)>> {
    Seq::new(256, |i: int| None::<(u64, u8)>)
}

/// One event applied to the pairing state: a note-on records itself as the
/// open note of its number — closing the previous one first when its
/// velocity is zero — and a note-off closes the open note of its number,
/// leaving it recorded. `starts` is the open-note table, `drawn` the spans
/// produced so far.
pub open spec fn graph_step(
    starts: Seq<Option<(u64, u8)>>,
    drawn: Seq<IndependentNoteDrawingInfo>,
    e: AbsTrackEvent,
) -> (Seq<Option<(u64, u8)>>, Seq<IndependentNoteDrawingInfo>) {
    match e.track_event.event.spec_note_on() {
        Some(t) => {
            let drawn2 = if t.2 == 0 && starts[t.1 as int] is Some {
                drawn.push(
                    IndependentNoteDrawingInfo {
                        note: t.1,
                        start_tick: starts[t.1 as int]->Some_0.0,
                        end_tick: e.abs_time,
                        velocity: starts[t.1 as int]->Some_0.1,
                    },
                )
            } else {
                drawn
            };
            (starts.update(t.1 as int, Some((e.abs_time, t.2))), drawn2)
        },
        None => match e.track_event.event.spec_note_off() {
            Some(t) => {
                let drawn2 = if starts[t.1 as int] is Some {
                    drawn.push(
                        IndependentNoteDrawingInfo {
                            note: t.1,
                            start_tick: starts[t.1 as int]->Some_0.0,
                            end_tick: e.abs_time,
                            velocity: starts[t.1 as int]->Some_0.1,
                        },
                    )
                } else {
                    drawn
                };
                (starts, drawn2)
            },
            None => (starts, drawn),
        },
    }
}

/// The pairing state after the first `i + 1` events.
pub open spec fn graph_fold(events: Seq<AbsTrackEvent>, i: int) -> (
    Seq<Option<(u64, u8)>>,
    Seq<IndependentNoteDrawingInfo>,
)
    decreases i + 1,
{
    if i < 0 {
        (no_open_notes(), Seq::empty())
    } else {
        let prev = graph_fold(events, i - 1);
        graph_step(prev.0, prev.1, events[i])
    }
}

/// The note spans a track draws: each note-on paired with the next
/// note-off — or zero-velocity note-on — for its note number, in the order
/// the pairs close.
pub open spec fn drawing_graph_of(events: Seq<AbsTrackEvent>) -> Seq<IndependentNoteDrawingInfo> {
    graph_fold(events, events.len() - 1).1
}

/// Pairs the track's note-ons with their note-offs into drawable spans.
/// The second list is reserved for marks other than notes and is empty.
pub fn build_drawing_graph(track: &Vec<AbsTrackEvent>) -> (r: (
    Vec<IndependentNoteDrawingInfo>,
    Vec<IndependentSubDrawingInfo>,
))
    ensures
        r.0@ == drawing_graph_of(track@),
        r.1@.len() == 0,
{
    let mut start_note: Vec<Option<(u64, u8)>> = Vec::new();
    let mut s: usize = 0;
    while s < 256
        invariant
            s <= 256,
            start_note@.len() == s,
            forall|m: int| 0 <= m < s ==> start_note@[m] is None,
        decreases 256 - s,
    {
        start_note.push(None);
        s += 1;
    }
    proof {
        assert(start_note@ =~= no_open_notes());
    }
    let mut note_drawing: Vec<IndependentNoteDrawingInfo> = Vec::new();
    let n = track.len();
    let mut k: usize = 0;
    while k < n
        invariant
            k <= n,
            n == track@.len(),
            start_note@.len() == 256,
            start_note@ == graph_fold(track@, k - 1).0,
            note_drawing@ == graph_fold(track@, k - 1).1,
        decreases n - k,
    {
        let e = &track[k];
        match &e.track_event.event {
            SmfEvent::Midi(m) => {
                match crate::util::note_on(m) {
                    Some(t) => {
                        let (_, note, velocity) = t;
                        if velocity == 0 {
                            match start_note[note as usize] {
                                Some(sp) => {
                                    note_drawing.push(
                                        IndependentNoteDrawingInfo {
                                            note,
                                            start_tick: sp.0,
                                            end_tick: e.abs_time,
                                            velocity: sp.1,
                                        },
                                    );
                                },
                                None => {},
                            }
                        }
                        start_note[note as usize] = Some((e.abs_time, velocity));
                    },
                    None => {
                        match crate::util::note_off(m) {
                            Some(t) => {
                                let (_, note, _) = t;
                                match start_note[note as usize] {
                                    Some(sp) => {
                                        note_drawing.push(
                                            IndependentNoteDrawingInfo {
                                                note,
                                                start_tick: sp.0,
                                                end_tick: e.abs_time,
                                                velocity: sp.1,
                                            },
                                        );
                                    },
                                    None => {},
                                }
                            },
                            None => {},
                        }
                    },
                }
            },
            SmfEvent::Meta(_) => {},
        }
        k += 1;
    }
    (note_drawing, Vec::new())
}

/// Whether a drawn span covers the position `(tick, note)`.
pub open spec fn covers(info: IndependentNoteDrawingInfo, tick: u64, note: u8) -> bool {
    info.note == note && info.start_tick <= tick && tick <= info.end_tick
}

/// What scanning the drawn spans for `(tick, note)` does to the track:
/// each covering span in turn has its note pair deleted from the track —
/// which cleans the track first — and the first deletion that succeeds
/// cleans once more and stops the scan. The result is the track's events,
/// its dirty flag, and whether a note was deleted.
pub open spec fn delete_scan(
    events: Seq<AbsTrackEvent>,
    dirty: bool,
    infos: Seq<IndependentNoteDrawingInfo>,
    tick: u64,
    note: u8,
) -> (Seq<AbsTrackEvent>, bool, bool)
    decreases infos.len(),
{
    if infos.len() == 0 {
        (events, dirty, false)
    } else {
        let info = infos.first();
        if covers(info, tick, note) {
            let c = clean_result(events, dirty);
            match note_pair_indices(c, info.start_tick, info.note, info.velocity) {
                Some(pair) => (
                    clean_result(c.remove(pair.0).remove(pair.1 - 1), true),
                    false,
                    true,
                ),
                None => delete_scan(c, false, infos.drop_first(), tick, note),
            }
        } else {
            delete_scan(events, dirty, infos.drop_first(), tick, note)
        }
    }
}

/// Deletes the note whose drawn span covers `(tick, note)`: scans the
/// track's note spans, and for the covering one removes its note-on and
/// note-off pair from the track, cleaning the track around the edit.
/// Returns whether a note was found and deleted.
pub fn delete_note_tick_note(track: &mut AbsTrack, tick: u64, note: u8) -> (r: bool)
    requires
        eot_count(old(track).events@) <= 1,
    ensures
        ({
            let scanned = delete_scan(
                old(track).events@,
                old(track).dirty,
                drawing_graph_of(old(track).events@),
                tick,
                note,
            );
            final(track).events@ == scanned.0 && final(track).dirty == scanned.1 && r == scanned.2
        }),
{
    let (note_info, _) = build_drawing_graph(track.events());
    let ghost infos = note_info@;
    proof {
        assert(infos.skip(0) =~= infos);
    }
    let n = note_info.len();
    let mut j: usize = 0;
    while j < n
        invariant
            j <= n,
            n == infos.len(),
            note_info@ == infos,
            infos == drawing_graph_of(old(track).events@),
            eot_count(track.events@) <= 1,
            delete_scan(
                old(track).events@,
                old(track).dirty,
                infos,
                tick,
                note,
            ) == delete_scan(track.events@, track.dirty, infos.skip(j as int), tick, note),
        decreases n - j,
    {
        let info = note_info[j];
        proof {
            assert(infos.skip(j as int).first() == infos[j as int]);
            assert(infos.skip(j as int).drop_first() =~= infos.skip(j + 1));
        }
        if info.note == note && info.start_tick <= tick && tick <= info.end_tick {
            let ghost pre_events = track.events@;
            let ghost pre_dirty = track.dirty;
            proof {
                if pre_dirty {
                    lemma_sort_and_fix_eot_count(pre_events);
                }
            }
            let deleted = track.delete_note((info.start_tick, info.note, info.velocity));
            proof {
                let c = clean_result(pre_events, pre_dirty);
                if pre_dirty {
                    lemma_sort_and_fix_eot_count(pre_events);
                }
                assert(eot_count(c) <= 1);
                lemma_note_pair_indices_props(c, info.start_tick, info.note, info.velocity);
                match note_pair_indices(c, info.start_tick, info.note, info.velocity) {
                    Some(pair) => {
                        lemma_count_matching_remove(c, is_eot_pred(), pair.0);
                        lemma_count_matching_remove(c.remove(pair.0), is_eot_pred(), pair.1 - 1);
                    },
                    None => {},
                }
            }
            if deleted {
                track.clean();
                return true;
            }
        }
        j += 1;
    }
    proof {
        assert(infos.skip(n as int) =~= Seq::<IndependentNoteDrawingInfo>::empty());
    }
    false
}

/// A tick snapped to the quantization grid: moved down to the nearest
/// multiple of the unit, or up when the remainder exceeds half the unit.
pub open spec fn quantized_tick(abs_tick: u64, quantize_unit: u64) -> int {
    let d = abs_tick % quantize_unit;
    if d > quantize_unit / 2 {
        abs_tick + quantize_unit - d
    } else {
        abs_tick - d
    }
}

/// The span a click-and-drag adds as a note: both ends snapped to the
/// quantization grid, and nothing when the snapped span is empty or
/// backwards.
pub fn quantized_note_span(start_tick: u64, end_tick: u64, quantize_unit: u64) -> (r: Option<
    (u64, u64),
>)
    requires
        quantize_unit > 0,
        start_tick + quantize_unit <= u64::MAX,
        end_tick + quantize_unit <= u64::MAX,
    ensures
        ({
            let s = quantized_tick(start_tick, quantize_unit);
            let e = quantized_tick(end_tick, quantize_unit);
            r == if s >= e {
                None::<(u64, u64)>
            } else {
                Some((s as u64, e as u64))
            }
        }),
{
    let s = quantize_time(start_tick, quantize_unit);
    let e = quantize_time(end_tick, quantize_unit);
    if s >= e {
        None
    } else {
        Some((s, e))
    }
}

/// Snaps a tick to the nearest multiple of the quantization unit, rounding
/// up when the remainder exceeds half the unit.
pub fn quantize_time(abs_tick: u64, quantize_unit: u64) -> (r: u64)
    requires
        quantize_unit > 0,
        abs_tick + quantize_unit <= u64::MAX,
    ensures
        r == quantized_tick(abs_tick, quantize_unit),
{
    let diff = abs_tick % quantize_unit;
    proof {
        assert(abs_tick % quantize_unit <= abs_tick) by (nonlinear_arith)
            requires
                quantize_unit > 0,
        ;
    }
    if diff > quantize_unit / 2 {
        abs_tick + quantize_unit - diff
    } else {
        abs_tick - diff
    }
}

} // verus!

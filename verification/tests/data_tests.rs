use midie::data::{Event, GeneralEvent, NoteEvent, Song, Track};
use midie::play::MidiMessage;

fn note_at(abs_tick: u64, scale: i32) -> GeneralEvent {
    GeneralEvent::new(
        abs_tick,
        Event::Note(NoteEvent { scale, duration: 240, velocity: 100 }),
    )
}

#[test]
fn sort_all_orders_events_by_tick() {
    let mut track = Track::new();
    track.add_event_not_sort(note_at(300, 60));
    track.add_event_not_sort(note_at(100, 62));
    track.add_event_not_sort(note_at(200, 64));
    assert!(!track.sorted);
    track.sort_all();
    assert!(track.sorted);
    let ticks: Vec<u64> = track.events.iter().map(|e| e.abs_tick()).collect();
    assert_eq!(ticks, vec![100, 200, 300]);
}

#[test]
fn sort_all_keeps_equal_ticks_stable() {
    let mut track = Track::new();
    track.add_event_not_sort(note_at(100, 1));
    track.add_event_not_sort(note_at(100, 2));
    track.add_event_not_sort(note_at(50, 3));
    track.sort_all();
    let scales: Vec<i32> = track
        .events
        .iter()
        .map(|e| match &e.event {
            Event::Note(n) => n.scale,
        })
        .collect();
    assert_eq!(scales, vec![3, 1, 2]);
}

#[test]
fn last_tick_is_the_largest() {
    let mut track = Track::new();
    assert_eq!(track.last_tick(), 0);
    track.add_event_not_sort(note_at(500, 60));
    track.add_event_not_sort(note_at(900, 60));
    track.add_event_not_sort(note_at(700, 60));
    assert_eq!(track.last_tick(), 900);
}

#[test]
fn add_event_pushes_after_sorting() {
    let mut track = Track::new();
    track.add_event_not_sort(note_at(400, 60));
    track.add_event_not_sort(note_at(100, 61));
    track.add_event(note_at(250, 62));
    assert!(track.sorted);
    let ticks: Vec<u64> = track.events.iter().map(|e| e.abs_tick()).collect();
    // the sorted prefix, then the new event pushed at the back
    assert_eq!(ticks, vec![100, 400, 250]);
}

#[test]
fn song_tracks_are_indexed() {
    let mut song = Song::new();
    assert!(song.track(0).is_none());
    song.add_track(Track::new());
    let mut second = Track::new();
    second.add_event_not_sort(note_at(30, 60));
    second.add_event_not_sort(note_at(10, 61));
    song.add_track(second);
    assert!(song.track(1).is_some());
    assert!(song.track(2).is_none());
    song.sort_all();
    let ticks: Vec<u64> = song.track(1).unwrap().events.iter().map(|e| e.abs_tick()).collect();
    assert_eq!(ticks, vec![10, 30]);
}

#[test]
fn playback_requests_compare_by_value() {
    let a = MidiMessage::Midi(vec![0x90, 60, 100]);
    let b = MidiMessage::Midi(vec![0x90, 60, 100]);
    assert_eq!(a, b);
    assert_ne!(a, MidiMessage::Close);
    assert_ne!(MidiMessage::ChangePort(1), MidiMessage::ChangePort(2));
}

#[test]
fn replace_track_swaps_only_existing_indexes() {
    let mut song = Song::new();
    song.add_track(Track::new());
    let mut replacement = Track::new();
    replacement.add_event_not_sort(note_at(42, 60));
    song.replace_track(0, replacement);
    assert_eq!(song.track(0).unwrap().events.len(), 1);
    // a missing index changes nothing
    let mut another = Track::new();
    another.add_event_not_sort(note_at(1, 1));
    song.replace_track(9, another);
    assert_eq!(song.tracks.len(), 1);
}

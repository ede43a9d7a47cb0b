use midie::event::{MetaEvent, MidiMessage, SmfEvent, TrackEvent, META_END_OF_TRACK};
use midie::track::{AbsTrack, AbsTrackEvent};

fn midi_event(abs_time: u64, vtime: u64, data: Vec<u8>) -> AbsTrackEvent {
    AbsTrackEvent {
        abs_time,
        track_event: TrackEvent { vtime, event: SmfEvent::Midi(MidiMessage { data }) },
    }
}

fn eot_event(abs_time: u64, vtime: u64) -> AbsTrackEvent {
    AbsTrackEvent {
        abs_time,
        track_event: TrackEvent {
            vtime,
            event: SmfEvent::Meta(MetaEvent { command: META_END_OF_TRACK, data: vec![] }),
        },
    }
}

fn is_eot(e: &AbsTrackEvent) -> bool {
    match &e.track_event.event {
        SmfEvent::Meta(m) => m.command == META_END_OF_TRACK,
        _ => false,
    }
}

fn message_data(e: &AbsTrackEvent) -> &[u8] {
    match &e.track_event.event {
        SmfEvent::Midi(m) => &m.data,
        SmfEvent::Meta(m) => &m.data,
    }
}

#[test]
fn clean_sorts_by_tick() {
    let mut track = AbsTrack::new(vec![
        midi_event(300, 0, vec![0x90, 62, 90]),
        eot_event(0, 0),
        midi_event(100, 0, vec![0x90, 60, 90]),
        midi_event(200, 0, vec![0x80, 60, 0]),
    ]);
    track.clean();
    assert!(!track.dirty);
    let ticks: Vec<u64> = track.events().iter().map(|e| e.abs_time).collect();
    assert_eq!(ticks, vec![100, 200, 300, 300]);
    assert!(is_eot(&track.events()[3]));
}

#[test]
fn tie_break_note_off_before_note_on() {
    // a note-on and a note-off at the same tick: after clean the note-off
    // must stand strictly earlier
    let mut track = AbsTrack::new(vec![eot_event(0, 0)]);
    track.append_notes(vec![(100, 60, 100, 0), (100, 60, 0, 0)]);
    track.clean();
    let events = track.events();
    assert_eq!(events.len(), 3);
    assert_eq!(message_data(&events[0])[0], 0x80);
    assert_eq!(message_data(&events[1])[0], 0x90);
}

#[test]
fn end_of_track_forced_last_with_max_tick() {
    let mut track = AbsTrack::new(vec![
        eot_event(50, 0),
        midi_event(400, 0, vec![0x90, 65, 80]),
        midi_event(700, 0, vec![0x80, 65, 0]),
    ]);
    track.clean();
    let events = track.events();
    assert_eq!(events.len(), 3);
    assert!(is_eot(&events[2]));
    assert!(!is_eot(&events[0]) && !is_eot(&events[1]));
    assert_eq!(events[2].abs_time, 700);
}

#[test]
fn clean_twice_equals_clean_once() {
    let mut track = AbsTrack::new(vec![
        midi_event(500, 0, vec![0x90, 70, 99]),
        midi_event(20, 0, vec![0x80, 70, 0]),
        eot_event(0, 0),
    ]);
    track.clean();
    let once: Vec<(u64, u64, Vec<u8>)> = track
        .events()
        .iter()
        .map(|e| (e.abs_time, e.track_event.vtime, message_data(e).to_vec()))
        .collect();
    track.clean();
    let twice: Vec<(u64, u64, Vec<u8>)> = track
        .events()
        .iter()
        .map(|e| (e.abs_time, e.track_event.vtime, message_data(e).to_vec()))
        .collect();
    assert_eq!(once, twice);
}

#[test]
fn rebuilt_deltas_encode_the_ticks() {
    // the delta-time round trip: after clean, the running sums of the
    // delta-times reproduce the absolute ticks exactly
    let mut track = AbsTrack::new(vec![
        midi_event(480, 7, vec![0x90, 64, 90]),
        midi_event(120, 9, vec![0x90, 60, 90]),
        midi_event(600, 11, vec![0x80, 64, 0]),
        midi_event(240, 13, vec![0x80, 60, 0]),
        eot_event(0, 15),
    ]);
    track.clean();
    let mut running: u64 = 0;
    for e in track.events() {
        running += e.track_event.vtime;
        assert_eq!(running, e.abs_time);
    }
}

#[test]
fn delete_note_removes_the_pair() {
    let mut track = AbsTrack::new(vec![eot_event(0, 0)]);
    track.append_notes(vec![(100, 60, 100, 0), (200, 60, 0, 0)]);
    track.clean();
    assert!(track.delete_note((100, 60, 100)));
    for e in track.events() {
        let d = message_data(e);
        assert!(!(d.len() == 3 && d[1] == 60 && (e.abs_time == 100 || e.abs_time == 200)));
    }
    // only the end-of-track event is left
    assert_eq!(track.events().len(), 1);
    assert!(is_eot(&track.events()[0]));
}

#[test]
fn delete_note_without_off_returns_false() {
    let mut track = AbsTrack::new(vec![eot_event(0, 0)]);
    track.append_notes(vec![(100, 60, 100, 0)]);
    track.clean();
    assert!(!track.delete_note((100, 60, 100)));
    // the dangling note-on is left in place
    assert_eq!(track.events().len(), 2);
    assert_eq!(message_data(&track.events()[0])[0], 0x90);
}

#[test]
fn velocity_zero_appends_a_note_off() {
    let mut track = AbsTrack::new(Vec::new());
    track.append_note((300, 64, 0), 0);
    let events = track.events();
    assert_eq!(events.len(), 1);
    assert_eq!(events[0].abs_time, 300);
    assert_eq!(message_data(&events[0]), &[0x80, 64, 0]);
    assert!(track.dirty);
}

#[test]
fn velocity_zero_pairs_like_a_note_off() {
    let mut with_zero_velocity = AbsTrack::new(vec![eot_event(0, 0)]);
    with_zero_velocity.append_notes(vec![(250, 64, 100, 0)]);
    with_zero_velocity.append_note((300, 64, 0), 0);
    with_zero_velocity.clean();
    assert!(with_zero_velocity.delete_note((250, 64, 100)));
    assert_eq!(with_zero_velocity.events().len(), 1);
}

#[test]
fn append_note_on_carries_channel_and_velocity() {
    let mut track = AbsTrack::new(Vec::new());
    track.append_note((500, 73, 100), 1);
    let events = track.events();
    assert_eq!(message_data(&events[0]), &[0x91, 73, 100]);
    assert_eq!(events[0].track_event.vtime, 0);
}

#[test]
fn single_event_delta_is_its_own_tick() {
    let mut track = AbsTrack::new(vec![midi_event(77, 3, vec![0x90, 50, 10])]);
    track.clean();
    let events = track.events();
    assert_eq!(events.len(), 1);
    assert_eq!(events[0].abs_time, 77);
    assert_eq!(events[0].track_event.vtime, 77);
}

#[test]
fn clean_of_empty_track_is_a_no_op() {
    let mut track = AbsTrack::new(Vec::new());
    track.clean();
    assert!(!track.dirty);
    assert_eq!(track.events().len(), 0);
}

#[test]
fn stable_for_unrelated_events_at_equal_ticks() {
    // two events the comparator does not separate keep their order
    let mut track = AbsTrack::new(vec![
        midi_event(100, 0, vec![0xC0, 5]),
        midi_event(100, 0, vec![0xC0, 9]),
    ]);
    track.clean();
    let events = track.events();
    assert_eq!(message_data(&events[0]), &[0xC0, 5]);
    assert_eq!(message_data(&events[1]), &[0xC0, 9]);
}

#[test]
fn events_mut_edits_are_visible() {
    let mut track = AbsTrack::new(vec![eot_event(0, 0)]);
    track.append_notes(vec![(100, 60, 100, 0), (200, 60, 0, 0)]);
    track.clean();
    track.events_mut()[0].abs_time = 150;
    assert_eq!(track.events()[0].abs_time, 150);
}

#[test]
fn track_from_events_is_dirty() {
    let track: AbsTrack = vec![eot_event(0, 0), midi_event(9, 0, vec![0x90, 60, 50])].into();
    assert!(track.dirty);
    assert_eq!(track.events().len(), 2);
}

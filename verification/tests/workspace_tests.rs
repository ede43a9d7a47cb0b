use midie::event::{MetaEvent, MidiMessage, SmfEvent, TrackEvent, META_TEMPO_SETTING};
use midie::maps::MetaDecodeError;
use midie::util::{note_off, note_on};
use midie::workspace::{MidiWorkspace, SmfFormat};

fn data_of(e: &TrackEvent) -> &[u8] {
    match &e.event {
        SmfEvent::Midi(m) => &m.data,
        SmfEvent::Meta(m) => &m.data,
    }
}

#[test]
fn test_time_signature_creation() {
    let ws = MidiWorkspace::empty();
    let ts = ws.create_time_signature_info(0).unwrap().unwrap();
    assert_eq!(ts.changes, vec![(0, (4, 4))]);
}

#[test]
fn test_note_append() {
    let ws = MidiWorkspace::empty();
    let mut abs = ws.events_abs_tick(1).unwrap();

    abs.append_note((500, 73, 100), 1);
    abs.append_note((556, 73, 0), 1);
    abs.clean();

    let events = abs.events();
    assert_eq!(events.len(), 3);
    assert_eq!(events[0].abs_time, 500);
    assert_eq!(events[1].abs_time, 556);
    // the end-of-track event moves to the largest tick
    assert_eq!(events[2].abs_time, 556);
    match &events[0].track_event.event {
        SmfEvent::Midi(m) => assert_eq!(m.data, vec![0x91, 73, 100]),
        _ => panic!("expected a note-on"),
    }
    match &events[1].track_event.event {
        SmfEvent::Midi(m) => assert_eq!(m.data, vec![0x81, 73, 0]),
        _ => panic!("expected a note-off"),
    }
}

#[test]
fn out_of_range_checkout_is_none() {
    let ws = MidiWorkspace::empty();
    assert_eq!(ws.track_count(), 2);
    assert!(ws.events_abs_tick(99).is_none());
    assert!(ws.events(99).is_none());
}

#[test]
fn out_of_range_commit_is_an_error() {
    let mut ws = MidiWorkspace::empty();
    assert_eq!(ws.replace_events(99, Vec::new()), Err(()));
    assert_eq!(ws.track_count(), 2);
}

#[test]
fn empty_workspace_layout() {
    let ws = MidiWorkspace::empty();
    assert_eq!(ws.format, SmfFormat::MultiTrack);
    assert_eq!(ws.resolution(), 480);
    assert_eq!(ws.tracks[0].len(), 3);
    assert_eq!(ws.tracks[1].len(), 1);
    assert_eq!(data_of(&ws.tracks[0][0]), &[4, 2, 24, 8]);
    assert_eq!(data_of(&ws.tracks[0][1]), &[0x07, 0xA1, 0x20]);
}

#[test]
fn tempo_info_from_empty_workspace() {
    let ws = MidiWorkspace::empty();
    let tempo = ws.create_tempo_info(0).unwrap().unwrap();
    assert_eq!(tempo.changes, vec![(0, 120)]);
    // a track without tempo events gives an empty map
    let silent = ws.create_tempo_info(1).unwrap().unwrap();
    assert_eq!(silent.changes, Vec::new());
    // a missing track gives no map at all
    assert_eq!(ws.create_tempo_info(7).unwrap(), None);
}

#[test]
fn tempo_info_rejects_bad_payload() {
    let mut ws = MidiWorkspace::empty();
    ws.tracks[1].insert(
        0,
        TrackEvent {
            vtime: 10,
            event: SmfEvent::Meta(MetaEvent { command: META_TEMPO_SETTING, data: vec![1, 2] }),
        },
    );
    assert_eq!(ws.create_tempo_info(1), Err(MetaDecodeError::PayloadLength));
    ws.tracks[1][0] = TrackEvent {
        vtime: 10,
        event: SmfEvent::Meta(MetaEvent { command: META_TEMPO_SETTING, data: vec![0, 0, 0] }),
    };
    assert_eq!(ws.create_tempo_info(1), Err(MetaDecodeError::ZeroTempo));
}

#[test]
fn tempo_ticks_follow_delta_sums() {
    let mut ws = MidiWorkspace::empty();
    ws.tracks[0][1].vtime = 960;
    let tempo = ws.create_tempo_info(0).unwrap().unwrap();
    assert_eq!(tempo.changes, vec![(960, 120)]);
}

#[test]
fn events_returns_a_detached_copy() {
    let ws = MidiWorkspace::empty();
    let copy = ws.events(0).unwrap();
    assert_eq!(copy.len(), 3);
    for (a, b) in copy.iter().zip(ws.tracks[0].iter()) {
        assert_eq!(a.vtime, b.vtime);
        assert_eq!(data_of(a), data_of(b));
    }
}

#[test]
fn commit_track_round_trip() {
    let mut ws = MidiWorkspace::empty();
    let mut abs = ws.events_abs_tick(1).unwrap();
    abs.append_notes(vec![(480, 60, 100, 0), (960, 60, 0, 0)]);
    abs.clean();
    assert_eq!(ws.replace_events(1, abs.into_events()), Ok(()));
    let stored = &ws.tracks[1];
    assert_eq!(stored.len(), 3);
    // deltas: 480 to the note-on, 480 to the note-off, 0 to the end-of-track
    assert_eq!(stored[0].vtime, 480);
    assert_eq!(stored[1].vtime, 480);
    assert_eq!(stored[2].vtime, 0);
    // and the re-checked-out track sees the same ticks
    let again = ws.events_abs_tick(1).unwrap();
    let ticks: Vec<u64> = again.events().iter().map(|e| e.abs_time).collect();
    assert_eq!(ticks, vec![480, 960, 960]);
}

#[test]
fn finalize_repairs_every_track() {
    let mut ws = MidiWorkspace::empty();
    // a stored stream with a note-on before a note-off at the same tick,
    // and an end-of-track event that drifted past the last note
    ws.tracks[1] = vec![
        TrackEvent { vtime: 100, event: SmfEvent::Midi(MidiMessage { data: vec![0x90, 62, 90] }) },
        TrackEvent { vtime: 0, event: SmfEvent::Midi(MidiMessage { data: vec![0x80, 62, 0] }) },
        TrackEvent {
            vtime: 7,
            event: SmfEvent::Meta(MetaEvent {
                command: midie::event::META_END_OF_TRACK,
                data: vec![],
            }),
        },
    ];
    ws.finalize();
    let stored = &ws.tracks[1];
    assert_eq!(stored.len(), 3);
    // the note-off now comes first, and the end-of-track tick is pulled
    // back to the largest note tick
    match &stored[0].event {
        SmfEvent::Midi(m) => assert_eq!(m.data, vec![0x80, 62, 0]),
        _ => panic!("expected the note-off first"),
    }
    assert_eq!(stored[0].vtime, 100);
    assert_eq!(stored[1].vtime, 0);
    assert_eq!(stored[2].vtime, 0);
}

#[test]
fn default_workspace_is_bare() {
    let ws = MidiWorkspace::default();
    assert_eq!(ws.format, SmfFormat::MultiTrack);
    assert_eq!(ws.division, 480);
    assert_eq!(ws.track_count(), 0);
}

#[test]
fn channel_message_notes() {
    let on = MidiMessage { data: vec![0x93, 60, 100] };
    assert_eq!(note_on(&on), Some((3, 60, 100)));
    assert_eq!(note_off(&on), None);
    let off = MidiMessage { data: vec![0x82, 61, 0] };
    assert_eq!(note_off(&off), Some((2, 61, 0)));
    assert_eq!(note_on(&off), None);
    let short = MidiMessage { data: vec![0x90] };
    assert_eq!(note_on(&short), None);
}

#[test]
fn stored_track_is_reachable_by_index() {
    let ws = MidiWorkspace::empty();
    assert_eq!(ws.track(0).unwrap().len(), 3);
    assert_eq!(ws.track(1).unwrap().len(), 1);
    assert!(ws.track(2).is_none());
}

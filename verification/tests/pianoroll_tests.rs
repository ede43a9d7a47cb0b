use midie::pianoroll::{build_drawing_graph, delete_note_tick_note, quantize_time, quantized_note_span};
use midie::track::AbsTrack;
use midie::workspace::MidiWorkspace;

#[test]
fn build_drawing_graph_test0() {
    let ws = MidiWorkspace::empty();
    let mut track = ws.events_abs_tick(1).unwrap();
    track.append_notes(vec![(100, 60, 100, 0), (200, 60, 0, 0), (150, 64, 80, 0), (400, 64, 0, 0)]);
    track.clean();
    let (g, subs) = build_drawing_graph(track.events());
    assert_eq!(subs.len(), 0);
    assert_eq!(g.len(), 2);
    assert_eq!((g[0].note, g[0].start_tick, g[0].end_tick, g[0].velocity), (60, 100, 200, 100));
    assert_eq!((g[1].note, g[1].start_tick, g[1].end_tick, g[1].velocity), (64, 150, 400, 80));
}

#[test]
fn graph_pairs_zero_velocity_as_off() {
    let ws = MidiWorkspace::empty();
    let mut track = ws.events_abs_tick(1).unwrap();
    track.append_notes(vec![(300, 64, 90, 1), (420, 64, 0, 1)]);
    track.clean();
    let (g, _) = build_drawing_graph(track.events());
    assert_eq!(g.len(), 1);
    assert_eq!((g[0].note, g[0].start_tick, g[0].end_tick, g[0].velocity), (64, 300, 420, 90));
}

#[test]
fn graph_ignores_unpaired_offs() {
    let ws = MidiWorkspace::empty();
    let mut track = ws.events_abs_tick(1).unwrap();
    track.append_notes(vec![(100, 70, 0, 0)]);
    track.clean();
    let (g, _) = build_drawing_graph(track.events());
    assert_eq!(g.len(), 0);
}

#[test]
fn delete_by_position_hits_the_covering_note() {
    let ws = MidiWorkspace::empty();
    let mut track = ws.events_abs_tick(1).unwrap();
    track.append_notes(vec![(100, 60, 100, 0), (200, 60, 0, 0)]);
    track.clean();
    assert!(delete_note_tick_note(&mut track, 150, 60));
    let (g, _) = build_drawing_graph(track.events());
    assert_eq!(g.len(), 0);
}

#[test]
fn delete_by_position_misses_other_notes() {
    let ws = MidiWorkspace::empty();
    let mut track = ws.events_abs_tick(1).unwrap();
    track.append_notes(vec![(100, 60, 100, 0), (200, 60, 0, 0)]);
    track.clean();
    // wrong note number, and a tick outside the span
    assert!(!delete_note_tick_note(&mut track, 150, 61));
    assert!(!delete_note_tick_note(&mut track, 250, 60));
    let (g, _) = build_drawing_graph(track.events());
    assert_eq!(g.len(), 1);
}

#[test]
fn quantize_rounds_to_the_nearer_grid_line() {
    assert_eq!(quantize_time(130, 120), 120);
    assert_eq!(quantize_time(200, 120), 240);
    assert_eq!(quantize_time(180, 120), 120);
    assert_eq!(quantize_time(181, 120), 240);
    assert_eq!(quantize_time(240, 120), 240);
    assert_eq!(quantize_time(0, 120), 0);
}

#[test]
fn quantized_span_rejects_empty_drags() {
    // both ends snap to the same grid line: no note is added
    assert_eq!(quantized_note_span(130, 140, 120), None);
    // a drag backwards adds nothing either
    assert_eq!(quantized_note_span(250, 130, 120), None);
    assert_eq!(quantized_note_span(130, 200, 120), Some((120, 240)));
}

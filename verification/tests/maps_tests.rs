use midie::maps::{
    decode_tempo, decode_time_signature, MetaDecodeError, TempoInfo, TimeSignatureInfo,
};

#[test]
fn test_tempo_lookup() {
    let map = TempoInfo::new(vec![(0, 120), (960, 140)], false);
    assert_eq!(map.tempo(500), Some(120));
    assert_eq!(map.tempo(960), Some(140));
    assert_eq!(map.tempo(0), Some(120));
}

#[test]
fn tempo_lookup_before_first_change_is_none() {
    let map = TempoInfo::new(vec![(100, 90)], false);
    assert_eq!(map.tempo(99), None);
    let empty = TempoInfo::new(Vec::new(), false);
    assert_eq!(empty.tempo(0), None);
}

#[test]
fn tempo_new_sorts_when_asked() {
    let map = TempoInfo::new(vec![(960, 140), (0, 120), (480, 130)], true);
    assert_eq!(map.changes, vec![(0, 120), (480, 130), (960, 140)]);
}

#[test]
fn tempo_append_keeps_ticks_sorted() {
    let mut map = TempoInfo::new(vec![(0, 120), (960, 140)], false);
    map.append((480, 100));
    assert_eq!(map.changes, vec![(0, 120), (480, 100), (960, 140)]);
}

#[test]
fn tempo_delete_removes_every_equal_entry() {
    let mut map = TempoInfo::new(vec![(0, 120), (0, 120), (5, 100), (0, 121)], false);
    map.delete((0, 120));
    assert_eq!(map.changes, vec![(5, 100), (0, 121)]);
}

#[test]
fn duplicate_ticks_latest_entry_wins() {
    let map = TempoInfo::new(vec![(0, 120), (0, 99)], false);
    assert_eq!(map.tempo(10), Some(99));
}

#[test]
fn test_time_signature_decode() {
    assert_eq!(decode_time_signature(&vec![4, 2, 24, 8]), Ok((4, 4)));
    assert_eq!(decode_time_signature(&vec![6, 3, 24, 8]), Ok((6, 8)));
    assert_eq!(
        decode_time_signature(&vec![4, 2, 24]),
        Err(MetaDecodeError::PayloadLength)
    );
}

#[test]
fn test_tempo_decode() {
    // 500000 microseconds per quarter note is 120 beats per minute
    assert_eq!(decode_tempo(&vec![0x07, 0xA1, 0x20]), Ok(120));
    // 1000000 microseconds per quarter note is 60 beats per minute
    assert_eq!(decode_tempo(&vec![0x0F, 0x42, 0x40]), Ok(60));
    assert_eq!(decode_tempo(&vec![0x07, 0xA1]), Err(MetaDecodeError::PayloadLength));
    assert_eq!(decode_tempo(&vec![0, 0, 0]), Err(MetaDecodeError::ZeroTempo));
}

#[test]
fn time_signature_lookup() {
    let map = TimeSignatureInfo::new(vec![(0, (4, 4)), (1920, (3, 4))], false);
    assert_eq!(map.time_signature(0), Some((4, 4)));
    assert_eq!(map.time_signature(1919), Some((4, 4)));
    assert_eq!(map.time_signature(1920), Some((3, 4)));
}

#[test]
fn time_signature_delete_removes_every_equal_entry() {
    let mut map = TimeSignatureInfo::new(vec![(0, (4, 4)), (0, (4, 4)), (10, (3, 4))], false);
    map.delete((0, (4, 4)));
    assert_eq!(map.changes, vec![(10, (3, 4))]);
}

#[test]
fn measure_of_abs_ticks_reports_each_signature() {
    let map = TimeSignatureInfo::new(vec![(0, (4, 4)), (1920, (3, 4))], false);
    let ticks = vec![0, 500, 1920, 4000];
    assert_eq!(
        map.measure_of_abs_ticks(&ticks),
        Ok(vec![(4, 4), (4, 4), (3, 4), (3, 4)])
    );
}

#[test]
fn measure_of_abs_ticks_fails_before_first_change() {
    let map = TimeSignatureInfo::new(vec![(100, (4, 4))], false);
    let ticks = vec![200, 50];
    assert_eq!(map.measure_of_abs_ticks(&ticks), Err(()));
}

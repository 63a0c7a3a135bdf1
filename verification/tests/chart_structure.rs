use std::path::PathBuf;
use tapline::catalog::{choice_after_scan, direct_choice, is_chart_extension, ChartChoice};
use tapline::longnotes::{pair_lnobj, pair_long_events};
use tapline::pattern::{practice_notes, BeatNote};

#[test]
fn long_events_pair_first_with_second_per_lane() {
    // events 0..5: lanes 0, 1, 0, 1, 0 visited in index order
    let lanes = [0usize, 1, 0, 1, 0];
    let order = [0usize, 1, 2, 3, 4];
    assert_eq!(pair_long_events(&order, &lanes), vec![(0, 2), (1, 3)]);
}

#[test]
fn long_events_follow_the_given_time_order() {
    let lanes = [2usize, 2, 2, 2];
    let order = [3usize, 1, 0, 2];
    assert_eq!(pair_long_events(&order, &lanes), vec![(3, 1), (0, 2)]);
}

#[test]
fn lnobj_marker_closes_the_latest_open_note_of_its_lane() {
    // notes: 0 lane0, 1 lane1, 2 lane0 marker, 3 lane1 marker, 4 lane0 marker
    let lanes = [0usize, 1, 0, 1, 0];
    let is_end = [false, false, true, true, true];
    let order = [0usize, 1, 2, 3, 4];
    let (ends, dropped) = pair_lnobj(&order, &lanes, &is_end);
    assert_eq!(ends, vec![Some(2), Some(3), None, None, None]);
    assert_eq!(dropped, vec![false, false, true, true, false]);
}

#[test]
fn lnobj_keeps_a_marker_with_nothing_open() {
    let lanes = [0usize];
    let is_end = [true];
    let (ends, dropped) = pair_lnobj(&[0], &lanes, &is_end);
    assert_eq!(ends, vec![None]);
    assert_eq!(dropped, vec![false]);
}

#[test]
fn practice_chart_has_164_notes_in_four_lanes() {
    let notes = practice_notes();
    assert_eq!(notes.len(), 164);
    assert!(notes.iter().all(|n| n.lane < 4));
    assert_eq!(notes[0], BeatNote { section: 0, quarter: 0, lane: 0 });
    assert_eq!(notes[1], BeatNote { section: 0, quarter: 4, lane: 2 });
    assert_eq!(notes[16], BeatNote { section: 1, quarter: 0, lane: 0 });
    assert_eq!(notes[49], BeatNote { section: 2, quarter: 2, lane: 2 });
    assert_eq!(notes[50], BeatNote { section: 2, quarter: 3, lane: 1 });
    assert_eq!(notes[97], BeatNote { section: 3, quarter: 1, lane: 2 });
    assert_eq!(notes[163], BeatNote { section: 4, quarter: 0, lane: 3 });
}

#[test]
fn chart_extensions_are_the_four_supported_ones_in_any_case() {
    for e in ["bms", "bml", "bme", "pms", "BMS", "Pms"] {
        assert!(is_chart_extension(e), "{e}");
    }
    for e in ["wav", "mp3", "txt", "", "bmsx"] {
        assert!(!is_chart_extension(e), "{e}");
    }
}

#[test]
fn command_line_choice_prefers_built_in_then_file() {
    let p = PathBuf::from("song.bms");
    assert!(matches!(direct_choice(true, Some(p.clone())), Some(ChartChoice::BuiltIn)));
    match direct_choice(false, Some(p.clone())) {
        Some(ChartChoice::File(q)) => assert_eq!(q, p),
        _ => panic!("expected the file"),
    }
    assert!(direct_choice(false, None).is_none());
}

#[test]
fn scanned_choice_falls_back_to_built_in_or_cancels() {
    assert!(matches!(choice_after_scan(0, None), ChartChoice::BuiltIn));
    assert!(matches!(choice_after_scan(3, None), ChartChoice::Cancelled));
    match choice_after_scan(3, Some(PathBuf::from("a.bms"))) {
        ChartChoice::File(q) => assert_eq!(q, PathBuf::from("a.bms")),
        _ => panic!("expected the selected file"),
    }
}

#[test]
fn each_lane_pairs_its_own_events_in_twos() {
    // lane 0: events 0, 2, 4 -> (0, 2), 4 left over; lane 1: events 1, 3 -> (1, 3)
    let lanes = [0usize, 1, 0, 1, 0];
    let order = [0usize, 1, 2, 3, 4];
    let pairs = pair_long_events(&order, &lanes);
    let lane0: Vec<(usize, usize)> = pairs.iter().copied().filter(|p| lanes[p.0] == 0).collect();
    let lane1: Vec<(usize, usize)> = pairs.iter().copied().filter(|p| lanes[p.0] == 1).collect();
    assert_eq!(lane0, vec![(0, 2)]);
    assert_eq!(lane1, vec![(1, 3)]);
}

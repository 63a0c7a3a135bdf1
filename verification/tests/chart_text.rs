use tapline::catalog::{pick_songs_dir, returns_to_selector, SongsDir};
use tapline::chartfile::{channel_lane_set, read_chart_text};
use tapline::placement::{plan_lanes, side_events, Player};

#[test]
fn reading_a_chart_splits_headers_from_channel_lines() {
    let text = "\
#TITLE Testing
#ARTIST unhappychoice
#BPM 148
#PLAYLEVEL 7
#DIFFICULTY 3
#WAV01 kick.wav
#00111:0100
#00119:0001
";
    let c = read_chart_text(text, 0);
    assert_eq!(c.header.title, "Testing");
    assert_eq!(c.header.artist, "unhappychoice");
    assert_eq!(c.header.bpm_texts, vec!["148".to_string()]);
    assert_eq!(c.header.playlevel, Some(7));
    assert_eq!(c.header.difficulty, Some(3));
    assert_eq!(c.header.wav_defs.get(&1).map(String::as_str), Some("kick.wav"));
    assert_eq!(
        c.channels,
        vec![
            (1, "11".to_string(), "0100".to_string()),
            (1, "19".to_string(), "0001".to_string())
        ]
    );
    assert_eq!(channel_lane_set(&c.channels).count(), 7);
}

#[test]
fn reading_a_chart_surfaces_genre_subtitle_and_subartist() {
    let text = "\
#TITLE Testing
#SUBTITLE ~beta~
#ARTIST alice
#SUBARTIST bob
#GENRE electronic
#BPM 130
#00111:0100
";
    let c = read_chart_text(text, 0);
    assert_eq!(c.header.subtitle, "~beta~");
    assert_eq!(c.header.subartist, "bob");
    assert_eq!(c.header.genre, "electronic");
    assert_eq!(channel_lane_set(&c.channels).count(), 4);
}

#[test]
fn reading_a_chart_resolves_random_blocks_first() {
    let text = "\
#SETRANDOM 2
#IF 1
#00111:0100
#ENDIF
#IF 2
#00112:0100
#ENDIF
";
    let c = read_chart_text(text, 7);
    assert_eq!(c.channels, vec![(1, "12".to_string(), "0100".to_string())]);
}

#[test]
fn a_chart_without_channels_reports_the_default_lane_count() {
    let c = read_chart_text("#TITLE Only headers\n", 0);
    assert!(c.channels.is_empty());
    assert_eq!(channel_lane_set(&c.channels).count(), 5);
}

#[test]
fn lane_count_follows_the_highest_visible_lane() {
    let c = read_chart_text("#00111:0100\n#00115:0100\n", 0);
    let ev = side_events(&c.channels, Player::One);
    let lanes: Vec<usize> = ev.notes.iter().map(|(l, _)| *l).collect();
    let count = channel_lane_set(&c.channels).count();
    assert_eq!(count, 5);
    let plan = plan_lanes(count, 5, &lanes, &[], &[], &[]);
    assert_eq!(plan.lane_count, 5);
    assert!(plan.notes.iter().all(|l| matches!(l, Some(x) if *x < 5)));
}

#[test]
fn double_play_chart_folds_when_both_sides_use_seven_lanes() {
    let text = "\
#00111:0100
#00115:0100
#00118:0100
#00119:0100
#00121:0100
#00125:0100
#00128:0100
#00129:0100
";
    let c = read_chart_text(text, 0);
    let p1 = side_events(&c.channels, Player::One);
    let p2 = side_events(&c.channels, Player::Two);
    let p1_lanes: Vec<usize> = p1.notes.iter().map(|(l, _)| *l).collect();
    let p2_lanes: Vec<usize> = p2.notes.iter().map(|(l, _)| *l).collect();
    assert_eq!(p1_lanes, vec![0, 4, 5, 6]);
    assert_eq!(p2_lanes, vec![0, 4, 5, 6]);
    let plan = plan_lanes(7, 7, &p1_lanes, &[], &p2_lanes, &[]);
    assert_eq!(plan.lane_count, 14);
    assert_eq!(plan.p2_notes, vec![Some(7), Some(11), Some(12), Some(13)]);
}

#[test]
fn songs_dir_is_the_first_place_that_exists() {
    assert_eq!(pick_songs_dir(true, true, true, true), Some(SongsDir::FromEnv));
    assert_eq!(pick_songs_dir(false, true, true, true), Some(SongsDir::Songs));
    assert_eq!(pick_songs_dir(false, false, true, true), Some(SongsDir::Fixtures));
    assert_eq!(pick_songs_dir(false, false, false, true), Some(SongsDir::Home));
    assert_eq!(pick_songs_dir(false, false, false, false), None);
}

#[test]
fn the_selector_comes_back_only_for_scanned_charts() {
    assert!(returns_to_selector(false, false));
    assert!(!returns_to_selector(true, false));
    assert!(!returns_to_selector(false, true));
}

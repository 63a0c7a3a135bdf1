use tapline::assets::{candidates_from_stem, image_file_candidates, sound_file_candidates};
use tapline::badges::{chart_badge, counter_cells, intro_badge, right_aligned, tally_summary};
use tapline::catalog::is_bms;
use tapline::layout::{centered_x, field_layout, lane_x, Field};
use tapline::play::{KeyInput, KeyPhase};
use tapline::score::{Judgment, Tally};
use tapline::selector::{scroll_into_view, select_step, SelectOutcome};

fn bpm_text(bpm: f64) -> String {
    format!("{:.0}", bpm)
}

#[test]
fn is_bms_recognises_the_four_supported_extensions() {
    assert!(is_bms("song.bms"));
    assert!(is_bms("song.bml"));
    assert!(is_bms("song.bme"));
    assert!(is_bms("song.pms"));
}

#[test]
fn is_bms_is_case_insensitive() {
    assert!(is_bms("song.BMS"));
    assert!(is_bms("song.Pms"));
}

#[test]
fn is_bms_rejects_unrelated_files() {
    assert!(!is_bms("song.wav"));
    assert!(!is_bms("song.mp3"));
    assert!(!is_bms("song.txt"));
    assert!(!is_bms("README"));
    assert!(!is_bms(".hidden"));
}

#[test]
fn is_bms_reads_only_the_last_extension() {
    assert!(is_bms("my.song.bms"));
    assert!(!is_bms("song.bms.bak"));
    assert!(is_bms(".x.bms"));
    assert!(!is_bms(".bms"));
    assert!(!is_bms("song."));
}

#[test]
fn sound_candidates_try_the_name_then_each_sound_extension() {
    assert_eq!(
        sound_file_candidates("kick.wav"),
        vec!["kick.wav", "kick.wav", "kick.ogg", "kick.mp3", "kick.flac"]
    );
    assert_eq!(
        sound_file_candidates("snare"),
        vec!["snare", "snare.wav", "snare.ogg", "snare.mp3", "snare.flac"]
    );
}

#[test]
fn image_candidates_try_the_name_then_each_image_extension() {
    assert_eq!(
        image_file_candidates("cover.png"),
        vec![
            "cover.png",
            "cover.png",
            "cover.bmp",
            "cover.jpg",
            "cover.jpeg",
            "cover.gif",
            "cover.mp4",
            "cover.webm"
        ]
    );
}

#[test]
fn candidates_use_the_stem_of_the_last_path_component() {
    assert_eq!(sound_file_candidates("wav/hat.ogg")[1], "hat.wav");
    assert_eq!(candidates_from_stem("a.b", "a", false)[4], "a.flac");
}

#[test]
fn format_badge_includes_lanes_difficulty_level_and_bpm() {
    assert_eq!(chart_badge(5, Some(2), Some(3), &bpm_text(140.0)), "[5K NORMAL Lv3 BPM140]");
}

#[test]
fn format_badge_omits_difficulty_label_when_missing() {
    assert_eq!(chart_badge(5, None, Some(3), &bpm_text(140.0)), "[5K Lv3 BPM140]");
}

#[test]
fn format_badge_omits_level_when_missing() {
    assert_eq!(chart_badge(5, Some(2), None, &bpm_text(140.0)), "[5K NORMAL BPM140]");
}

#[test]
fn format_badge_omits_both_when_playlevel_and_difficulty_missing() {
    assert_eq!(chart_badge(5, None, None, &bpm_text(140.0)), "[5K BPM140]");
}

#[test]
fn format_badge_rounds_bpm_to_the_nearest_integer() {
    assert_eq!(chart_badge(5, Some(2), Some(3), &bpm_text(173.6)), "[5K NORMAL Lv3 BPM174]");
}

#[test]
fn format_difficulty_badge_full_metadata() {
    assert_eq!(
        intro_badge(5, Some(2), Some(4), &bpm_text(140.0)),
        "NORMAL  \u{b7}  Lv 4  \u{b7}  BPM 140  \u{b7}  5K"
    );
}

#[test]
fn format_difficulty_badge_drops_missing_pieces() {
    assert_eq!(intro_badge(4, None, None, &bpm_text(140.0)), "BPM 140  \u{b7}  4K");
}

#[test]
fn format_difficulty_badge_shows_only_bpm_and_lanes_for_bare_chart() {
    assert_eq!(intro_badge(7, None, None, &bpm_text(200.0)), "BPM 200  \u{b7}  7K");
}

#[test]
fn badges_write_multi_digit_numbers_in_decimal() {
    assert_eq!(chart_badge(14, Some(5), Some(12), "95"), "[14K INSANE Lv12 BPM95]");
    assert_eq!(right_aligned(1234, 6), "  1234");
    assert_eq!(right_aligned(0, 3), "  0");
    assert_eq!(right_aligned(1234567, 6), "1234567");
}

#[test]
fn tally_summary_and_counters_list_each_tier() {
    let mut t = Tally::new();
    t.apply(Judgment::Perfect);
    t.apply(Judgment::Perfect);
    t.apply(Judgment::Great);
    t.apply(Judgment::Miss);
    assert_eq!(tally_summary(&t), "perfect 2   great 1   good 0   miss 1");
    assert_eq!(counter_cells(&t), vec!["PERFECT 2", "GREAT 1", "GOOD 0", "MISS 1"]);
}

#[test]
fn selector_moves_within_the_list_and_plays_or_leaves() {
    let len = 25;
    assert_eq!(select_step(0, len, KeyInput::Up, KeyPhase::Press), SelectOutcome::Browse(0));
    assert_eq!(select_step(0, len, KeyInput::Char('j'), KeyPhase::Press), SelectOutcome::Browse(1));
    assert_eq!(select_step(24, len, KeyInput::Down, KeyPhase::Press), SelectOutcome::Browse(24));
    assert_eq!(select_step(5, len, KeyInput::Char('k'), KeyPhase::Press), SelectOutcome::Browse(4));
    assert_eq!(select_step(5, len, KeyInput::PageUp, KeyPhase::Press), SelectOutcome::Browse(0));
    assert_eq!(select_step(5, len, KeyInput::PageDown, KeyPhase::Press), SelectOutcome::Browse(15));
    assert_eq!(select_step(20, len, KeyInput::PageDown, KeyPhase::Press), SelectOutcome::Browse(24));
    assert_eq!(select_step(7, len, KeyInput::Char('G'), KeyPhase::Press), SelectOutcome::Browse(24));
    assert_eq!(select_step(7, len, KeyInput::Home, KeyPhase::Press), SelectOutcome::Browse(0));
    assert_eq!(select_step(7, len, KeyInput::Enter, KeyPhase::Press), SelectOutcome::Play(7));
    assert_eq!(select_step(7, len, KeyInput::Esc, KeyPhase::Press), SelectOutcome::Leave);
    assert_eq!(select_step(7, len, KeyInput::Char('Q'), KeyPhase::Press), SelectOutcome::Leave);
    assert_eq!(select_step(7, len, KeyInput::Enter, KeyPhase::Release), SelectOutcome::Browse(7));
    assert_eq!(select_step(7, len, KeyInput::Char('x'), KeyPhase::Press), SelectOutcome::Browse(7));
}

#[test]
fn scrolling_keeps_the_cursor_on_screen() {
    assert_eq!(scroll_into_view(3, 0, 10), 0);
    assert_eq!(scroll_into_view(12, 0, 10), 3);
    assert_eq!(scroll_into_view(2, 5, 10), 2);
    assert_eq!(scroll_into_view(14, 5, 10), 5);
    assert_eq!(scroll_into_view(15, 5, 10), 6);
}

#[test]
fn play_field_is_centred_and_needs_enough_rows() {
    assert_eq!(centered_x(80, 20), 30);
    assert_eq!(centered_x(10, 20), 0);
    let f = field_layout(80, 30, 7).unwrap();
    assert_eq!(
        f,
        Field { x0: 15, width: 50, top: 4, bottom: 26, judgment_row: 25 }
    );
    assert_eq!(lane_x(f, 0), 16);
    assert_eq!(lane_x(f, 3), 37);
    assert!(field_layout(80, 12, 7).is_none());
    assert!(field_layout(80, 13, 7).is_some());
}

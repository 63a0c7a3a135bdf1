use std::time::{Duration, Instant};
use tapline::lanes::keys_for;
use tapline::play::{
    advance_deadline, frame_dt, hit_sound, key_action, next_deadline, uses_synth, HitSound, KeyAction, KeyInput,
    KeyPhase,
};
use tapline::score::{Judgment, Tally};

#[test]
fn advance_deadline_bumps_forward_when_on_time() {
    let base = Instant::now() + Duration::from_secs(60);
    let next = advance_deadline(base);
    assert_eq!(next, base + frame_dt());
}

#[test]
fn advance_deadline_clamps_to_now_when_far_behind() {
    let long_ago = Instant::now() - Duration::from_secs(60);
    let bumped = advance_deadline(long_ago);
    let now = Instant::now();
    let diff = now
        .checked_duration_since(bumped)
        .unwrap_or_else(|| bumped.duration_since(now));
    assert!(
        diff < Duration::from_secs(1),
        "advance_deadline should re-anchor to ~now instead of staying in the past"
    );
}

#[test]
fn frame_dt_is_sixteen_milliseconds() {
    assert_eq!(frame_dt(), Duration::from_millis(16));
}

#[test]
fn key_action_esc_quits_on_press_only() {
    let keys = keys_for(4);
    assert_eq!(key_action(KeyInput::Esc, KeyPhase::Press, false, &keys), KeyAction::Quit);
    assert_eq!(key_action(KeyInput::Esc, KeyPhase::Press, true, &keys), KeyAction::Quit);
    assert_eq!(key_action(KeyInput::Esc, KeyPhase::Release, false, &keys), KeyAction::Ignore);
}

#[test]
fn key_action_q_uppercase_or_lowercase_both_quit() {
    let keys = keys_for(4);
    assert_eq!(key_action(KeyInput::Char('q'), KeyPhase::Press, false, &keys), KeyAction::Quit);
    assert_eq!(key_action(KeyInput::Char('Q'), KeyPhase::Press, true, &keys), KeyAction::Quit);
}

#[test]
fn key_action_ignores_letters_during_countdown() {
    let keys = keys_for(4);
    assert_eq!(key_action(KeyInput::Char('s'), KeyPhase::Press, true, &keys), KeyAction::Ignore);
}

#[test]
fn key_action_presses_and_releases_bound_lanes() {
    let keys = keys_for(7);
    assert_eq!(key_action(KeyInput::Char('d'), KeyPhase::Press, false, &keys), KeyAction::Hit(1));
    assert_eq!(key_action(KeyInput::Char(' '), KeyPhase::Press, false, &keys), KeyAction::Hit(3));
    assert_eq!(
        key_action(KeyInput::Char('L'), KeyPhase::Release, false, &keys),
        KeyAction::Release(6)
    );
    assert_eq!(key_action(KeyInput::Char('L'), KeyPhase::Repeat, false, &keys), KeyAction::Ignore);
}

#[test]
fn key_action_treats_unbound_letters_and_other_keys_as_noops() {
    let keys = keys_for(4);
    assert_eq!(key_action(KeyInput::Char('z'), KeyPhase::Press, false, &keys), KeyAction::Ignore);
    assert_eq!(key_action(KeyInput::Other, KeyPhase::Press, false, &keys), KeyAction::Ignore);
}

#[test]
fn hit_sound_prefers_a_loaded_keysound() {
    assert_eq!(hit_sound(2, Some(5), true, true), HitSound::Sample(5));
    assert_eq!(hit_sound(2, Some(5), true, false), HitSound::Sample(5));
}

#[test]
fn hit_sound_falls_back_to_synth_when_keysound_is_unknown() {
    assert_eq!(hit_sound(2, Some(5), false, true), HitSound::Synth(2));
    assert_eq!(hit_sound(9, None, false, true), HitSound::Synth(2));
    assert_eq!(hit_sound(9, None, false, false), HitSound::Silent);
    assert_eq!(hit_sound(0, Some(5), false, false), HitSound::Silent);
}

#[test]
fn judgment_points_are_300_200_100_0() {
    assert_eq!(Judgment::Perfect.points(), 300);
    assert_eq!(Judgment::Great.points(), 200);
    assert_eq!(Judgment::Good.points(), 100);
    assert_eq!(Judgment::Miss.points(), 0);
}

#[test]
fn five_perfects_score_base_points_plus_combo_bonus() {
    let mut t = Tally::new();
    for _ in 0..5 {
        t.apply(Judgment::Perfect);
    }
    assert_eq!(t.perfect, 5);
    assert_eq!(t.combo, 5);
    assert_eq!(t.max_combo, 5);
    assert_eq!(t.score, 5 * 300 + (1 + 2 + 3 + 4 + 5));
}

#[test]
fn a_miss_resets_combo_keeps_score_and_best_combo() {
    let mut t = Tally::new();
    t.apply(Judgment::Great);
    t.apply(Judgment::Good);
    let before = t.score;
    t.apply(Judgment::Miss);
    assert_eq!(t.score, before);
    assert_eq!(t.combo, 0);
    assert_eq!(t.max_combo, 2);
    assert_eq!(t.miss, 1);
    assert_eq!(t.score, 200 + 1 + 100 + 2);
}

#[test]
fn combo_bonus_is_capped_at_fifty() {
    let mut t = Tally::new();
    for _ in 0..60 {
        t.apply(Judgment::Good);
    }
    let bonus: u32 = (1..=50).sum::<u32>() + 10 * 50;
    assert_eq!(t.score, 60 * 100 + bonus);
    assert_eq!(t.max_combo, 60);
}

#[test]
fn a_fresh_tally_is_all_zero() {
    let t = Tally::new();
    assert_eq!(
        (t.score, t.combo, t.max_combo, t.perfect, t.great, t.good, t.miss),
        (0, 0, 0, 0, 0, 0, 0)
    );
}

#[test]
fn synth_plays_when_asked_or_when_no_keysound_file_loaded() {
    assert!(uses_synth(true, 3));
    assert!(uses_synth(false, 0));
    assert!(!uses_synth(false, 2));
}

#[test]
fn every_binding_of_a_5k_layout_hits_its_lane_after_the_countdown() {
    let keys = keys_for(5);
    for (lane, binds) in keys.iter().enumerate() {
        for &c in binds {
            for k in [c.to_ascii_lowercase(), c.to_ascii_uppercase()] {
                assert_eq!(key_action(KeyInput::Char(k), KeyPhase::Press, false, &keys), KeyAction::Hit(lane));
                assert_eq!(key_action(KeyInput::Char(k), KeyPhase::Press, true, &keys), KeyAction::Ignore);
            }
        }
    }
}

#[test]
fn next_deadline_keeps_the_bumped_deadline_unless_behind() {
    let now = Instant::now();
    let ahead = now + Duration::from_millis(500);
    let behind = now - Duration::from_millis(500);
    assert_eq!(next_deadline(Some(ahead), now), ahead);
    assert_eq!(next_deadline(Some(now), now), now);
    assert_eq!(next_deadline(Some(behind), now), now);
    assert_eq!(next_deadline(None, now), now);
}

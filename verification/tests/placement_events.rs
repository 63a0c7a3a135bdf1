use tapline::channels::BgaLayer;
use tapline::placement::{
    bga_events, plan_lanes, side_events, tempo_events, Player, SlotAt, TempoRef,
};

fn raw(lines: &[(u32, &str, &str)]) -> Vec<(u32, String, String)> {
    lines
        .iter()
        .map(|(m, c, d)| (*m, c.to_string(), d.to_string()))
        .collect()
}

fn at(measure: u32, index: usize, count: usize, value: u32) -> SlotAt {
    SlotAt { measure, index, count, value }
}

#[test]
fn visible_notes_skip_rests_and_keep_their_position() {
    let lines = raw(&[(1, "11", "0100"), (0, "19", "00ZZ0001")]);
    let ev = side_events(&lines, Player::One);
    assert_eq!(ev.notes, vec![(0, at(1, 0, 2, 1)), (6, at(0, 1, 4, 1295)), (6, at(0, 3, 4, 1))]);
    assert!(ev.long_events.is_empty());
    assert!(ev.mines.is_empty());
    assert!(ev.bgm.is_empty());
}

#[test]
fn bgm_channel_01_feeds_the_bgm_list_on_player_one_only() {
    let lines = raw(&[(0, "01", "0A0B"), (3, "01", "00")]);
    let p1 = side_events(&lines, Player::One);
    assert_eq!(p1.bgm, vec![at(0, 0, 2, 10), at(0, 1, 2, 11)]);
    assert!(p1.notes.is_empty());
    let p2 = side_events(&lines, Player::Two);
    assert!(p2.bgm.is_empty());
}

#[test]
fn long_and_mine_channels_fill_their_own_lists() {
    let lines = raw(&[(2, "51", "01000200"), (0, "D1", "0F"), (4, "58", "0303")]);
    let ev = side_events(&lines, Player::One);
    assert_eq!(
        ev.long_events,
        vec![(0, at(2, 0, 4, 1)), (0, at(2, 2, 4, 2)), (5, at(4, 0, 2, 3)), (5, at(4, 1, 2, 3))]
    );
    assert_eq!(ev.mines, vec![(0, at(0, 0, 1, 15))]);
    assert!(ev.notes.is_empty());
}

#[test]
fn player_two_reads_the_2x_6x_and_ex_families() {
    let lines = raw(&[(0, "21", "01"), (0, "11", "02"), (1, "69", "0404"), (1, "E2", "10")]);
    let ev = side_events(&lines, Player::Two);
    assert_eq!(ev.notes, vec![(0, at(0, 0, 1, 1))]);
    assert_eq!(ev.long_events, vec![(6, at(1, 0, 2, 4)), (6, at(1, 1, 2, 4))]);
    assert_eq!(ev.mines, vec![(1, at(1, 0, 1, 16))]);
}

#[test]
fn bga_channels_map_to_their_layers() {
    let lines = raw(&[(0, "04", "0102"), (1, "06", "0003"), (1, "07", "04"), (1, "05", "05")]);
    assert_eq!(
        bga_events(&lines),
        vec![
            (BgaLayer::Base, at(0, 0, 2, 1)),
            (BgaLayer::Base, at(0, 1, 2, 2)),
            (BgaLayer::Poor, at(1, 1, 2, 3)),
            (BgaLayer::Overlay, at(1, 0, 1, 4)),
        ]
    );
}

#[test]
fn tempo_channels_name_a_bpm_a_bpm_definition_or_a_stop() {
    let lines = raw(&[(0, "03", "0078"), (1, "08", "01"), (2, "09", "0Z00"), (2, "11", "01")]);
    assert_eq!(
        tempo_events(&lines),
        vec![
            (TempoRef::Bpm, at(0, 1, 2, 120)),
            (TempoRef::BpmDef, at(1, 0, 1, 1)),
            (TempoRef::Stop, at(2, 0, 2, 35)),
        ]
    );
}

#[test]
fn canonical_double_play_folds_into_fourteen_lanes() {
    let plan = plan_lanes(7, 7, &[0, 6], &[3], &[0, 6], &[2]);
    assert!(plan.folded);
    assert_eq!(plan.lane_count, 14);
    assert_eq!(plan.notes, vec![Some(0), Some(6)]);
    assert_eq!(plan.mines, vec![Some(3)]);
    assert_eq!(plan.p2_notes, vec![Some(7), Some(13)]);
    assert_eq!(plan.p2_mines, vec![Some(9)]);
}

#[test]
fn other_layouts_drop_notes_past_the_lane_count_and_stay_split() {
    let plan = plan_lanes(5, 5, &[0, 4, 5], &[6], &[1], &[]);
    assert!(!plan.folded);
    assert_eq!(plan.lane_count, 5);
    assert_eq!(plan.notes, vec![Some(0), Some(4), None]);
    assert_eq!(plan.mines, vec![None]);
    assert_eq!(plan.p2_notes, vec![Some(1)]);
    let no_p2 = plan_lanes(7, 7, &[1], &[], &[], &[4]);
    assert!(!no_p2.folded);
    assert_eq!(no_p2.lane_count, 7);
    assert_eq!(no_p2.p2_mines, vec![Some(4)]);
}

use tapline::labels::{difficulty_label, display_key, format_key_hint, format_lane_key};
use tapline::lanes::{keys_for, lane_for_key};

#[test]
fn lane_for_key_matches_case_insensitively() {
    let keys = keys_for(4);
    assert_eq!(lane_for_key('s', &keys), Some(0));
    assert_eq!(lane_for_key('S', &keys), Some(0));
    assert_eq!(lane_for_key('L', &keys), Some(3));
    assert_eq!(lane_for_key('l', &keys), Some(3));
}

#[test]
fn lane_for_key_returns_none_for_unmapped_char() {
    let keys = keys_for(4);
    assert_eq!(lane_for_key('Q', &keys), None);
    assert_eq!(lane_for_key('a', &keys), None);
    assert_eq!(lane_for_key(' ', &keys), None);
}

#[test]
fn lane_for_key_5k_center_accepts_both_f_and_j() {
    let keys = keys_for(5);
    assert_eq!(lane_for_key('F', &keys), Some(2));
    assert_eq!(lane_for_key('J', &keys), Some(2));
    assert_eq!(lane_for_key('f', &keys), Some(2));
    assert_eq!(lane_for_key('j', &keys), Some(2));
}

#[test]
fn lane_for_key_7k_maps_space_to_center_lane() {
    let keys = keys_for(7);
    assert_eq!(lane_for_key(' ', &keys), Some(3));
    assert_eq!(lane_for_key('F', &keys), Some(2));
    assert_eq!(lane_for_key('J', &keys), Some(4));
}

#[test]
fn lane_for_key_returns_first_matching_lane() {
    let keys = vec![vec!['A'], vec!['A', 'B']];
    assert_eq!(lane_for_key('A', &keys), Some(0));
    assert_eq!(lane_for_key('B', &keys), Some(1));
}

#[test]
fn keys_for_lays_out_the_documented_keymaps() {
    assert_eq!(keys_for(4), vec![vec!['S'], vec!['D'], vec!['K'], vec!['L']]);
    assert_eq!(
        keys_for(5),
        vec![vec!['S'], vec!['D'], vec!['F', 'J'], vec!['K'], vec!['L']]
    );
    assert_eq!(
        keys_for(7),
        vec![
            vec!['S'],
            vec!['D'],
            vec!['F'],
            vec![' '],
            vec!['J'],
            vec!['K'],
            vec!['L']
        ]
    );
}

#[test]
fn keys_for_round_trips_through_lane_for_key() {
    for n in [4usize, 5, 7] {
        let keys = keys_for(n);
        for (lane, binds) in keys.iter().enumerate() {
            for c in binds {
                assert_eq!(lane_for_key(*c, &keys), Some(lane));
            }
        }
    }
}

#[test]
fn display_key_shows_letters_verbatim_and_expands_space() {
    assert_eq!(display_key(&'A'), "A");
    assert_eq!(display_key(&'S'), "S");
    assert_eq!(display_key(&' '), "SPACE");
}

#[test]
fn format_lane_key_centers_a_single_letter_in_a_three_wide_cell() {
    assert_eq!(format_lane_key(&['S']), " S ");
}

#[test]
fn format_lane_key_joins_multiple_bindings_with_slash() {
    assert_eq!(format_lane_key(&['F', 'J']), "F/J");
}

#[test]
fn format_lane_key_renders_space_as_word() {
    assert_eq!(format_lane_key(&[' ']), "SPACE");
}

#[test]
fn format_lane_key_handles_empty_bindings() {
    assert_eq!(format_lane_key(&[]), "   ");
}

#[test]
fn format_key_hint_lists_each_lane_space_separated() {
    let keys = keys_for(5);
    assert_eq!(format_key_hint(&keys), "S D F/J K L");
}

#[test]
fn format_key_hint_swaps_space_char_for_the_word_space() {
    let keys = keys_for(7);
    assert_eq!(format_key_hint(&keys), "S D F SPACE J K L");
}

#[test]
fn difficulty_label_names_the_five_tiers() {
    assert_eq!(difficulty_label(Some(1)), "BEGINNER");
    assert_eq!(difficulty_label(Some(2)), "NORMAL");
    assert_eq!(difficulty_label(Some(3)), "HYPER");
    assert_eq!(difficulty_label(Some(4)), "ANOTHER");
    assert_eq!(difficulty_label(Some(5)), "INSANE");
    assert_eq!(difficulty_label(Some(0)), "");
    assert_eq!(difficulty_label(Some(6)), "");
    assert_eq!(difficulty_label(None), "");
}

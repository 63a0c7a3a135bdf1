use tapline::channels::{
    bga_channel_to_layer, channel_to_lane, long_channel_to_lane, mine_channel_to_lane,
    p2_channel_to_lane, p2_long_channel_to_lane, p2_mine_channel_to_lane, BgaLayer,
};
use tapline::decode::decode_text;
use tapline::lines::{header_lines, parse_channel_line, split_cmd_value, split_first_word};
use tapline::slots::{parse_slots, parse_slots_hex};

#[test]
fn parse_slots_reads_base36_pairs() {
    assert_eq!(parse_slots("00010203"), vec![0, 1, 2, 3]);
}

#[test]
fn parse_slots_handles_base36_letters() {
    assert_eq!(parse_slots("0AZZ10"), vec![10, 1295, 36]);
}

#[test]
fn parse_slots_drops_a_trailing_odd_char() {
    assert_eq!(parse_slots("010"), vec![1]);
}

#[test]
fn parse_slots_treats_bad_hex_as_zero() {
    assert_eq!(parse_slots("!!!!"), vec![0, 0]);
}

#[test]
fn parse_slots_accepts_lower_case_and_a_plus_sign() {
    assert_eq!(parse_slots("0azz+5"), vec![10, 1295, 5]);
}

#[test]
fn parse_slots_zeroes_pairs_with_non_ascii_bytes() {
    // "é" is two bytes; the pair after it is still read.
    assert_eq!(parse_slots("é01"), vec![0, 1]);
}

#[test]
fn channel_to_lane_covers_p1_visible_channels() {
    assert_eq!(channel_to_lane("11"), Some(0));
    assert_eq!(channel_to_lane("12"), Some(1));
    assert_eq!(channel_to_lane("13"), Some(2));
    assert_eq!(channel_to_lane("14"), Some(3));
    assert_eq!(channel_to_lane("15"), Some(4));
    assert_eq!(channel_to_lane("18"), Some(5));
    assert_eq!(channel_to_lane("19"), Some(6));
}

#[test]
fn channel_to_lane_ignores_bgm_and_unknown_channels() {
    assert_eq!(channel_to_lane("01"), None);
    assert_eq!(channel_to_lane("16"), None);
    assert_eq!(channel_to_lane("21"), None);
    assert_eq!(channel_to_lane("D1"), None);
}

#[test]
fn channel_to_lane_rejects_longer_channels() {
    assert_eq!(channel_to_lane("111"), None);
    assert_eq!(channel_to_lane("1"), None);
    assert_eq!(channel_to_lane(""), None);
}

#[test]
fn parse_channel_line_extracts_measure_channel_data() {
    let parsed = parse_channel_line("00111:0100").unwrap();
    assert_eq!(parsed.0, 1);
    assert_eq!(parsed.1, "11");
    assert_eq!(parsed.2, "0100");
}

#[test]
fn parse_channel_line_uppercases_hex_channels() {
    let parsed = parse_channel_line("001d1:0100").unwrap();
    assert_eq!(parsed.1, "D1");
}

#[test]
fn parse_channel_line_rejects_short_or_missing_colon() {
    assert!(parse_channel_line("TITLE Foo").is_none());
    assert!(parse_channel_line("0011").is_none());
    assert!(parse_channel_line("001110100").is_none());
}

#[test]
fn parse_channel_line_rejects_non_numeric_measure() {
    assert!(parse_channel_line("abc11:0100").is_none());
}

#[test]
fn parse_channel_line_trims_data_and_rejects_non_ascii() {
    let parsed = parse_channel_line("99902:  0.5  ").unwrap();
    assert_eq!(parsed.0, 999);
    assert_eq!(parsed.1, "02");
    assert_eq!(parsed.2, "0.5");
    assert!(parse_channel_line("00111:01é0").is_none());
    assert!(parse_channel_line("001-1:0100").is_none());
    assert!(parse_channel_line("0:111:0100").is_none());
}

#[test]
fn split_cmd_value_splits_at_first_whitespace() {
    assert_eq!(split_cmd_value("TITLE Foo Bar"), ("TITLE", "Foo Bar"));
    assert_eq!(split_cmd_value("BPM   180"), ("BPM", "180"));
}

#[test]
fn split_cmd_value_returns_empty_value_when_no_whitespace() {
    assert_eq!(split_cmd_value("SOLO"), ("SOLO", ""));
}

#[test]
fn split_first_word_keeps_the_whitespace_in_the_rest() {
    assert_eq!(split_first_word("IF 2"), ("IF", " 2"));
    assert_eq!(split_first_word("ENDIF"), ("ENDIF", ""));
    assert_eq!(split_first_word("A\u{3000}B"), ("A", "\u{3000}B"));
}

#[test]
fn header_lines_strips_hash_and_trims_bom_and_whitespace() {
    let text = "\u{feff}#TITLE Foo\n\n  #BPM 130  \nnot a header\n#\n";
    let collected = header_lines(text);
    assert_eq!(collected, vec!["TITLE Foo", "BPM 130"]);
}

#[test]
fn header_lines_handles_crlf_line_ends() {
    let collected = header_lines("#TITLE A\r\n#ARTIST B\r\n");
    assert_eq!(collected, vec!["TITLE A", "ARTIST B"]);
}

#[test]
fn parse_slots_hex_reads_two_digit_hex_bpm_slots() {
    assert_eq!(parse_slots_hex("00786400"), vec![0, 120, 100, 0]);
}

#[test]
fn parse_slots_hex_rejects_base36_letters() {
    assert_eq!(parse_slots_hex("ZZff0G"), vec![0, 255, 0]);
}

#[test]
fn p2_channel_to_lane_mirrors_the_p1_map_on_2x_prefix() {
    assert_eq!(p2_channel_to_lane("21"), Some(0));
    assert_eq!(p2_channel_to_lane("25"), Some(4));
    assert_eq!(p2_channel_to_lane("28"), Some(5));
    assert_eq!(p2_channel_to_lane("29"), Some(6));
    assert_eq!(p2_channel_to_lane("26"), None);
    assert_eq!(p2_channel_to_lane("11"), None);
}

#[test]
fn p2_long_and_mine_channels_map_to_the_same_lanes_as_p2_normal() {
    assert_eq!(p2_long_channel_to_lane("61"), Some(0));
    assert_eq!(p2_long_channel_to_lane("69"), Some(6));
    assert_eq!(p2_mine_channel_to_lane("E1"), Some(0));
    assert_eq!(p2_mine_channel_to_lane("E9"), Some(6));
}

#[test]
fn bga_channel_to_layer_covers_the_documented_channels() {
    assert_eq!(bga_channel_to_layer("04"), Some(BgaLayer::Base));
    assert_eq!(bga_channel_to_layer("06"), Some(BgaLayer::Poor));
    assert_eq!(bga_channel_to_layer("07"), Some(BgaLayer::Overlay));
    assert_eq!(bga_channel_to_layer("05"), None);
    assert_eq!(bga_channel_to_layer("11"), None);
}

#[test]
fn mine_channel_to_lane_mirrors_the_regular_visible_channel_map() {
    assert_eq!(mine_channel_to_lane("D1"), Some(0));
    assert_eq!(mine_channel_to_lane("D5"), Some(4));
    assert_eq!(mine_channel_to_lane("D8"), Some(5));
    assert_eq!(mine_channel_to_lane("D9"), Some(6));
    assert_eq!(mine_channel_to_lane("D6"), None);
    assert_eq!(mine_channel_to_lane("11"), None);
}

#[test]
fn long_channel_to_lane_mirrors_the_regular_visible_channel_map() {
    assert_eq!(long_channel_to_lane("51"), Some(0));
    assert_eq!(long_channel_to_lane("55"), Some(4));
    assert_eq!(long_channel_to_lane("58"), Some(5));
    assert_eq!(long_channel_to_lane("59"), Some(6));
    assert_eq!(long_channel_to_lane("56"), None);
    assert_eq!(long_channel_to_lane("11"), None);
}

#[test]
fn decode_text_prefers_utf8() {
    assert_eq!(decode_text("hello".as_bytes()), "hello");
}

#[test]
fn decode_text_falls_back_to_shift_jis_for_non_utf8() {
    // "あ" in Shift-JIS is 0x82 0xA0.
    let decoded = decode_text(&[0x82, 0xA0]);
    assert_eq!(decoded, "あ");
}

#[test]
fn shift_jis_bytes_decode_into_japanese_text() {
    let bytes = [0x92, 0xA7, 0x90, 0xED, b'/', 0x91, 0xBE, 0x98, 0x59];
    assert_eq!(decode_text(&bytes), "挑戦/太郎");
}

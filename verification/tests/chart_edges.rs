use tapline::chartfile::{channel_lane_set, read_chart_text};
use tapline::decode::decode_text;
use tapline::placement::{side_events, tempo_events, Player, SlotAt, TempoRef};

fn raw(lines: &[(u32, &str, &str)]) -> Vec<(u32, String, String)> {
    lines
        .iter()
        .map(|(m, c, d)| (*m, c.to_string(), d.to_string()))
        .collect()
}

#[test]
fn tempo_refs_read_bpm_and_stop_channels() {
    let lines = raw(&[(1, "03", "0078"), (2, "08", "0001"), (3, "09", "0001")]);
    let refs = tempo_events(&lines);
    assert_eq!(refs.len(), 3);
    assert_eq!(refs[0], (TempoRef::Bpm, SlotAt { measure: 1, index: 1, count: 2, value: 120 }));
    assert_eq!(refs[1], (TempoRef::BpmDef, SlotAt { measure: 2, index: 1, count: 2, value: 1 }));
    assert_eq!(refs[2], (TempoRef::Stop, SlotAt { measure: 3, index: 1, count: 2, value: 1 }));
}

#[test]
fn tempo_refs_keep_the_definition_id_to_look_up() {
    let lines = raw(&[(1, "08", "0099"), (2, "09", "0099")]);
    let refs = tempo_events(&lines);
    assert_eq!(refs[0].1.value, 9 * 36 + 9);
    assert_eq!(refs[1].0, TempoRef::Stop);
}

#[test]
fn an_empty_text_has_default_headers_and_no_events() {
    let c = read_chart_text("", 0);
    assert_eq!(c.header.title, "");
    assert_eq!(c.header.artist, "");
    assert!(c.header.bpm_texts.is_empty());
    assert!(c.header.playlevel.is_none());
    assert!(c.header.difficulty.is_none());
    assert!(c.channels.is_empty());
}

#[test]
fn a_utf8_bom_does_not_leak_into_the_title() {
    let mut bytes = vec![0xEF, 0xBB, 0xBF];
    bytes.extend_from_slice(b"#TITLE BOM Test\n#BPM 140\n#00111:0100\n");
    let c = read_chart_text(&decode_text(&bytes), 0);
    assert_eq!(c.header.title, "BOM Test");
    assert_eq!(c.header.bpm_texts, vec!["140".to_string()]);
}

#[test]
fn shift_jis_headers_decode_into_japanese_text() {
    let mut bytes: Vec<u8> = Vec::new();
    bytes.extend_from_slice(b"#TITLE ");
    bytes.extend_from_slice(&[0x92, 0xA7, 0x90, 0xED]);
    bytes.push(b'\n');
    bytes.extend_from_slice(b"#ARTIST ");
    bytes.extend_from_slice(&[0x91, 0xBE, 0x98, 0x59]);
    bytes.push(b'\n');
    let c = read_chart_text(&decode_text(&bytes), 0);
    assert_eq!(c.header.title, "\u{6311}\u{6226}");
    assert_eq!(c.header.artist, "\u{592a}\u{90ce}");
}

#[test]
fn lines_without_a_hash_are_comments() {
    let text = "This is a comment.\nSo is this.\n#TITLE Comments Are Fine\n    // more chatter\n#BPM 128\n#00111:0100\n";
    let c = read_chart_text(text, 0);
    assert_eq!(c.header.title, "Comments Are Fine");
    assert_eq!(c.header.bpm_texts, vec!["128".to_string()]);
    assert_eq!(c.channels.len(), 1);
}

#[test]
fn duplicate_channel_lines_each_place_their_notes() {
    let c = read_chart_text("#00111:0100\n#00111:0001\n", 0);
    let ev = side_events(&c.channels, Player::One);
    assert_eq!(
        ev.notes,
        vec![
            (0, SlotAt { measure: 1, index: 0, count: 2, value: 1 }),
            (0, SlotAt { measure: 1, index: 1, count: 2, value: 1 })
        ]
    );
}

#[test]
fn a_single_slot_sits_at_the_measure_start() {
    let c = read_chart_text("#00111:01\n", 0);
    let ev = side_events(&c.channels, Player::One);
    assert_eq!(ev.notes, vec![(0, SlotAt { measure: 1, index: 0, count: 1, value: 1 })]);
}

#[test]
fn zero_slots_place_nothing() {
    let c = read_chart_text("#00111:00000000\n", 0);
    assert!(side_events(&c.channels, Player::One).notes.is_empty());
    assert_eq!(channel_lane_set(&c.channels).count(), 4);
}

#[test]
fn channel_01_feeds_the_bgm_not_the_notes() {
    let c = read_chart_text("#WAV0A hat.wav\n#00101:0A000A00\n#00111:0100\n", 0);
    let ev = side_events(&c.channels, Player::One);
    assert_eq!(ev.bgm.len(), 2);
    assert_eq!(ev.notes.len(), 1);
    assert_eq!(ev.bgm[0].value, 10);
}

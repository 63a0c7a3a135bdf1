use tapline::header::HeaderPass;
use tapline::lanes::LaneSet;

#[test]
fn header_pass_absorbs_the_standard_headers() {
    let mut p = HeaderPass::default();
    p.absorb("TITLE Foo Song");
    p.absorb("ARTIST Bar");
    p.absorb("BPM 180");
    p.absorb("PLAYLEVEL 7");
    p.absorb("DIFFICULTY 3");
    p.absorb("WAV01 kick.wav");
    p.absorb("WAVZZ hihat.ogg");
    assert_eq!(p.title, "Foo Song");
    assert_eq!(p.artist, "Bar");
    assert_eq!(p.bpm_texts, vec!["180".to_string()]);
    assert_eq!(p.playlevel, Some(7));
    assert_eq!(p.difficulty, Some(3));
    assert_eq!(p.wav_defs.get(&1).unwrap(), "kick.wav");
    assert_eq!(p.wav_defs.get(&1295).unwrap(), "hihat.ogg");
}

#[test]
fn header_pass_absorbs_optional_metadata_headers() {
    let mut p = HeaderPass::default();
    p.absorb("SUBTITLE ~an interlude~");
    p.absorb("SUBARTIST arr. someone");
    p.absorb("GENRE electronic");
    p.absorb("STAGEFILE  cover.png ");
    p.absorb("BANNER  banner.png ");
    p.absorb("MAKER unhappychoice");
    assert_eq!(p.subtitle, "~an interlude~");
    assert_eq!(p.subartist, "arr. someone");
    assert_eq!(p.genre, "electronic");
    assert_eq!(p.stagefile, "cover.png");
    assert_eq!(p.banner, "banner.png");
    assert_eq!(p.maker, "unhappychoice");
}

#[test]
fn header_pass_absorbs_rank_total_and_volwav() {
    let mut p = HeaderPass::default();
    p.absorb("RANK 2");
    p.absorb("TOTAL 260");
    p.absorb("VOLWAV 80");
    assert_eq!(p.rank, Some(2));
    assert_eq!(p.total_texts, vec!["260".to_string()]);
    assert_eq!(p.vol_wav, Some(80));
}

#[test]
fn header_pass_rejects_out_of_range_rank_total_volwav() {
    let mut p = HeaderPass::default();
    p.absorb("RANK 9");
    p.absorb("TOTAL 0");
    p.absorb("TOTAL -5");
    p.absorb("VOLWAV 250");
    p.absorb("VOLWAV nonsense");
    assert_eq!(p.rank, None, "RANK > 4 is not a valid difficulty tier");
    assert_eq!(p.total_texts, vec!["0".to_string(), "-5".to_string()]);
    assert_eq!(p.vol_wav, None, "VOLWAV is a 0..=100 percent");
}

#[test]
fn header_pass_absorbs_stop_definitions() {
    let mut p = HeaderPass::default();
    p.absorb("STOP01 96");
    p.absorb("STOP02 -1");
    p.absorb("STOPZZ 24");
    p.absorb("STOP 5");
    assert_eq!(
        p.stop_def_texts,
        vec![(1, "96".to_string()), (2, "-1".to_string()), (1295, "24".to_string())]
    );
}

#[test]
fn header_pass_absorbs_bmp_definitions() {
    let mut p = HeaderPass::default();
    p.absorb("BMP01 cover.png");
    p.absorb("BMPZZ  scene.mp4  ");
    assert_eq!(p.bmp_defs.get(&1).unwrap(), "cover.png");
    assert_eq!(p.bmp_defs.get(&1295).unwrap(), "scene.mp4");
}

#[test]
fn header_pass_absorbs_lnobj_and_lntype() {
    let mut p = HeaderPass::default();
    p.absorb("LNOBJ ZZ");
    p.absorb("LNTYPE 2");
    assert_eq!(p.lnobj, Some(1295));
    assert_eq!(p.lntype, 2);
}

#[test]
fn header_pass_clamps_lntype_to_supported_variants() {
    let mut p = HeaderPass::default();
    p.absorb("LNTYPE 9");
    assert_eq!(p.lntype, 1, "unsupported LN types fall back to the default");
}

#[test]
fn header_pass_absorbs_bpm_definitions() {
    let mut p = HeaderPass::default();
    p.absorb("BPM01 175.5");
    p.absorb("BPMZZ 60");
    p.absorb("BPM02 -20");
    assert_eq!(
        p.bpm_def_texts,
        vec![(1, "175.5".to_string()), (1295, "60".to_string()), (2, "-20".to_string())]
    );
}

#[test]
fn header_pass_ignores_malformed_numeric_headers() {
    let mut p = HeaderPass::default();
    p.absorb("BPM  not-a-number");
    p.absorb("PLAYLEVEL huh");
    p.absorb("LNOBJ 00");
    p.absorb("WAV kick.wav");
    p.absorb("WAV!! kick.wav");
    assert_eq!(p.bpm_texts, vec!["not-a-number".to_string()]);
    assert_eq!(p.playlevel, None);
    assert_eq!(p.lnobj, None);
    assert!(p.wav_defs.is_empty());
}

#[test]
fn header_pass_commands_are_case_insensitive_and_values_keep_inner_spaces() {
    let mut p = HeaderPass::default();
    p.absorb("title  Two  Words ");
    p.absorb("wav0a Kick.WAV");
    p.absorb("playlevel +12");
    assert_eq!(p.title, "Two  Words ");
    assert_eq!(p.wav_defs.get(&10).unwrap(), "Kick.WAV");
    assert_eq!(p.playlevel, Some(12));
}

#[test]
fn header_pass_defaults() {
    let p = HeaderPass::default();
    assert!(p.bpm_texts.is_empty());
    assert_eq!(p.lntype, 1);
    assert_eq!(p.title, "");
    assert_eq!(p.lnobj, None);
}

#[test]
fn lane_set_count_climbs_with_channel_max() {
    let mut s = LaneSet::default();
    s.observe("11");
    s.observe("12");
    assert_eq!(s.count(), 4);
    s.observe("14");
    assert_eq!(s.count(), 5);
    s.observe("19");
    assert_eq!(s.count(), 7);
}

#[test]
fn lane_set_ignores_non_lane_channels() {
    let mut s = LaneSet::default();
    let before = s.count();
    s.observe("01");
    s.observe("21");
    assert_eq!(
        s.count(),
        before,
        "BGM / P2 channels must not change the inferred lane count"
    );
}

#[test]
fn lane_set_observe_lane_is_idempotent() {
    let mut s = LaneSet::new();
    assert_eq!(s.count(), 5);
    s.observe_lane(1);
    s.observe_lane(1);
    assert_eq!(s.count(), 4);
    s.observe_lane(4);
    assert_eq!(s.count(), 5);
}

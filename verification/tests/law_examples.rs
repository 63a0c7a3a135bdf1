use tapline::chartfile::read_chart_text;
use tapline::control::resolve_control_flow;
use tapline::header::HeaderPass;
use tapline::selector::scroll_into_view;

#[test]
fn titles_come_back_as_written() {
    for title in ["A", "Song Title 2", "x  y", "\u{6311}\u{6226}"] {
        let text = format!("#TITLE {}\n", title);
        assert_eq!(read_chart_text(&text, 42).header.title, title);
    }
    assert_eq!(read_chart_text("#TITLE \n", 1).header.title, "");
}

#[test]
fn levels_and_difficulties_come_back_as_written() {
    for v in [0u8, 1, 7, 12, 99, 255] {
        let mut p = HeaderPass::default();
        p.absorb(&format!("PLAYLEVEL {}", v));
        p.absorb(&format!("DIFFICULTY {}", v));
        p.absorb(&format!("BPM {}", v));
        assert_eq!(p.playlevel, Some(v));
        assert_eq!(p.difficulty, Some(v));
        assert_eq!(p.bpm_texts.last().map(String::as_str), Some(v.to_string().as_str()));
    }
}

#[test]
fn command_words_ignore_case() {
    let mut a = HeaderPass::default();
    let mut b = HeaderPass::default();
    a.absorb("wav01 Kick.wav");
    b.absorb("WAV01 Kick.wav");
    a.absorb("tItLe Mixed");
    b.absorb("TITLE Mixed");
    assert_eq!(a.wav_defs, b.wav_defs);
    assert_eq!(a.title, b.title);
}

#[test]
fn resolved_text_keeps_no_control_lines() {
    let text = "#RANDOM 3\n#IF 1\n#A\n#ELSEIF 2\n#B\n#ELSE\n#C\n#ENDIF\n#END\n#D\n";
    for seed in 0..20u64 {
        let out = resolve_control_flow(text, seed);
        for line in out.lines() {
            let head = line.trim_start_matches('#').to_ascii_uppercase();
            for word in ["RANDOM", "SETRANDOM", "IF", "ELSEIF", "ELSE", "ENDIF", "END"] {
                assert_ne!(head, word);
                assert!(!head.starts_with(&format!("{} ", word)));
            }
        }
        let kept: Vec<&str> = out.lines().collect();
        assert_eq!(kept.len(), 2);
        assert_eq!(kept[1], "#D");
        assert!(["#A", "#B", "#C"].contains(&kept[0]));
    }
}

#[test]
fn scrolling_twice_changes_nothing_more() {
    for cursor in 0..40usize {
        for scroll in 0..40usize {
            let once = scroll_into_view(cursor, scroll, 7);
            assert_eq!(scroll_into_view(cursor, once, 7), once);
            assert!(once <= cursor && cursor < once + 7);
        }
    }
}

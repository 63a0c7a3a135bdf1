use tapline::control::{resolve_control_flow, xorshift_pick};

#[test]
fn resolve_control_flow_passes_through_when_no_directives() {
    let text = "#TITLE Plain\n#BPM 130\n";
    assert_eq!(resolve_control_flow(text, 0), "#TITLE Plain\n#BPM 130\n");
}

#[test]
fn resolve_control_flow_keeps_the_matching_setrandom_branch() {
    let text = "\
#SETRANDOM 2
#IF 1
#TITLE Never
#ENDIF
#IF 2
#TITLE Chosen
#ENDIF
";
    let out = resolve_control_flow(text, 0);
    assert!(out.contains("#TITLE Chosen"));
    assert!(!out.contains("#TITLE Never"));
}

#[test]
fn resolve_control_flow_else_fires_when_no_prior_branch_matched() {
    let text = "\
#SETRANDOM 5
#IF 1
#TITLE A
#ELSEIF 2
#TITLE B
#ELSE
#TITLE Default
#ENDIF
";
    let out = resolve_control_flow(text, 0);
    assert!(out.contains("#TITLE Default"));
    assert!(!out.contains("#TITLE A"));
    assert!(!out.contains("#TITLE B"));
}

#[test]
fn resolve_control_flow_drops_if_blocks_when_random_never_ran() {
    let text = "\
#IF 1
#TITLE Should not be included
#ENDIF
#TITLE Always
";
    let out = resolve_control_flow(text, 0);
    assert!(!out.contains("Should not be included"));
    assert!(out.contains("#TITLE Always"));
}

#[test]
fn resolve_control_flow_supports_nested_ifs() {
    let text = "\
#SETRANDOM 1
#IF 1
#SETRANDOM 3
#IF 3
#TITLE Inner
#ENDIF
#ENDIF
";
    let out = resolve_control_flow(text, 0);
    assert!(out.contains("#TITLE Inner"));
}

#[test]
fn resolve_control_flow_output_is_exact_for_a_selected_branch() {
    let text = "#TITLE X\r\n  #setrandom 2\n#IF 2\nkept line\n#ELSEIF 2\ndropped\n#END\n\u{feff}#ENDIF\ntail";
    assert_eq!(resolve_control_flow(text, 7), "#TITLE X\nkept line\ntail\n");
}

#[test]
fn resolve_control_flow_random_draw_selects_one_branch() {
    let text = "#RANDOM 3\n#IF 1\none\n#ENDIF\n#IF 2\ntwo\n#ENDIF\n#IF 3\nthree\n#ENDIF\n";
    for seed in 0..20u64 {
        let out = resolve_control_flow(text, seed);
        let kept = ["one\n", "two\n", "three\n"].iter().filter(|s| out.contains(*s)).count();
        assert_eq!(kept, 1, "seed {} kept {:?}", seed, out);
        assert_eq!(resolve_control_flow(text, seed), out, "same seed, same draw");
    }
}

#[test]
fn resolve_control_flow_else_after_a_match_is_skipped() {
    let text = "#SETRANDOM 1\n#IF 1\nA\n#ELSE\nB\n#ENDIF\n";
    assert_eq!(resolve_control_flow(text, 0), "A\n");
}

#[test]
fn xorshift_pick_stays_in_range_and_is_deterministic_for_a_seed() {
    let mut a = 12345u64;
    let mut b = 12345u64;
    for _ in 0..50 {
        let x = xorshift_pick(&mut a, 10);
        let y = xorshift_pick(&mut b, 10);
        assert_eq!(x, y);
        assert!((1..=10).contains(&x));
    }
}

#[test]
fn xorshift_pick_replaces_a_zero_state() {
    let mut s = 0u64;
    let mut x: u64 = 0xdeadbeef;
    x ^= x << 13;
    x ^= x >> 7;
    x ^= x << 17;
    let r = xorshift_pick(&mut s, 1000);
    assert_eq!(s, x);
    assert_eq!(r as u64, x % 1000 + 1);
}

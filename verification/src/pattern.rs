//! The built-in practice chart, laid out on a grid of quarter beats.
//!
//! Four sections of sixteen beats each: steady quarter notes, eighth-note
//! runs, a syncopated figure and a sixteenth-note finale, closed by a
//! four-lane chord at the start of the fifth section.

use vstd::prelude::*;

verus! {

/// A note of the practice chart: the section it belongs to, its offset in
/// that section in quarter beats, and its lane.
#[derive(Debug, Clone, Copy, PartialEq, Eq, Structural)]
pub struct BeatNote {
    pub section: u32,
    pub quarter: u32,
    pub lane: usize,
}

/// Number of beats in each section.
pub const SECTION_BEATS: u32 = 16;

/// Lane of the `i`-th note of the first section.
pub open spec fn easy_lane(i: int) -> usize {
    if i % 4 == 0 { 0 } else if i % 4 == 1 { 2 } else if i % 4 == 2 { 1 } else { 3 }
}

/// Lane of the `i`-th note of the second section.
pub open spec fn mid_lane(i: int) -> usize {
    if i % 4 == 0 { 0 } else if i % 4 == 1 { 3 } else if i % 4 == 2 { 1 } else { 2 }
}

/// Section 0: a note on every beat, lanes cycling 0, 2, 1, 3.
pub open spec fn easy_section() -> Seq<BeatNote> {
    Seq::new(16, |i: int| BeatNote { section: 0, quarter: (4 * i) as u32, lane: easy_lane(i) })
}

/// Section 1: a note on every half beat, lanes cycling 0, 3, 1, 2.
pub open spec fn mid_section() -> Seq<BeatNote> {
    Seq::new(32, |i: int| BeatNote { section: 1, quarter: (2 * i) as u32, lane: mid_lane(i) })
}

/// Section 2: on beat `i` in lane `i % 4`, then half a beat later two lanes
/// over, then a quarter beat later one lane over.
pub open spec fn syncopated_section() -> Seq<BeatNote> {
    Seq::new(
        48,
        |k: int|
            {
                let i = k / 3;
                let lane = i % 4;
                if k % 3 == 0 {
                    BeatNote { section: 2, quarter: (4 * i) as u32, lane: lane as usize }
                } else if k % 3 == 1 {
                    BeatNote { section: 2, quarter: (4 * i + 2) as u32, lane: ((lane + 2) % 4) as usize }
                } else {
                    BeatNote { section: 2, quarter: (4 * i + 3) as u32, lane: ((lane + 1) % 4) as usize }
                }
            },
    )
}

/// Section 3: on half beat `i` in lane `i % 4`, and a quarter beat later in
/// lane `(i + 2) % 4`.
pub open spec fn finale_section() -> Seq<BeatNote> {
    Seq::new(
        64,
        |k: int|
            {
                let i = k / 2;
                if k % 2 == 0 {
                    BeatNote { section: 3, quarter: (2 * i) as u32, lane: (i % 4) as usize }
                } else {
                    BeatNote { section: 3, quarter: (2 * i + 1) as u32, lane: ((i + 2) % 4) as usize }
                }
            },
    )
}

/// The closing chord: all four lanes at the start of section 4.
pub open spec fn closing_chord() -> Seq<BeatNote> {
    Seq::new(4, |l: int| BeatNote { section: 4, quarter: 0, lane: l as usize })
}

/// The whole practice chart, section by section.
pub open spec fn practice_pattern() -> Seq<BeatNote> {
    easy_section() + mid_section() + syncopated_section() + finale_section() + closing_chord()
}

fn push_note(out: &mut Vec<BeatNote>, section: u32, quarter: u32, lane: usize)
    ensures
        final(out)@ == old(out)@.push(BeatNote { section, quarter, lane }),
{
    out.push(BeatNote { section, quarter, lane });
}

/// The notes of the built-in practice chart, in the order the sections
/// write them.
pub fn practice_notes() -> (r: Vec<BeatNote>)
    ensures
        r@ == practice_pattern(),
{
    let mut out: Vec<BeatNote> = Vec::new();
    let mut i: u32 = 0;
    while i < 16
        invariant
            i <= 16,
            out@ == easy_section().take(i as int),
        decreases 16 - i,
    {
        let lane: usize = if i % 4 == 0 { 0 } else if i % 4 == 1 { 2 } else if i % 4 == 2 { 1 } else { 3 };
        push_note(&mut out, 0, 4 * i, lane);
        i = i + 1;
        assert(out@ =~= easy_section().take(i as int));
    }
    assert(easy_section().take(16) =~= easy_section());
    let ghost s0 = out@;
    let mut i: u32 = 0;
    while i < 32
        invariant
            i <= 32,
            s0 == easy_section(),
            out@ == s0 + mid_section().take(i as int),
        decreases 32 - i,
    {
        let lane: usize = if i % 4 == 0 { 0 } else if i % 4 == 1 { 3 } else if i % 4 == 2 { 1 } else { 2 };
        push_note(&mut out, 1, 2 * i, lane);
        i = i + 1;
        assert(out@ =~= s0 + mid_section().take(i as int));
    }
    assert(mid_section().take(32) =~= mid_section());
    let ghost s1 = out@;
    let mut i: u32 = 0;
    while i < 16
        invariant
            i <= 16,
            s1 == easy_section() + mid_section(),
            out@ == s1 + syncopated_section().take(3 * i as int),
        decreases 16 - i,
    {
        let lane: usize = (i % 4) as usize;
        push_note(&mut out, 2, 4 * i, lane);
        push_note(&mut out, 2, 4 * i + 2, (lane + 2) % 4);
        push_note(&mut out, 2, 4 * i + 3, (lane + 1) % 4);
        proof {
            let sy = syncopated_section();
            let k = 3 * i as int;
            assert(k / 3 == i && k % 3 == 0);
            assert((k + 1) / 3 == i && (k + 1) % 3 == 1);
            assert((k + 2) / 3 == i && (k + 2) % 3 == 2);
        }
        i = i + 1;
        assert(out@ =~= s1 + syncopated_section().take(3 * i as int));
    }
    assert(syncopated_section().take(48) =~= syncopated_section());
    let ghost s2 = out@;
    let mut i: u32 = 0;
    while i < 32
        invariant
            i <= 32,
            s2 == easy_section() + mid_section() + syncopated_section(),
            out@ == s2 + finale_section().take(2 * i as int),
        decreases 32 - i,
    {
        push_note(&mut out, 3, 2 * i, (i % 4) as usize);
        push_note(&mut out, 3, 2 * i + 1, ((i + 2) % 4) as usize);
        proof {
            let k = 2 * i as int;
            assert(k / 2 == i && k % 2 == 0);
            assert((k + 1) / 2 == i && (k + 1) % 2 == 1);
        }
        i = i + 1;
        assert(out@ =~= s2 + finale_section().take(2 * i as int));
    }
    assert(finale_section().take(64) =~= finale_section());
    let ghost s3 = out@;
    let mut l: usize = 0;
    while l < 4
        invariant
            l <= 4,
            s3 == easy_section() + mid_section() + syncopated_section() + finale_section(),
            out@ == s3 + closing_chord().take(l as int),
        decreases 4 - l,
    {
        push_note(&mut out, 4, 0, l);
        l = l + 1;
        assert(out@ =~= s3 + closing_chord().take(l as int));
    }
    assert(closing_chord().take(4) =~= closing_chord());
    out
}

/// The practice chart has 164 notes, all in the four lanes, each within its
/// section's sixteen beats.
pub proof fn lemma_practice_pattern_shape()
    ensures
        practice_pattern().len() == 164,
        forall|k: int|
            0 <= k < 164 ==> {
                let n = #[trigger] practice_pattern()[k];
                &&& n.lane < 4
                &&& n.section <= 4
                &&& n.quarter < 4 * SECTION_BEATS
            },
{
    let p = practice_pattern();
    assert forall|k: int| 0 <= k < 164 implies {
        let n = #[trigger] p[k];
        &&& n.lane < 4
        &&& n.section <= 4
        &&& n.quarter < 4 * SECTION_BEATS
    } by {
        if k < 16 {
            assert(p[k] == easy_section()[k]);
        } else if k < 48 {
            assert(p[k] == mid_section()[k - 16]);
        } else if k < 96 {
            assert(p[k] == syncopated_section()[k - 48]);
        } else if k < 160 {
            assert(p[k] == finale_section()[k - 96]);
        } else {
            assert(p[k] == closing_chord()[k - 160]);
        }
    }
}

/// The practice chart note by note, against fixed tables: section 0 has a
/// note on every beat in lanes 0, 2, 1, 3 in turn; section 1 a note on every
/// half beat in lanes 0, 3, 1, 2 in turn; section 2, for beat `i`, notes on
/// the beat, half a beat and three quarters of a beat later, in lanes
/// (0, 2, 1), (1, 3, 2), (2, 0, 3), (3, 1, 0) as `i % 4` runs; section 3, for
/// half beat `i`, notes on it and a quarter beat later in lanes (0, 2),
/// (1, 3), (2, 0), (3, 1); then the four-lane chord opening section 4.
pub proof fn lemma_practice_pattern_layout()
    ensures
        practice_pattern().len() == 164,
        forall|i: int|
            0 <= i < 16 ==> #[trigger] practice_pattern()[i] == (BeatNote {
                section: 0,
                quarter: (4 * i) as u32,
                lane: seq![0usize, 2, 1, 3][i % 4],
            }),
        forall|i: int|
            0 <= i < 32 ==> #[trigger] practice_pattern()[16 + i] == (BeatNote {
                section: 1,
                quarter: (2 * i) as u32,
                lane: seq![0usize, 3, 1, 2][i % 4],
            }),
        forall|k: int|
            0 <= k < 48 ==> #[trigger] practice_pattern()[48 + k] == (BeatNote {
                section: 2,
                quarter: (4 * (k / 3) + seq![0int, 2, 3][k % 3]) as u32,
                lane: seq![seq![0usize, 2, 1], seq![1usize, 3, 2], seq![2usize, 0, 3], seq![3usize, 1, 0]][(k / 3)
                    % 4][k % 3],
            }),
        forall|k: int|
            0 <= k < 64 ==> #[trigger] practice_pattern()[96 + k] == (BeatNote {
                section: 3,
                quarter: (2 * (k / 2) + seq![0int, 1][k % 2]) as u32,
                lane: seq![seq![0usize, 2], seq![1usize, 3], seq![2usize, 0], seq![3usize, 1]][(k / 2) % 4][k % 2],
            }),
        forall|l: int| 0 <= l < 4 ==> #[trigger] practice_pattern()[160 + l] == (BeatNote { section: 4, quarter: 0, lane: l as usize }),
{
    let p = practice_pattern();
    assert forall|i: int| 0 <= i < 16 implies #[trigger] p[i] == (BeatNote {
        section: 0,
        quarter: (4 * i) as u32,
        lane: seq![0usize, 2, 1, 3][i % 4],
    }) by {
        assert(p[i] == easy_section()[i]);
    }
    assert forall|i: int| 0 <= i < 32 implies #[trigger] p[16 + i] == (BeatNote {
        section: 1,
        quarter: (2 * i) as u32,
        lane: seq![0usize, 3, 1, 2][i % 4],
    }) by {
        assert(p[16 + i] == mid_section()[i]);
    }
    assert forall|k: int| 0 <= k < 48 implies #[trigger] p[48 + k] == (BeatNote {
        section: 2,
        quarter: (4 * (k / 3) + seq![0int, 2, 3][k % 3]) as u32,
        lane: seq![seq![0usize, 2, 1], seq![1usize, 3, 2], seq![2usize, 0, 3], seq![3usize, 1, 0]][(k / 3) % 4][k
            % 3],
    }) by {
        assert(p[48 + k] == syncopated_section()[k]);
    }
    assert forall|k: int| 0 <= k < 64 implies #[trigger] p[96 + k] == (BeatNote {
        section: 3,
        quarter: (2 * (k / 2) + seq![0int, 1][k % 2]) as u32,
        lane: seq![seq![0usize, 2], seq![1usize, 3], seq![2usize, 0], seq![3usize, 1]][(k / 2) % 4][k % 2],
    }) by {
        assert(p[96 + k] == finale_section()[k]);
    }
    assert forall|l: int| 0 <= l < 4 implies #[trigger] p[160 + l] == (BeatNote { section: 4, quarter: 0, lane: l as usize }) by {
        assert(p[160 + l] == closing_chord()[l]);
    }
}

} // verus!

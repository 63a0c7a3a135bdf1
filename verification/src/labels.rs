//! Texts shown to the player: key labels, the key hint line and the
//! difficulty names.

use vstd::prelude::*;
use crate::text::string_from_chars;

verus! {

/// How a key is shown: the space bar as `SPACE`, any other key as itself.
pub open spec fn key_label(c: char) -> Seq<char> {
    if c == ' ' {
        seq!['S', 'P', 'A', 'C', 'E']
    } else {
        seq![c]
    }
}

/// Parts joined with a separator character.
pub open spec fn join(parts: Seq<Seq<char>>, sep: char) -> Seq<char>
    decreases parts.len(),
{
    if parts.len() == 0 {
        seq![]
    } else if parts.len() == 1 {
        parts[0]
    } else {
        join(parts.drop_last(), sep) + seq![sep] + parts.last()
    }
}

/// The labels of a lane's keys joined with `'/'`.
pub open spec fn lane_label(keys: Seq<char>) -> Seq<char> {
    join(keys.map_values(|c: char| key_label(c)), '/')
}

/// Centred in a field three characters wide (the extra space, if any, on
/// the right); texts of three characters or more are left as they are.
pub open spec fn center3(s: Seq<char>) -> Seq<char> {
    if s.len() >= 3 {
        s
    } else {
        let pad = 3 - s.len();
        Seq::new((pad / 2) as nat, |i: int| ' ') + s + Seq::new((pad - pad / 2) as nat, |i: int| ' ')
    }
}

fn push_label(out: &mut Vec<char>, c: char)
    ensures
        final(out)@ == old(out)@ + key_label(c),
{
    if c == ' ' {
        out.push('S');
        out.push('P');
        out.push('A');
        out.push('C');
        out.push('E');
    } else {
        out.push(c);
    }
    assert(final(out)@ =~= old(out)@ + key_label(c));
}

/// How a key is shown on screen.
pub fn display_key(c: &char) -> (r: String)
    ensures
        r@ == key_label(*c),
{
    let mut v: Vec<char> = Vec::new();
    push_label(&mut v, *c);
    assert(v@ =~= key_label(*c));
    string_from_chars(v.as_slice())
}

proof fn lemma_join_push(parts: Seq<Seq<char>>, p: Seq<char>, sep: char)
    ensures
        join(parts.push(p), sep) == if parts.len() == 0 {
            p
        } else {
            join(parts, sep) + seq![sep] + p
        },
{
    assert(parts.push(p).drop_last() =~= parts);
    if parts.len() == 0 {
        assert(parts.push(p) =~= seq![p]);
    }
}

/// Appends the `'/'`-joined labels of a lane's keys.
fn push_lane_label(out: &mut Vec<char>, keys: &[char])
    ensures
        final(out)@ == old(out)@ + lane_label(keys@),
{
    let ghost start = out@;
    let mut i: usize = 0;
    while i < keys.len()
        invariant
            i <= keys@.len(),
            out@ == start + lane_label(keys@.take(i as int)),
        decreases keys@.len() - i,
    {
        proof {
            let labels = keys@.take(i as int).map_values(|c: char| key_label(c));
            assert(keys@.take(i + 1).map_values(|c: char| key_label(c)) =~= labels.push(key_label(keys@[i as int])));
            lemma_join_push(labels, key_label(keys@[i as int]), '/');
        }
        if i > 0 {
            out.push('/');
        }
        push_label(out, keys[i]);
        i = i + 1;
        assert(out@ =~= start + lane_label(keys@.take(i as int)));
    }
    assert(keys@.take(keys@.len() as int) =~= keys@);
}

/// A lane's key labels for the judgment line, centred in three columns.
pub fn format_lane_key(keys: &[char]) -> (r: String)
    ensures
        r@ == center3(lane_label(keys@)),
{
    let mut joined: Vec<char> = Vec::new();
    push_lane_label(&mut joined, keys);
    assert(joined@ =~= lane_label(keys@));
    let w = joined.len();
    if w >= 3 {
        return string_from_chars(joined.as_slice());
    }
    let pad = 3 - w;
    let left = pad / 2;
    let right = pad - left;
    let mut out: Vec<char> = Vec::new();
    let mut k: usize = 0;
    while k < left
        invariant
            k <= left,
            out@ == Seq::new(k as nat, |i: int| ' '),
        decreases left - k,
    {
        out.push(' ');
        k = k + 1;
        assert(out@ =~= Seq::new(k as nat, |i: int| ' '));
    }
    let ghost lead = out@;
    let mut q: usize = 0;
    while q < w
        invariant
            q <= w,
            w == joined@.len(),
            out@ == lead + joined@.take(q as int),
        decreases w - q,
    {
        out.push(joined[q]);
        q = q + 1;
        assert(out@ =~= lead + joined@.take(q as int));
    }
    assert(joined@.take(w as int) =~= joined@);
    let ghost mid = out@;
    let mut t: usize = 0;
    while t < right
        invariant
            t <= right,
            out@ == mid + Seq::new(t as nat, |i: int| ' '),
        decreases right - t,
    {
        out.push(' ');
        t = t + 1;
        assert(out@ =~= mid + Seq::new(t as nat, |i: int| ' '));
    }
    string_from_chars(out.as_slice())
}

/// The key hint of a whole layout: each lane's labels joined with `'/'`,
/// lanes separated by a space.
pub open spec fn key_hint(keys: Seq<Seq<char>>) -> Seq<char> {
    join(keys.map_values(|ks: Seq<char>| lane_label(ks)), ' ')
}

/// The key hint line of a layout.
pub fn format_key_hint(keys: &[Vec<char>]) -> (r: String)
    ensures
        r@ == key_hint(keys@.map_values(|v: Vec<char>| v@)),
{
    let ghost ks = keys@.map_values(|v: Vec<char>| v@);
    let mut out: Vec<char> = Vec::new();
    let mut i: usize = 0;
    while i < keys.len()
        invariant
            i <= keys@.len(),
            ks == keys@.map_values(|v: Vec<char>| v@),
            out@ == key_hint(ks.take(i as int)),
        decreases keys@.len() - i,
    {
        proof {
            let parts = ks.take(i as int).map_values(|k: Seq<char>| lane_label(k));
            assert(ks.take(i + 1).map_values(|k: Seq<char>| lane_label(k)) =~= parts.push(
                lane_label(keys@[i as int]@),
            ));
            lemma_join_push(parts, lane_label(keys@[i as int]@), ' ');
        }
        if i > 0 {
            out.push(' ');
        }
        push_lane_label(&mut out, keys[i].as_slice());
        i = i + 1;
        assert(out@ =~= key_hint(ks.take(i as int)));
    }
    assert(ks.take(keys@.len() as int) =~= ks);
    string_from_chars(out.as_slice())
}

/// The name of a `#DIFFICULTY` value: 1 BEGINNER, 2 NORMAL, 3 HYPER,
/// 4 ANOTHER, 5 INSANE; empty for anything else.
pub open spec fn difficulty_name(d: Option<u8>) -> Seq<char> {
    match d {
        Some(1) => seq!['B', 'E', 'G', 'I', 'N', 'N', 'E', 'R'],
        Some(2) => seq!['N', 'O', 'R', 'M', 'A', 'L'],
        Some(3) => seq!['H', 'Y', 'P', 'E', 'R'],
        Some(4) => seq!['A', 'N', 'O', 'T', 'H', 'E', 'R'],
        Some(5) => seq!['I', 'N', 'S', 'A', 'N', 'E'],
        _ => seq![],
    }
}

/// The name of a `#DIFFICULTY` value.
pub fn difficulty_label(d: Option<u8>) -> (r: &'static str)
    ensures
        r@ == difficulty_name(d),
{
    match d {
        Some(1) => {
            proof {
                reveal_strlit("BEGINNER");
            }
            "BEGINNER"
        },
        Some(2) => {
            proof {
                reveal_strlit("NORMAL");
            }
            "NORMAL"
        },
        Some(3) => {
            proof {
                reveal_strlit("HYPER");
            }
            "HYPER"
        },
        Some(4) => {
            proof {
                reveal_strlit("ANOTHER");
            }
            "ANOTHER"
        },
        Some(5) => {
            proof {
                reveal_strlit("INSANE");
            }
            "INSANE"
        },
        _ => {
            proof {
                reveal_strlit("");
            }
            ""
        },
    }
}

} // verus!

//! Texts that carry numbers: chart badges in the selector and on the intro
//! screen, and the judgment counts of a play session.

use vstd::prelude::*;
use crate::labels::{difficulty_label, difficulty_name};
use crate::score::Tally;
use crate::text::{chars_of, digit_value, digits_value, is_ws, parse_unsigned, push_all, string_from_chars};

verus! {

/// The digit character of `d`.
pub open spec fn digit_char(d: nat) -> char {
    (d + 48) as char
}

/// The decimal digits of `n`, most significant first, with no leading zero.
pub open spec fn decimal(n: nat) -> Seq<char>
    decreases n,
{
    if n < 10 {
        seq![digit_char(n)]
    } else {
        decimal(n / 10).push(digit_char(n % 10))
    }
}

/// A number written in decimal reads back as itself: the text is a non-empty
/// run of ASCII digits, with no sign and no whitespace, and its value as a
/// base-10 number is `n`.
pub proof fn lemma_decimal_reads_back(n: nat)
    ensures
        decimal(n).len() > 0,
        forall|i: int| 0 <= i < decimal(n).len() ==> '0' <= #[trigger] decimal(n)[i] && decimal(n)[i] <= '9',
        forall|i: int| 0 <= i < decimal(n).len() ==> !is_ws(#[trigger] decimal(n)[i]),
        digits_value(decimal(n), 10) == Some(n),
        parse_unsigned(decimal(n), 10) == Some(n),
    decreases n,
{
    let d = digit_char(n % 10);
    assert(digit_value(d, 10) == Some(n % 10));
    if n >= 10 {
        lemma_decimal_reads_back(n / 10);
        let s = decimal(n);
        assert(s.drop_last() =~= decimal(n / 10));
        assert(forall|i: int| 0 <= i < s.len() - 1 ==> s[i] == decimal(n / 10)[i]);
        assert(s.last() == d);
        assert(digits_value(s, 10) == Some((n / 10) * 10 + n % 10));
        assert((n / 10) * 10 + n % 10 == n);
        assert(s[0] != '+');
    } else {
        let s = decimal(n);
        assert(s.drop_last() =~= Seq::<char>::empty());
        assert(digits_value(s.drop_last(), 10) == Some(0nat));
        assert(s.last() == d);
        assert(digits_value(s, 10) == Some(n));
        assert(s[0] != '+');
    }
}

/// Appends the decimal digits of `n`.
pub fn push_decimal(out: &mut Vec<char>, n: u64)
    ensures
        final(out)@ == old(out)@ + decimal(n as nat),
    decreases n,
{
    let ghost start = out@;
    if n >= 10 {
        push_decimal(out, n / 10);
    }
    let d: u8 = (n % 10) as u8;
    let c = (d + 48u8) as char;
    assert(c == digit_char((n % 10) as nat));
    out.push(c);
    assert(out@ =~= start + decimal(n as nat));
}

/// Appends the characters of `s`.
pub fn push_str(out: &mut Vec<char>, s: &str)
    ensures
        final(out)@ == old(out)@ + s@,
{
    let cs = chars_of(s);
    push_all(out, cs.as_slice());
}

/// `s` right-aligned in a field `width` characters wide.
pub open spec fn pad_left(s: Seq<char>, width: nat) -> Seq<char> {
    if s.len() >= width {
        s
    } else {
        Seq::new((width - s.len()) as nat, |i: int| ' ') + s
    }
}

/// `n` in decimal, right-aligned in a field `width` characters wide.
pub fn right_aligned(n: u64, width: usize) -> (r: String)
    ensures
        r@ == pad_left(decimal(n as nat), width as nat),
{
    let mut digits: Vec<char> = Vec::new();
    push_decimal(&mut digits, n);
    assert(digits@ =~= decimal(n as nat));
    let mut out: Vec<char> = Vec::new();
    let len = digits.len();
    if len < width {
        let pad = width - len;
        let mut k: usize = 0;
        while k < pad
            invariant
                k <= pad,
                out@ == Seq::new(k as nat, |i: int| ' '),
            decreases pad - k,
        {
            out.push(' ');
            k = k + 1;
            assert(out@ =~= Seq::new(k as nat, |i: int| ' '));
        }
    }
    push_all(&mut out, digits.as_slice());
    assert(out@ =~= pad_left(decimal(n as nat), width as nat));
    string_from_chars(out.as_slice())
}

/// The selector's badge for a chart: lane count, difficulty name when it has
/// one, level when given, and the BPM as `bpm_text` writes it, e.g.
/// `[5K NORMAL Lv3 BPM140]`.
pub open spec fn chart_badge_text(lanes: usize, difficulty: Option<u8>, level: Option<u8>, bpm_text: Seq<char>) -> Seq<char> {
    let name = difficulty_name(difficulty);
    seq!['['] + decimal(lanes as nat) + seq!['K'] + (if name.len() > 0 {
        seq![' '] + name
    } else {
        seq![]
    }) + (match level {
        Some(v) => seq![' ', 'L', 'v'] + decimal(v as nat),
        None => seq![],
    }) + seq![' ', 'B', 'P', 'M'] + bpm_text + seq![']']
}

/// The selector's badge for a chart; `bpm_text` is the BPM already rounded
/// to a whole number and written out.
pub fn chart_badge(lanes: usize, difficulty: Option<u8>, level: Option<u8>, bpm_text: &str) -> (r: String)
    ensures
        r@ == chart_badge_text(lanes, difficulty, level, bpm_text@),
{
    let mut out: Vec<char> = Vec::new();
    out.push('[');
    push_decimal(&mut out, lanes as u64);
    out.push('K');
    let ghost head = out@;
    let name = difficulty_label(difficulty);
    if name.unicode_len() > 0 {
        out.push(' ');
        push_str(&mut out, name);
    }
    let ghost with_name = out@;
    match level {
        Some(v) => {
            out.push(' ');
            out.push('L');
            out.push('v');
            push_decimal(&mut out, v as u64);
        },
        None => {},
    }
    let ghost with_level = out@;
    out.push(' ');
    out.push('B');
    out.push('P');
    out.push('M');
    push_str(&mut out, bpm_text);
    out.push(']');
    proof {
        let nm = difficulty_name(difficulty);
        let name_part = if nm.len() > 0 { seq![' '] + nm } else { Seq::<char>::empty() };
        let level_part = match level {
            Some(v) => seq![' ', 'L', 'v'] + decimal(v as nat),
            None => Seq::<char>::empty(),
        };
        assert(head =~= seq!['['] + decimal(lanes as nat) + seq!['K']);
        assert(with_name =~= head + name_part);
        assert(with_level =~= with_name + level_part);
        assert(out@ =~= chart_badge_text(lanes, difficulty, level, bpm_text@));
    }
    string_from_chars(out.as_slice())
}

/// The separator between the parts of the intro badge: a middle dot with
/// two spaces either side.
pub open spec fn badge_separator() -> Seq<char> {
    seq![' ', ' ', '\u{b7}', ' ', ' ']
}

/// The intro screen's badge: difficulty name when it has one, level when
/// given, the BPM as `bpm_text` writes it and the lane count, separated by
/// middle dots, e.g. `NORMAL  ·  Lv 4  ·  BPM 140  ·  5K`.
pub open spec fn intro_badge_text(lanes: usize, difficulty: Option<u8>, level: Option<u8>, bpm_text: Seq<char>) -> Seq<char> {
    let name = difficulty_name(difficulty);
    let name_part = if name.len() > 0 { name + badge_separator() } else { seq![] };
    let level_part = match level {
        Some(v) => seq!['L', 'v', ' '] + decimal(v as nat) + badge_separator(),
        None => seq![],
    };
    name_part + level_part + seq!['B', 'P', 'M', ' '] + bpm_text + badge_separator() + decimal(lanes as nat) + seq!['K']
}

fn push_separator(out: &mut Vec<char>)
    ensures
        final(out)@ == old(out)@ + badge_separator(),
{
    out.push(' ');
    out.push(' ');
    out.push('\u{b7}');
    out.push(' ');
    out.push(' ');
    assert(final(out)@ =~= old(out)@ + badge_separator());
}

/// The intro screen's badge; `bpm_text` is the BPM already rounded to a
/// whole number and written out.
pub fn intro_badge(lanes: usize, difficulty: Option<u8>, level: Option<u8>, bpm_text: &str) -> (r: String)
    ensures
        r@ == intro_badge_text(lanes, difficulty, level, bpm_text@),
{
    let mut out: Vec<char> = Vec::new();
    let name = difficulty_label(difficulty);
    if name.unicode_len() > 0 {
        push_str(&mut out, name);
        push_separator(&mut out);
    }
    let ghost with_name = out@;
    match level {
        Some(v) => {
            out.push('L');
            out.push('v');
            out.push(' ');
            push_decimal(&mut out, v as u64);
            push_separator(&mut out);
        },
        None => {},
    }
    let ghost with_level = out@;
    out.push('B');
    out.push('P');
    out.push('M');
    out.push(' ');
    push_str(&mut out, bpm_text);
    push_separator(&mut out);
    push_decimal(&mut out, lanes as u64);
    out.push('K');
    proof {
        let nm = difficulty_name(difficulty);
        let name_part = if nm.len() > 0 { nm + badge_separator() } else { Seq::<char>::empty() };
        let level_part = match level {
            Some(v) => seq!['L', 'v', ' '] + decimal(v as nat) + badge_separator(),
            None => Seq::<char>::empty(),
        };
        assert(with_name =~= name_part);
        assert(with_level =~= with_name + level_part);
        assert(out@ =~= intro_badge_text(lanes, difficulty, level, bpm_text@));
    }
    string_from_chars(out.as_slice())
}

/// The judgment counts of a session as the result screen lists them:
/// `perfect P   great G   good D   miss M`.
pub open spec fn summary_text(t: Tally) -> Seq<char> {
    seq!['p', 'e', 'r', 'f', 'e', 'c', 't', ' '] + decimal(t.perfect as nat) + seq![' ', ' ', ' ', 'g', 'r', 'e', 'a', 't', ' ']
        + decimal(t.great as nat) + seq![' ', ' ', ' ', 'g', 'o', 'o', 'd', ' '] + decimal(t.good as nat) + seq![
        ' ',
        ' ',
        ' ',
        'm',
        'i',
        's',
        's',
        ' ',
    ] + decimal(t.miss as nat)
}

/// The judgment counts of a session as the result screen lists them.
pub fn tally_summary(t: &Tally) -> (r: String)
    ensures
        r@ == summary_text(*t),
{
    let perfect = ['p', 'e', 'r', 'f', 'e', 'c', 't', ' '];
    let great = [' ', ' ', ' ', 'g', 'r', 'e', 'a', 't', ' '];
    let good = [' ', ' ', ' ', 'g', 'o', 'o', 'd', ' '];
    let miss = [' ', ' ', ' ', 'm', 'i', 's', 's', ' '];
    let mut out: Vec<char> = Vec::new();
    push_all(&mut out, &perfect);
    push_decimal(&mut out, t.perfect as u64);
    push_all(&mut out, &great);
    push_decimal(&mut out, t.great as u64);
    push_all(&mut out, &good);
    push_decimal(&mut out, t.good as u64);
    push_all(&mut out, &miss);
    push_decimal(&mut out, t.miss as u64);
    assert(out@ =~= summary_text(*t));
    string_from_chars(out.as_slice())
}

/// The four counter cells under the score line: `PERFECT P`, `GREAT G`,
/// `GOOD D`, `MISS M`.
pub open spec fn counter_texts(t: Tally) -> Seq<Seq<char>> {
    seq![
        seq!['P', 'E', 'R', 'F', 'E', 'C', 'T', ' '] + decimal(t.perfect as nat),
        seq!['G', 'R', 'E', 'A', 'T', ' '] + decimal(t.great as nat),
        seq!['G', 'O', 'O', 'D', ' '] + decimal(t.good as nat),
        seq!['M', 'I', 'S', 'S', ' '] + decimal(t.miss as nat),
    ]
}

fn counter_cell(label: &[char], n: u32) -> (r: String)
    ensures
        r@ == label@ + seq![' '] + decimal(n as nat),
{
    let mut out: Vec<char> = Vec::new();
    push_all(&mut out, label);
    out.push(' ');
    push_decimal(&mut out, n as u64);
    assert(out@ =~= label@ + seq![' '] + decimal(n as nat));
    string_from_chars(out.as_slice())
}

/// The four counter cells of a session.
pub fn counter_cells(t: &Tally) -> (r: Vec<String>)
    ensures
        r@.len() == 4,
        forall|i: int| 0 <= i < 4 ==> #[trigger] r@[i]@ == counter_texts(*t)[i],
{
    let perfect = ['P', 'E', 'R', 'F', 'E', 'C', 'T'];
    let great = ['G', 'R', 'E', 'A', 'T'];
    let good = ['G', 'O', 'O', 'D'];
    let miss = ['M', 'I', 'S', 'S'];
    let mut out: Vec<String> = Vec::new();
    let a = counter_cell(&perfect, t.perfect);
    let b = counter_cell(&great, t.great);
    let c = counter_cell(&good, t.good);
    let d = counter_cell(&miss, t.miss);
    assert(a@ =~= counter_texts(*t)[0]);
    assert(b@ =~= counter_texts(*t)[1]);
    assert(c@ =~= counter_texts(*t)[2]);
    assert(d@ =~= counter_texts(*t)[3]);
    out.push(a);
    out.push(b);
    out.push(c);
    out.push(d);
    out
}

} // verus!

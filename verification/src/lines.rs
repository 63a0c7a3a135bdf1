//! Line-level structure of a BMS text: header lines, `#CMD value` splits
//! and `#MMMCC:data` channel lines.

use vstd::prelude::*;
use crate::text::{
    chars_of, copy_range, find_ws, first_ws, is_ws, lemma_first_ws, lines_of, parse_unsigned_range,
    parse_u32, split_lines, string_from_chars, trim, trim_bounds, trim_start, upper_seq, upper_chars,
    views,
};

verus! {

/// The words of a header body: everything before the first whitespace, and
/// the rest starting at that whitespace.
pub open spec fn first_word_split(s: Seq<char>) -> (Seq<char>, Seq<char>) {
    (s.take(first_ws(s)), s.skip(first_ws(s)))
}

/// Splits `s` at its first whitespace character; the second part keeps it.
/// Without whitespace the second part is empty.
pub fn split_first_word(s: &str) -> (r: (&str, &str))
    ensures
        r.0@ == first_word_split(s@).0,
        r.1@ == first_word_split(s@).1,
{
    let cs = chars_of(s);
    let i = find_ws(cs.as_slice(), 0);
    proof {
        assert(cs@.subrange(0, cs@.len() as int) =~= cs@);
        lemma_first_ws(s@);
    }
    let n = cs.len();
    (s.substring_char(0, i), s.substring_char(i, n))
}

/// A header body split into its command and its value: the command runs to
/// the first whitespace, the value is the rest with leading whitespace
/// removed.
pub open spec fn cmd_value_split(s: Seq<char>) -> (Seq<char>, Seq<char>) {
    (s.take(first_ws(s)), trim_start(s.skip(first_ws(s)), false))
}

/// Splits a header body into its command and its value.
pub fn split_cmd_value(body: &str) -> (r: (&str, &str))
    ensures
        r.0@ == cmd_value_split(body@).0,
        r.1@ == cmd_value_split(body@).1,
{
    let cs = chars_of(body);
    let n = cs.len();
    let i = find_ws(cs.as_slice(), 0);
    proof {
        assert(cs@.subrange(0, n as int) =~= cs@);
        lemma_first_ws(body@);
    }
    let rest = copy_range(cs.as_slice(), i, n);
    let (a, _b) = trim_bounds(rest.as_slice(), false);
    assert(rest@.subrange(a as int, rest@.len() as int) =~= body@.subrange(i + a, n as int));
    (body.substring_char(0, i), body.substring_char(i + a, n))
}

/// The body of a header line: the line trimmed of whitespace and BOMs, when
/// it then starts with `'#'` followed by at least one more character.
pub open spec fn header_body(line: Seq<char>) -> Option<Seq<char>> {
    let t = trim(line, true);
    if t.len() >= 2 && t[0] == '#' {
        Some(t.drop_first())
    } else {
        None
    }
}

/// The header bodies of a list of lines, in order.
pub open spec fn header_bodies(lines: Seq<Seq<char>>) -> Seq<Seq<char>>
    decreases lines.len(),
{
    if lines.len() == 0 {
        seq![]
    } else {
        let rest = header_bodies(lines.drop_last());
        match header_body(lines.last()) {
            Some(b) => rest.push(b),
            None => rest,
        }
    }
}

/// The character sequences of a list of strings.
pub open spec fn string_views(v: Seq<String>) -> Seq<Seq<char>> {
    v.map_values(|s: String| s@)
}

fn header_body_exec(line: &[char]) -> (r: Option<Vec<char>>)
    ensures
        match header_body(line@) {
            Some(b) => r matches Some(v) && v@ == b,
            None => r is None,
        },
{
    let (a, b) = trim_bounds(line, true);
    if b - a >= 2 && line[a] == '#' {
        let body = copy_range(line, a + 1, b);
        assert(body@ =~= line@.subrange(a as int, b as int).drop_first());
        Some(body)
    } else {
        None
    }
}

/// The header bodies of a whole text: each line trimmed of whitespace and
/// BOMs, kept when it starts with `'#'` and has more after it, and returned
/// without that `'#'`.
pub fn header_lines(text: &str) -> (r: Vec<String>)
    ensures
        string_views(r@) == header_bodies(lines_of(text@)),
{
    let cs = chars_of(text);
    let lines = split_lines(cs.as_slice());
    let mut out: Vec<String> = Vec::new();
    let mut i: usize = 0;
    while i < lines.len()
        invariant
            i <= lines@.len(),
            views(lines@) == lines_of(text@),
            string_views(out@) == header_bodies(views(lines@).take(i as int)),
        decreases lines@.len() - i,
    {
        let ghost before = out@;
        assert(views(lines@).take(i + 1).drop_last() =~= views(lines@).take(i as int));
        assert(views(lines@).take(i + 1).last() == lines@[i as int]@);
        match header_body_exec(lines[i].as_slice()) {
            Some(body) => {
                let s = string_from_chars(body.as_slice());
                out.push(s);
                assert(string_views(out@) =~= string_views(before).push(s@));
            },
            None => {},
        }
        i = i + 1;
    }
    assert(views(lines@).take(lines@.len() as int) =~= views(lines@));
    out
}

/// Whether every character of `s` is ASCII.
pub open spec fn all_ascii(s: Seq<char>) -> bool {
    forall|k: int| 0 <= k < s.len() ==> s[k] <= '\u{7f}'
}

/// Whether a character is an ASCII letter or digit.
pub open spec fn is_ascii_alnum(c: char) -> bool {
    ('0' <= c && c <= '9') || ('a' <= c && c <= 'z') || ('A' <= c && c <= 'Z')
}

/// A channel line body `MMMCC:data`: an all-ASCII body of at least seven
/// characters whose first `':'` is at index 5, a three-character measure
/// that reads as a decimal `u32`, a two-character channel that is ASCII
/// alphanumeric (returned upper-cased), and the data after the colon,
/// trimmed.
pub open spec fn channel_line(b: Seq<char>) -> Option<(u32, Seq<char>, Seq<char>)> {
    if b.len() < 7 || !all_ascii(b) || !(b[5] == ':') || (exists|k: int|
        0 <= k < 5 && #[trigger] b[k] == ':') {
        None
    } else {
        let ch = upper_seq(b.subrange(3, 5));
        match parse_u32(b.subrange(0, 3), 10) {
            Some(m) => if is_ascii_alnum(ch[0]) && is_ascii_alnum(ch[1]) {
                Some((m, ch, trim(b.skip(6), false)))
            } else {
                None
            },
            None => None,
        }
    }
}

/// Parses a channel line body (the text after `'#'`) into measure, channel
/// and data.
pub fn parse_channel_line(body: &str) -> (r: Option<(u32, String, String)>)
    ensures
        match channel_line(body@) {
            Some((m, ch, data)) => r matches Some((m2, ch2, data2)) && m2 == m && ch2@ == ch && data2@
                == data,
            None => r is None,
        },
{
    let cs = chars_of(body);
    let n = cs.len();
    if n < 7 {
        return None;
    }
    let mut k: usize = 0;
    while k < n
        invariant
            k <= n,
            n == cs@.len(),
            cs@ == body@,
            forall|j: int| 0 <= j < k ==> cs@[j] <= '\u{7f}',
        decreases n - k,
    {
        if cs[k] > '\u{7f}' {
            return None;
        }
        k = k + 1;
    }
    let mut j: usize = 0;
    while j < 5
        invariant
            j <= 5,
            n == cs@.len(),
            n >= 7,
            cs@ == body@,
            forall|q: int| 0 <= q < j ==> cs@[q] != ':',
        decreases 5 - j,
    {
        if cs[j] == ':' {
            return None;
        }
        j = j + 1;
    }
    if cs[5] != ':' {
        return None;
    }
    let measure = match parse_unsigned_range(cs.as_slice(), 0, 3, 10, 0xffff_ffff) {
        Some(m) => m,
        None => {
            return None;
        },
    };
    let raw = copy_range(cs.as_slice(), 3, 5);
    let ch = upper_chars(raw.as_slice());
    let c0 = ch[0];
    let c1 = ch[1];
    if !(('0' <= c0 && c0 <= '9') || ('a' <= c0 && c0 <= 'z') || ('A' <= c0 && c0 <= 'Z')) {
        return None;
    }
    if !(('0' <= c1 && c1 <= '9') || ('a' <= c1 && c1 <= 'z') || ('A' <= c1 && c1 <= 'Z')) {
        return None;
    }
    let rest = copy_range(cs.as_slice(), 6, n);
    assert(rest@ =~= body@.skip(6));
    let (a, b) = trim_bounds(rest.as_slice(), false);
    let data = copy_range(rest.as_slice(), a, b);
    Some((measure, string_from_chars(ch.as_slice()), string_from_chars(data.as_slice())))
}

} // verus!

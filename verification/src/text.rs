//! Character-level text primitives: whitespace classes, trimming, ASCII
//! case folding, line splitting and unsigned number parsing, each stated as
//! a spec over `Seq<char>` and implemented over `Vec<char>`.

use vstd::prelude::*;

verus! {

/// Unicode `White_Space`, the class `char::is_whitespace` tests.
pub open spec fn is_ws(c: char) -> bool {
    ||| c == ' '
    ||| ('\t' <= c && c <= '\r')
    ||| c == '\u{85}'
    ||| c == '\u{a0}'
    ||| c == '\u{1680}'
    ||| ('\u{2000}' <= c && c <= '\u{200a}')
    ||| c == '\u{2028}'
    ||| c == '\u{2029}'
    ||| c == '\u{202f}'
    ||| c == '\u{205f}'
    ||| c == '\u{3000}'
}

/// The byte-order mark that some chart files start with.
pub open spec fn is_bom(c: char) -> bool {
    c == '\u{feff}'
}

/// Characters trimmed from a line: whitespace, and also the BOM when `bom` holds.
pub open spec fn is_trimmed(c: char, bom: bool) -> bool {
    is_ws(c) || (bom && is_bom(c))
}

/// Whether `c` is whitespace.
pub fn is_ws_char(c: char) -> (r: bool)
    ensures
        r == is_ws(c),
{
    c == ' ' || ('\t' <= c && c <= '\r') || c == '\u{85}' || c == '\u{a0}' || c == '\u{1680}'
        || ('\u{2000}' <= c && c <= '\u{200a}') || c == '\u{2028}' || c == '\u{2029}'
        || c == '\u{202f}' || c == '\u{205f}' || c == '\u{3000}'
}

fn is_trimmed_char(c: char, bom: bool) -> (r: bool)
    ensures
        r == is_trimmed(c, bom),
{
    is_ws_char(c) || (bom && c == '\u{feff}')
}

/// `s` without its leading trimmed characters.
pub open spec fn trim_start(s: Seq<char>, bom: bool) -> Seq<char>
    decreases s.len(),
{
    if s.len() > 0 && is_trimmed(s[0], bom) {
        trim_start(s.drop_first(), bom)
    } else {
        s
    }
}

/// `s` without its trailing trimmed characters.
pub open spec fn trim_end(s: Seq<char>, bom: bool) -> Seq<char>
    decreases s.len(),
{
    if s.len() > 0 && is_trimmed(s.last(), bom) {
        trim_end(s.drop_last(), bom)
    } else {
        s
    }
}

/// `s` without trimmed characters at either end.
pub open spec fn trim(s: Seq<char>, bom: bool) -> Seq<char> {
    trim_end(trim_start(s, bom), bom)
}

/// `s` without any leading BOMs.
pub open spec fn strip_boms(s: Seq<char>) -> Seq<char>
    decreases s.len(),
{
    if s.len() > 0 && is_bom(s[0]) {
        strip_boms(s.drop_first())
    } else {
        s
    }
}

/// ASCII upper-casing of one character (others unchanged).
pub open spec fn upper(c: char) -> char {
    if 'a' <= c && c <= 'z' {
        ((c as u32) - 32) as char
    } else {
        c
    }
}

/// ASCII upper-casing of a string.
pub open spec fn upper_seq(s: Seq<char>) -> Seq<char> {
    s.map_values(|c: char| upper(c))
}

/// `c` upper-cased if it is an ASCII letter.
pub fn upper_char(c: char) -> (r: char)
    ensures
        r == upper(c),
{
    if 'a' <= c && c <= 'z' {
        let u: u32 = (c as u32) - 32;
        assert(u <= 0x7f);
        // an ASCII code point is always a char
        char_from_ascii(u)
    } else {
        c
    }
}

fn char_from_ascii(u: u32) -> (c: char)
    requires
        u <= 0x7f,
    ensures
        c == u as char,
{
    let b: u8 = u as u8;
    b as char
}

/// Index of the first character of `s` satisfying `is_ws`, or `s.len()`.
pub open spec fn first_ws(s: Seq<char>) -> int
    decreases s.len(),
{
    if s.len() == 0 {
        0
    } else if is_ws(s[0]) {
        0
    } else {
        1 + first_ws(s.drop_first())
    }
}

/// Index of the first `'\n'` in `s`, or `s.len()`.
pub open spec fn first_newline(s: Seq<char>) -> int
    decreases s.len(),
{
    if s.len() == 0 {
        0
    } else if s[0] == '\n' {
        0
    } else {
        1 + first_newline(s.drop_first())
    }
}

/// Where the first newline of `s` is, and that none comes before it.
pub proof fn lemma_first_newline(s: Seq<char>)
    ensures
        0 <= first_newline(s) <= s.len(),
        forall|k: int| 0 <= k < first_newline(s) ==> s[k] != '\n',
        first_newline(s) < s.len() ==> s[first_newline(s)] == '\n',
    decreases s.len(),
{
    if s.len() > 0 && s[0] != '\n' {
        lemma_first_newline(s.drop_first());
        assert forall|k: int| 0 <= k < first_newline(s) implies s[k] != '\n' by {
            if k > 0 {
                assert(s[k] == s.drop_first()[k - 1]);
            }
        }
    }
}

/// Where the first whitespace of `s` is, and that none comes before it.
pub proof fn lemma_first_ws(s: Seq<char>)
    ensures
        0 <= first_ws(s) <= s.len(),
        forall|k: int| 0 <= k < first_ws(s) ==> !is_ws(#[trigger] s[k]),
        first_ws(s) < s.len() ==> is_ws(s[first_ws(s)]),
    decreases s.len(),
{
    if s.len() > 0 && !is_ws(s[0]) {
        lemma_first_ws(s.drop_first());
        assert forall|k: int| 0 <= k < first_ws(s) implies !is_ws(#[trigger] s[k]) by {
            if k > 0 {
                assert(s[k] == s.drop_first()[k - 1]);
            }
        }
    }
}

/// A line without the `'\r'` of a `"\r\n"` terminator.
pub open spec fn strip_cr(s: Seq<char>) -> Seq<char> {
    if s.len() > 0 && s.last() == '\r' {
        s.drop_last()
    } else {
        s
    }
}

/// The lines of a text as `str::lines` yields them: split at `'\n'`, a
/// `'\r'` right before a `'\n'` dropped, and no empty line after a final
/// terminator.
pub open spec fn lines_of(s: Seq<char>) -> Seq<Seq<char>>
    decreases s.len(),
{
    if s.len() == 0 {
        seq![]
    } else {
        let i = first_newline(s);
        proof {
            lemma_first_newline(s);
        }
        if i >= s.len() {
            seq![s]
        } else {
            seq![strip_cr(s.take(i))] + lines_of(s.skip(i + 1))
        }
    }
}

/// Value of `c` as a digit in `radix` (2..=36), as `char::to_digit` gives it.
pub open spec fn digit_value(c: char, radix: nat) -> Option<nat> {
    let v: int = if '0' <= c && c <= '9' {
        c as int - '0' as int
    } else if 'a' <= c && c <= 'z' {
        c as int - 'a' as int + 10
    } else if 'A' <= c && c <= 'Z' {
        c as int - 'A' as int + 10
    } else {
        99
    };
    if v < radix {
        Some(v as nat)
    } else {
        None
    }
}

/// Value of a string made only of `radix` digits (`Some(0)` when empty).
pub open spec fn digits_value(s: Seq<char>, radix: nat) -> Option<nat>
    decreases s.len(),
{
    if s.len() == 0 {
        Some(0)
    } else {
        match (digits_value(s.drop_last(), radix), digit_value(s.last(), radix)) {
            (Some(a), Some(d)) => Some(a * radix + d),
            _ => None,
        }
    }
}

/// What an unsigned `from_str_radix` reads before its range check: an
/// optional `'+'` and then at least one digit.
pub open spec fn parse_unsigned(s: Seq<char>, radix: nat) -> Option<nat> {
    let body = if s.len() > 0 && s[0] == '+' { s.drop_first() } else { s };
    if body.len() == 0 {
        None
    } else {
        digits_value(body, radix)
    }
}

/// `u32::from_str_radix(s, radix)` as an `Option`.
pub open spec fn parse_u32(s: Seq<char>, radix: nat) -> Option<u32> {
    match parse_unsigned(s, radix) {
        Some(v) => if v <= u32::MAX { Some(v as u32) } else { None },
        None => None,
    }
}

/// `u8::from_str_radix(s, 10)`, i.e. `s.parse::<u8>()`, as an `Option`.
pub open spec fn parse_u8(s: Seq<char>) -> Option<u8> {
    match parse_unsigned(s, 10) {
        Some(v) => if v <= u8::MAX { Some(v as u8) } else { None },
        None => None,
    }
}

/// Characters of a string slice.
pub fn chars_of(s: &str) -> (v: Vec<char>)
    ensures
        v@ == s@,
{
    broadcast use vstd::string::group_string_axioms;
    let mut it = s.chars();
    let mut v: Vec<char> = Vec::new();
    loop
        invariant
            v@ + vstd::std_specs::iter::IteratorSpec::remaining(&it) == s@,
        decreases s@.len() - v@.len(),
    {
        let ghost before = vstd::std_specs::iter::IteratorSpec::remaining(&it);
        match it.next() {
            Some(c) => {
                v.push(c);
                assert(v@ + vstd::std_specs::iter::IteratorSpec::remaining(&it) =~= s@) by {
                    assert(before =~= seq![c] + vstd::std_specs::iter::IteratorSpec::remaining(&it));
                }
            },
            None => {
                assert(v@ =~= s@);
                return v;
            },
        }
    }
}

/// A `String` holding exactly `chars`, built by `String`'s
/// `FromIterator<&char>` (`Iterator::collect`). The contract claims what
/// that impl documents: the string consists of the given characters in order.
#[verifier::external_body]
pub(crate) fn string_from_chars(chars: &[char]) -> (s: String)
    ensures
        s@ == chars@,
{
    chars.iter().collect()
}

/// The value of `c` as a digit in `radix`.
pub fn digit_of(c: char, radix: u32) -> (r: Option<u32>)
    requires
        2 <= radix <= 36,
    ensures
        match digit_value(c, radix as nat) {
            Some(v) => r == Some(v as u32),
            None => r is None,
        },
{
    let v: u32 = if '0' <= c && c <= '9' {
        (c as u32) - ('0' as u32)
    } else if 'a' <= c && c <= 'z' {
        (c as u32) - ('a' as u32) + 10
    } else if 'A' <= c && c <= 'Z' {
        (c as u32) - ('A' as u32) + 10
    } else {
        99
    };
    if v < radix {
        Some(v)
    } else {
        None
    }
}

/// Bounds `(a, b)` such that `s[a..b]` is `s` with trimmed characters
/// removed at both ends; `s[a..]` is `s` with them removed at the start.
pub fn trim_bounds(s: &[char], bom: bool) -> (r: (usize, usize))
    ensures
        r.0 <= r.1 <= s@.len(),
        trim_start(s@, bom) == s@.subrange(r.0 as int, s@.len() as int),
        trim(s@, bom) == s@.subrange(r.0 as int, r.1 as int),
{
    let n = s.len();
    let mut a: usize = 0;
    assert(s@.subrange(0, n as int) =~= s@);
    while a < n && is_trimmed_char(s[a], bom)
        invariant
            a <= n,
            n == s@.len(),
            trim_start(s@, bom) == trim_start(s@.subrange(a as int, n as int), bom),
        decreases n - a,
    {
        assert(s@.subrange(a as int, n as int).drop_first() =~= s@.subrange(a + 1, n as int));
        a = a + 1;
    }
    let ghost t = s@.subrange(a as int, n as int);
    assert(trim_start(t, bom) == t);
    let mut b: usize = n;
    while b > a && is_trimmed_char(s[b - 1], bom)
        invariant
            a <= b <= n,
            n == s@.len(),
            t == s@.subrange(a as int, n as int),
            trim_end(t, bom) == trim_end(s@.subrange(a as int, b as int), bom),
        decreases b,
    {
        assert(s@.subrange(a as int, b as int).drop_last() =~= s@.subrange(a as int, b - 1));
        b = b - 1;
    }
    (a, b)
}

/// Number of leading BOM characters of `s[from..]`; stripping them gives
/// `strip_boms`.
pub fn skip_boms(s: &[char], from: usize) -> (r: usize)
    requires
        from <= s@.len(),
    ensures
        from <= r <= s@.len(),
        strip_boms(s@.subrange(from as int, s@.len() as int)) == s@.subrange(r as int, s@.len() as int),
{
    let n = s.len();
    let mut a: usize = from;
    while a < n && s[a] == '\u{feff}'
        invariant
            from <= a <= n,
            n == s@.len(),
            strip_boms(s@.subrange(from as int, n as int)) == strip_boms(s@.subrange(a as int, n as int)),
        decreases n - a,
    {
        assert(s@.subrange(a as int, n as int).drop_first() =~= s@.subrange(a + 1, n as int));
        a = a + 1;
    }
    a
}

/// Index of the first whitespace character of `s[from..]` (relative to `s`),
/// or `s.len()` when there is none.
pub fn find_ws(s: &[char], from: usize) -> (r: usize)
    requires
        from <= s@.len(),
    ensures
        r == from + first_ws(s@.subrange(from as int, s@.len() as int)),
        from <= r <= s@.len(),
{
    let n = s.len();
    let mut i: usize = from;
    while i < n && !is_ws_char(s[i])
        invariant
            from <= i <= n,
            n == s@.len(),
            first_ws(s@.subrange(from as int, n as int)) == (i - from) + first_ws(s@.subrange(i as int, n as int)),
        decreases n - i,
    {
        assert(s@.subrange(i as int, n as int).drop_first() =~= s@.subrange(i + 1, n as int));
        i = i + 1;
    }
    i
}

/// ASCII upper-casing of a character sequence.
pub fn upper_chars(s: &[char]) -> (r: Vec<char>)
    ensures
        r@ == upper_seq(s@),
{
    let mut r: Vec<char> = Vec::new();
    let mut i: usize = 0;
    while i < s.len()
        invariant
            i <= s@.len(),
            r@ == upper_seq(s@.take(i as int)),
        decreases s@.len() - i,
    {
        r.push(upper_char(s[i]));
        i = i + 1;
        assert(r@ =~= upper_seq(s@.take(i as int)));
    }
    assert(s@.take(s@.len() as int) =~= s@);
    r
}

/// Whether `s` equals `lit`.
pub fn chars_eq(s: &[char], lit: &[char]) -> (r: bool)
    ensures
        r == (s@ == lit@),
{
    if s.len() != lit.len() {
        return false;
    }
    let mut i: usize = 0;
    while i < s.len()
        invariant
            s@.len() == lit@.len(),
            i <= s@.len(),
            forall|k: int| 0 <= k < i ==> s@[k] == lit@[k],
        decreases s@.len() - i,
    {
        if s[i] != lit[i] {
            return false;
        }
        i = i + 1;
    }
    assert(s@ =~= lit@);
    true
}

/// Whether `s` starts with `lit`.
pub fn chars_start_with(s: &[char], lit: &[char]) -> (r: bool)
    ensures
        r == (lit@.len() <= s@.len() && s@.take(lit@.len() as int) == lit@),
{
    if s.len() < lit.len() {
        return false;
    }
    let mut i: usize = 0;
    while i < lit.len()
        invariant
            lit@.len() <= s@.len(),
            i <= lit@.len(),
            forall|k: int| 0 <= k < i ==> s@[k] == lit@[k],
        decreases lit@.len() - i,
    {
        if s[i] != lit[i] {
            assert(s@.take(lit@.len() as int)[i as int] != lit@[i as int]);
            return false;
        }
        i = i + 1;
    }
    assert(s@.take(lit@.len() as int) =~= lit@);
    true
}

/// A readable number is at least the value of any of its prefixes.
pub proof fn lemma_digits_value_grows(s: Seq<char>, i: int, radix: nat)
    requires
        0 <= i <= s.len(),
        radix >= 1,
        digits_value(s.take(i), radix) is Some,
        digits_value(s, radix) is Some,
    ensures
        digits_value(s, radix).unwrap() >= digits_value(s.take(i), radix).unwrap(),
    decreases s.len() - i,
{
    if i < s.len() {
        let t = s.take(i + 1);
        assert(t.drop_last() =~= s.take(i));
        assert(digits_value(t, radix) is Some) by {
            lemma_digits_value_prefix(s, i + 1, radix);
        }
        let a = digits_value(s.take(i), radix).unwrap();
        let d = digit_value(t.last(), radix).unwrap();
        assert(a * radix + d >= a) by (nonlinear_arith)
            requires
                radix >= 1,
                a >= 0,
                d >= 0,
        ;
        lemma_digits_value_grows(s, i + 1, radix);
    } else {
        assert(s.take(i) =~= s);
    }
}

/// A prefix of a readable number is readable.
pub proof fn lemma_digits_value_prefix(s: Seq<char>, i: int, radix: nat)
    requires
        0 <= i <= s.len(),
        digits_value(s, radix) is Some,
    ensures
        digits_value(s.take(i), radix) is Some,
    decreases s.len() - i,
{
    if i < s.len() {
        lemma_digits_value_prefix(s, i + 1, radix);
        assert(s.take(i + 1).drop_last() =~= s.take(i));
    } else {
        assert(s.take(i) =~= s);
    }
}

/// `from_str_radix` for an unsigned type whose maximum is `max`, over `s[lo..hi]`.
pub fn parse_unsigned_range(s: &[char], lo: usize, hi: usize, radix: u32, max: u32) -> (r: Option<u32>)
    requires
        lo <= hi <= s@.len(),
        2 <= radix <= 36,
    ensures
        r == (match parse_unsigned(s@.subrange(lo as int, hi as int), radix as nat) {
            Some(v) => if v <= max { Some(v as u32) } else { None },
            None => None,
        }),
{
    let ghost whole = s@.subrange(lo as int, hi as int);
    let mut start = lo;
    if start < hi && s[start] == '+' {
        start = start + 1;
    }
    let ghost body = s@.subrange(start as int, hi as int);
    assert(body =~= (if whole.len() > 0 && whole[0] == '+' { whole.drop_first() } else { whole }));
    if start == hi {
        return None;
    }
    let mut acc: u64 = 0;
    let mut i: usize = start;
    while i < hi
        invariant
            lo <= start <= i <= hi <= s@.len(),
            2 <= radix <= 36,
            body == s@.subrange(start as int, hi as int),
            parse_unsigned(s@.subrange(lo as int, hi as int), radix as nat) == digits_value(body, radix as nat),
            acc <= max,
            digits_value(body.take(i - start), radix as nat) == Some(acc as nat),
        decreases hi - i,
    {
        let ghost pre = body.take(i - start);
        let ghost next = body.take(i - start + 1);
        assert(next.drop_last() =~= pre);
        assert(next.last() == s@[i as int]);
        match digit_of(s[i], radix) {
            None => {
                proof {
                    // a bad digit anywhere makes the whole body unreadable
                    assert(digits_value(next, radix as nat) is None);
                    if digits_value(body, radix as nat) is Some {
                        lemma_digits_value_prefix(body, i - start + 1, radix as nat);
                    }
                    assert(digits_value(body, radix as nat) is None);
                }
                return None;
            },
            Some(d) => {
                assert(acc * radix + d <= 0xffff_ffffu64 * 36 + 36) by (nonlinear_arith)
                    requires
                        acc <= 0xffff_ffffu64,
                        radix <= 36,
                        d < 36,
                ;
                let v: u64 = acc * (radix as u64) + (d as u64);
                assert(digits_value(next, radix as nat) == Some(v as nat));
                if v > max as u64 {
                    proof {
                        if digits_value(body, radix as nat) is Some {
                            lemma_digits_value_grows(body, i - start + 1, radix as nat);
                        }
                    }
                    return None;
                }
                acc = v;
                i = i + 1;
            },
        }
    }
    assert(body.take(hi - start) =~= body);
    Some(acc as u32)
}

/// Index of the first `'\n'` of `s[from..]` (relative to `s`), or `s.len()`.
pub fn find_newline(s: &[char], from: usize) -> (r: usize)
    requires
        from <= s@.len(),
    ensures
        r == from + first_newline(s@.subrange(from as int, s@.len() as int)),
        from <= r <= s@.len(),
{
    let n = s.len();
    let mut i: usize = from;
    while i < n && s[i] != '\n'
        invariant
            from <= i <= n,
            n == s@.len(),
            first_newline(s@.subrange(from as int, n as int)) == (i - from) + first_newline(
                s@.subrange(i as int, n as int),
            ),
        decreases n - i,
    {
        assert(s@.subrange(i as int, n as int).drop_first() =~= s@.subrange(i + 1, n as int));
        i = i + 1;
    }
    i
}

/// Appends all of `s` to `out`.
pub fn push_all(out: &mut Vec<char>, s: &[char])
    ensures
        final(out)@ == old(out)@ + s@,
{
    let ghost start = out@;
    let mut i: usize = 0;
    while i < s.len()
        invariant
            i <= s@.len(),
            out@ == start + s@.take(i as int),
        decreases s@.len() - i,
    {
        out.push(s[i]);
        i = i + 1;
        assert(out@ =~= start + s@.take(i as int));
    }
    assert(s@.take(s@.len() as int) =~= s@);
}

/// A copy of `s[a..b]`.
pub fn copy_range(s: &[char], a: usize, b: usize) -> (r: Vec<char>)
    requires
        a <= b <= s@.len(),
    ensures
        r@ == s@.subrange(a as int, b as int),
{
    let mut r: Vec<char> = Vec::new();
    let mut i: usize = a;
    while i < b
        invariant
            a <= i <= b <= s@.len(),
            r@ == s@.subrange(a as int, i as int),
        decreases b - i,
    {
        r.push(s[i]);
        i = i + 1;
        assert(r@ =~= s@.subrange(a as int, i as int));
    }
    r
}

/// The character sequences held by a vector of character vectors.
pub open spec fn views(v: Seq<Vec<char>>) -> Seq<Seq<char>> {
    v.map_values(|x: Vec<char>| x@)
}

/// The lines of a text, as `str::lines` splits them.
pub fn split_lines(s: &[char]) -> (r: Vec<Vec<char>>)
    ensures
        views(r@) == lines_of(s@),
{
    let n = s.len();
    let mut out: Vec<Vec<char>> = Vec::new();
    let mut start: usize = 0;
    assert(s@.subrange(0, n as int) =~= s@);
    while start < n
        invariant
            start <= n,
            n == s@.len(),
            lines_of(s@) == views(out@) + lines_of(s@.subrange(start as int, n as int)),
        decreases n - start,
    {
        let ghost t = s@.subrange(start as int, n as int);
        proof {
            lemma_first_newline(t);
        }
        let i = find_newline(s, start);
        if i == n {
            let line = copy_range(s, start, n);
            let ghost before = views(out@);
            out.push(line);
            assert(views(out@) =~= before.push(t));
            assert(lines_of(t) =~= seq![t]);
            assert(lines_of(s@.subrange(n as int, n as int)) =~= Seq::<Seq<char>>::empty());
            start = n;
        } else {
            let mut end = i;
            if end > start && s[end - 1] == '\r' {
                end = end - 1;
            }
            let line = copy_range(s, start, end);
            assert(line@ == strip_cr(t.take(i - start)));
            let ghost before = views(out@);
            out.push(line);
            assert(views(out@) =~= before.push(line@));
            assert(t.skip(i - start + 1) =~= s@.subrange(i + 1, n as int));
            assert(before + lines_of(t) =~= views(out@) + lines_of(s@.subrange(i + 1, n as int)));
            start = i + 1;
        }
    }
    assert(lines_of(s@.subrange(n as int, n as int)) =~= Seq::<Seq<char>>::empty());
    assert(views(out@) + Seq::<Seq<char>>::empty() =~= views(out@));
    out
}

} // verus!

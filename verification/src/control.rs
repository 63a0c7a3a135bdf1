//! `#RANDOM` / `#SETRANDOM` / `#IF` / `#ELSEIF` / `#ELSE` / `#ENDIF`
//! resolution: a pass over the chart text that keeps the lines of the
//! branches a seeded draw selects and drops every control line.

use vstd::prelude::*;
use crate::badges::{decimal, lemma_decimal_reads_back};
use crate::header::lemma_first_ws_after;
use crate::lines::first_word_split;
use crate::text::{
    chars_eq, chars_of, copy_range, find_ws, lines_of, parse_u32, parse_unsigned_range, skip_boms,
    split_lines, string_from_chars, strip_boms, trim, trim_bounds, upper_chars, upper_seq, views,
    lemma_first_ws, first_newline, first_ws, is_ws, lemma_first_newline, strip_cr, trim_end,
    trim_start, upper,
};

verus! {

/// The state of the draw: `xorshift64` with a zero state replaced by
/// `0xdeadbeef`.
pub open spec fn xorshift_next(s: u64) -> u64 {
    let x0: u64 = if s == 0 { 0xdeadbeef } else { s };
    let x1: u64 = x0 ^ (x0 << 13u64);
    let x2: u64 = x1 ^ (x1 >> 7u64);
    x2 ^ (x2 << 17u64)
}

/// Advances `state` and draws a number in `1..=n`.
pub fn xorshift_pick(state: &mut u64, n: u32) -> (r: u32)
    requires
        n > 0,
    ensures
        *final(state) == xorshift_next(*old(state)),
        r == (xorshift_next(*old(state)) % (n as u64)) + 1,
        1 <= r <= n,
{
    let mut x: u64 = *state;
    if x == 0 {
        x = 0xdeadbeef;
    }
    x = x ^ (x << 13u64);
    x = x ^ (x >> 7u64);
    x = x ^ (x << 17u64);
    *state = x;
    let m: u64 = x % (n as u64);
    (m as u32) + 1
}

/// One level of `#IF` nesting: whether a branch of it has been taken, and
/// whether the lines of the current branch are kept.
#[derive(Debug, Clone, Copy, PartialEq, Eq, Structural)]
pub struct IfLevel {
    pub matched_yet: bool,
    pub included: bool,
}

/// What a line means to the resolver.
#[derive(Debug, Clone, Copy, PartialEq, Eq, Structural)]
pub enum Directive {
    Random,
    SetRandom,
    If,
    ElseIf,
    Else,
    EndIf,
    Plain,
}

/// `RANDOM`: draws a number.
pub open spec fn kw_random() -> Seq<char> {
    seq!['R', 'A', 'N', 'D', 'O', 'M']
}

/// `SETRANDOM`: sets the number.
pub open spec fn kw_setrandom() -> Seq<char> {
    seq!['S', 'E', 'T', 'R', 'A', 'N', 'D', 'O', 'M']
}

/// `IF`: opens a branch taken when its argument is the number.
pub open spec fn kw_if() -> Seq<char> {
    seq!['I', 'F']
}

/// `ELSEIF`: an alternative branch.
pub open spec fn kw_elseif() -> Seq<char> {
    seq!['E', 'L', 'S', 'E', 'I', 'F']
}

/// `ELSE`: the branch taken when no other was.
pub open spec fn kw_else() -> Seq<char> {
    seq!['E', 'L', 'S', 'E']
}

/// `ENDIF`: closes the innermost `IF`.
pub open spec fn kw_endif() -> Seq<char> {
    seq!['E', 'N', 'D', 'I', 'F']
}

/// `END`: closes the innermost `IF`, like `ENDIF`.
pub open spec fn kw_end() -> Seq<char> {
    seq!['E', 'N', 'D']
}

/// A line trimmed of whitespace and then of leading BOMs.
pub open spec fn control_trimmed(line: Seq<char>) -> Seq<char> {
    strip_boms(trim(line, false))
}

/// The command word of a control line, upper-cased (empty for other lines).
pub open spec fn control_head(line: Seq<char>) -> Seq<char> {
    let t = control_trimmed(line);
    if t.len() > 0 && t[0] == '#' {
        upper_seq(first_word_split(t.drop_first()).0)
    } else {
        seq![]
    }
}

/// The argument text of a control line: what follows the command word.
pub open spec fn control_rest(line: Seq<char>) -> Seq<char> {
    let t = control_trimmed(line);
    if t.len() > 0 && t[0] == '#' {
        first_word_split(t.drop_first()).1
    } else {
        seq![]
    }
}

/// Classifies a line by its upper-cased command word.
pub open spec fn directive_of(line: Seq<char>) -> Directive {
    let t = control_trimmed(line);
    let up = control_head(line);
    if !(t.len() > 0 && t[0] == '#') {
        Directive::Plain
    } else if up == kw_random() {
        Directive::Random
    } else if up == kw_setrandom() {
        Directive::SetRandom
    } else if up == kw_if() {
        Directive::If
    } else if up == kw_elseif() {
        Directive::ElseIf
    } else if up == kw_else() {
        Directive::Else
    } else if up == kw_endif() || up == kw_end() {
        Directive::EndIf
    } else {
        Directive::Plain
    }
}

/// The number a control line carries: its argument, trimmed, as a decimal `u32`.
pub open spec fn control_arg(line: Seq<char>) -> Option<u32> {
    parse_u32(trim(control_rest(line), false), 10)
}

/// Whether lines are currently kept: every open `#IF` level is included.
pub open spec fn is_active(stack: Seq<IfLevel>) -> bool {
    forall|k: int| 0 <= k < stack.len() ==> (#[trigger] stack[k]).included
}

/// Whether a branch condition holds: a number has been drawn and the line's
/// argument equals it.
pub open spec fn branch_matches(pick: Option<u32>, line: Seq<char>) -> bool {
    match pick {
        Some(p) => control_arg(line) == Some(p),
        None => false,
    }
}

/// The resolver's state: the generator, the current drawn number and the
/// `#IF` stack.
pub struct ControlState {
    pub rng: u64,
    pub pick: Option<u32>,
    pub stack: Seq<IfLevel>,
}

/// The resolver's state before the first line, for a seed.
pub open spec fn control_start(seed: u64) -> ControlState {
    ControlState {
        rng: ((seed as int + 0x9E3779B97F4A7C15int) % 0x1_0000_0000_0000_0000int) as u64,
        pick: None,
        stack: seq![],
    }
}

/// One line through the resolver: the next state, and whether the line is kept.
pub open spec fn control_step(st: ControlState, line: Seq<char>) -> (ControlState, bool) {
    match directive_of(line) {
        Directive::Random => {
            if is_active(st.stack) && control_arg(line) is Some && control_arg(line).unwrap() > 0 {
                let n = control_arg(line).unwrap();
                let x = xorshift_next(st.rng);
                (ControlState { rng: x, pick: Some(((x % (n as u64)) + 1) as u32), ..st }, false)
            } else {
                (st, false)
            }
        },
        Directive::SetRandom => {
            if is_active(st.stack) && control_arg(line) is Some {
                (ControlState { pick: control_arg(line), ..st }, false)
            } else {
                (st, false)
            }
        },
        Directive::If => {
            let ok = branch_matches(st.pick, line);
            (ControlState { stack: st.stack.push(IfLevel { matched_yet: ok, included: ok }), ..st }, false)
        },
        Directive::ElseIf => {
            if st.stack.len() == 0 {
                (st, false)
            } else {
                let top = st.stack.last();
                let new_top = if top.matched_yet {
                    IfLevel { matched_yet: true, included: false }
                } else {
                    let ok = branch_matches(st.pick, line);
                    IfLevel { matched_yet: ok, included: ok }
                };
                (ControlState { stack: st.stack.drop_last().push(new_top), ..st }, false)
            }
        },
        Directive::Else => {
            if st.stack.len() == 0 {
                (st, false)
            } else {
                let top = st.stack.last();
                let new_top = IfLevel { matched_yet: true, included: !top.matched_yet };
                (ControlState { stack: st.stack.drop_last().push(new_top), ..st }, false)
            }
        },
        Directive::EndIf => {
            if st.stack.len() == 0 {
                (st, false)
            } else {
                (ControlState { stack: st.stack.drop_last(), ..st }, false)
            }
        },
        Directive::Plain => (st, is_active(st.stack)),
    }
}

/// A list of lines through the resolver: the final state and the kept lines,
/// each followed by `'\n'`.
pub open spec fn control_run(lines: Seq<Seq<char>>, st: ControlState) -> (ControlState, Seq<char>)
    decreases lines.len(),
{
    if lines.len() == 0 {
        (st, seq![])
    } else {
        let (mid, out) = control_run(lines.drop_last(), st);
        let (next, keep) = control_step(mid, lines.last());
        (next, if keep { out + lines.last() + seq!['\n'] } else { out })
    }
}

/// The chart text with control flow resolved for `seed`.
pub open spec fn resolved_text(text: Seq<char>, seed: u64) -> Seq<char> {
    control_run(lines_of(text), control_start(seed)).1
}

/// Bounds of the control-trimmed part of a line.
fn control_trim_bounds(line: &[char]) -> (r: (usize, usize))
    ensures
        r.0 <= r.1 <= line@.len(),
        line@.subrange(r.0 as int, r.1 as int) == control_trimmed(line@),
{
    let (a, b) = trim_bounds(line, false);
    let t = copy_range(line, a, b);
    let k = skip_boms(t.as_slice(), 0);
    assert(t@.subrange(0, t@.len() as int) =~= t@);
    assert(t@.subrange(k as int, t@.len() as int) =~= line@.subrange(a + k, b as int));
    (a + k, b)
}

/// The directive a line holds and the number it carries.
fn classify(line: &[char]) -> (r: (Directive, Option<u32>))
    ensures
        r.0 == directive_of(line@),
        r.1 == control_arg(line@),
{
    let (a, b) = control_trim_bounds(line);
    let ghost t = control_trimmed(line@);
    if !(a < b && line[a] == '#') {
        let ghost rest = control_rest(line@);
        assert(rest =~= Seq::<char>::empty());
        assert(trim(rest, false) =~= Seq::<char>::empty());
        return (Directive::Plain, None);
    }
    let body = copy_range(line, a + 1, b);
    assert(body@ =~= t.drop_first());
    let i = find_ws(body.as_slice(), 0);
    proof {
        assert(body@.subrange(0, body@.len() as int) =~= body@);
        lemma_first_ws(body@);
    }
    let head = copy_range(body.as_slice(), 0, i);
    let rest = copy_range(body.as_slice(), i, body.len());
    assert(head@ =~= first_word_split(body@).0);
    assert(rest@ =~= first_word_split(body@).1);
    let up = upper_chars(head.as_slice());
    let (ra, rb) = trim_bounds(rest.as_slice(), false);
    let arg = parse_unsigned_range(rest.as_slice(), ra, rb, 10, 0xffff_ffff);
    let k_random = ['R', 'A', 'N', 'D', 'O', 'M'];
    let k_setrandom = ['S', 'E', 'T', 'R', 'A', 'N', 'D', 'O', 'M'];
    let k_if = ['I', 'F'];
    let k_elseif = ['E', 'L', 'S', 'E', 'I', 'F'];
    let k_else = ['E', 'L', 'S', 'E'];
    let k_endif = ['E', 'N', 'D', 'I', 'F'];
    let k_end = ['E', 'N', 'D'];
    assert(k_random@ =~= kw_random());
    assert(k_setrandom@ =~= kw_setrandom());
    assert(k_if@ =~= kw_if());
    assert(k_elseif@ =~= kw_elseif());
    assert(k_else@ =~= kw_else());
    assert(k_endif@ =~= kw_endif());
    assert(k_end@ =~= kw_end());
    let d = if chars_eq(up.as_slice(), &k_random) {
        Directive::Random
    } else if chars_eq(up.as_slice(), &k_setrandom) {
        Directive::SetRandom
    } else if chars_eq(up.as_slice(), &k_if) {
        Directive::If
    } else if chars_eq(up.as_slice(), &k_elseif) {
        Directive::ElseIf
    } else if chars_eq(up.as_slice(), &k_else) {
        Directive::Else
    } else if chars_eq(up.as_slice(), &k_endif) || chars_eq(up.as_slice(), &k_end) {
        Directive::EndIf
    } else {
        Directive::Plain
    };
    (d, arg)
}

/// Whether every level of the stack is included.
fn stack_active(stack: &Vec<IfLevel>) -> (r: bool)
    ensures
        r == is_active(stack@),
{
    let mut k: usize = 0;
    while k < stack.len()
        invariant
            k <= stack@.len(),
            forall|j: int| 0 <= j < k ==> (#[trigger] stack@[j]).included,
        decreases stack@.len() - k,
    {
        if !stack[k].included {
            return false;
        }
        k = k + 1;
    }
    true
}

/// Resolves the control flow of a chart text: control lines are dropped,
/// other lines are kept (each followed by `'\n'`) while every enclosing
/// `#IF` branch is selected. `#RANDOM n` draws from a generator seeded with
/// `seed`; `#SETRANDOM n` sets the drawn number directly.
pub fn resolve_control_flow(text: &str, seed: u64) -> (r: String)
    ensures
        r@ == resolved_text(text@, seed),
{
    let cs = chars_of(text);
    let lines = split_lines(cs.as_slice());
    let mut rng: u64 = seed.wrapping_add(0x9E3779B97F4A7C15);
    let mut pick: Option<u32> = None;
    let mut stack: Vec<IfLevel> = Vec::new();
    let mut out: Vec<char> = Vec::new();
    let mut i: usize = 0;
    while i < lines.len()
        invariant
            i <= lines@.len(),
            views(lines@) == lines_of(text@),
            ({
                let (st, o) = control_run(views(lines@).take(i as int), control_start(seed));
                st.rng == rng && st.pick == pick && st.stack == stack@ && o == out@
            }),
        decreases lines@.len() - i,
    {
        assert(views(lines@).take(i + 1).drop_last() =~= views(lines@).take(i as int));
        assert(views(lines@).take(i + 1).last() == lines@[i as int]@);
        let line = &lines[i];
        let (d, arg) = classify(line.as_slice());
        let active = stack_active(&stack);
        match d {
            Directive::Random => {
                if active {
                    match arg {
                        Some(n) => {
                            if n > 0 {
                                pick = Some(xorshift_pick(&mut rng, n));
                            }
                        },
                        None => {},
                    }
                }
            },
            Directive::SetRandom => {
                if active {
                    match arg {
                        Some(n) => {
                            pick = Some(n);
                        },
                        None => {},
                    }
                }
            },
            Directive::If => {
                let ok = match pick {
                    Some(p) => match arg {
                        Some(v) => v == p,
                        None => false,
                    },
                    None => false,
                };
                stack.push(IfLevel { matched_yet: ok, included: ok });
            },
            Directive::ElseIf => {
                let len = stack.len();
                if len > 0 {
                    let top = stack[len - 1];
                    let new_top = if top.matched_yet {
                        IfLevel { matched_yet: true, included: false }
                    } else {
                        let ok = match pick {
                            Some(p) => match arg {
                                Some(v) => v == p,
                                None => false,
                            },
                            None => false,
                        };
                        IfLevel { matched_yet: ok, included: ok }
                    };
                    let ghost old_stack = stack@;
                    stack.set(len - 1, new_top);
                    assert(stack@ =~= old_stack.drop_last().push(new_top));
                }
            },
            Directive::Else => {
                let len = stack.len();
                if len > 0 {
                    let top = stack[len - 1];
                    let ghost old_stack = stack@;
                    let new_top = IfLevel { matched_yet: true, included: !top.matched_yet };
                    stack.set(len - 1, new_top);
                    assert(stack@ =~= old_stack.drop_last().push(new_top));
                }
            },
            Directive::EndIf => {
                let _ = stack.pop();
            },
            Directive::Plain => {
                if active {
                    let ghost before = out@;
                    let mut k: usize = 0;
                    while k < line.len()
                        invariant
                            k <= line@.len(),
                            out@ == before + line@.take(k as int),
                        decreases line@.len() - k,
                    {
                        out.push(line[k]);
                        k = k + 1;
                        assert(out@ =~= before + line@.take(k as int));
                    }
                    out.push('\n');
                    assert(line@.take(line@.len() as int) =~= line@);
                    assert(out@ =~= before + line@ + seq!['\n']);
                }
            },
        }
        i = i + 1;
    }
    assert(views(lines@).take(lines@.len() as int) =~= views(lines@));
    string_from_chars(out.as_slice())
}

/// The lines joined back into a text, each followed by `'\n'`.
pub open spec fn joined_lines(lines: Seq<Seq<char>>) -> Seq<char>
    decreases lines.len(),
{
    if lines.len() == 0 {
        seq![]
    } else {
        joined_lines(lines.drop_last()) + lines.last() + seq!['\n']
    }
}

proof fn lemma_plain_lines_run(lines: Seq<Seq<char>>, st: ControlState)
    requires
        st.stack.len() == 0,
        forall|k: int| 0 <= k < lines.len() ==> directive_of(#[trigger] lines[k]) == Directive::Plain,
    ensures
        control_run(lines, st).0 == st,
        control_run(lines, st).1 == joined_lines(lines),
    decreases lines.len(),
{
    if lines.len() > 0 {
        let init = lines.drop_last();
        assert forall|k: int| 0 <= k < init.len() implies directive_of(#[trigger] init[k]) == Directive::Plain by {
            assert(init[k] == lines[k]);
        }
        lemma_plain_lines_run(init, st);
        assert(directive_of(lines[lines.len() - 1]) == Directive::Plain);
        assert(is_active(st.stack));
    }
}

/// Joining the lines of a text that has no `'\r'` and is empty or ends with
/// `'\n'` gives the text back.
pub proof fn lemma_join_lines_of(s: Seq<char>)
    requires
        forall|k: int| 0 <= k < s.len() ==> s[k] != '\r',
        s.len() == 0 || s.last() == '\n',
    ensures
        joined_lines(lines_of(s)) == s,
    decreases s.len(),
{
    if s.len() > 0 {
        crate::text::lemma_first_newline(s);
        let i = crate::text::first_newline(s);
        assert(i < s.len());
        let rest = s.skip(i + 1);
        assert forall|k: int| 0 <= k < rest.len() implies rest[k] != '\r' by {
            assert(rest[k] == s[k + i + 1]);
        }
        if rest.len() > 0 {
            assert(rest.last() == s.last());
        }
        lemma_join_lines_of(rest);
        let head = crate::text::strip_cr(s.take(i));
        assert(head == s.take(i)) by {
            if i > 0 {
                assert(s.take(i).last() == s[i - 1]);
            }
        }
        lemma_join_prepend(head, lines_of(rest));
        assert(lines_of(s) == seq![head] + lines_of(rest));
        assert(s =~= head + seq!['\n'] + rest);
    }
}

proof fn lemma_join_prepend(head: Seq<char>, lines: Seq<Seq<char>>)
    ensures
        joined_lines(seq![head] + lines) == head + seq!['\n'] + joined_lines(lines),
    decreases lines.len(),
{
    if lines.len() == 0 {
        assert(seq![head] + lines =~= seq![head]);
        assert(seq![head].drop_last() =~= Seq::<Seq<char>>::empty());
        assert(head + seq!['\n'] + joined_lines(lines) =~= joined_lines(Seq::<Seq<char>>::empty()) + head
            + seq!['\n']);
    } else {
        let all = seq![head] + lines;
        assert(all.drop_last() =~= seq![head] + lines.drop_last());
        assert(all.last() == lines.last());
        lemma_join_prepend(head, lines.drop_last());
        assert(head + seq!['\n'] + joined_lines(lines) =~= head + seq!['\n'] + joined_lines(lines.drop_last())
            + lines.last() + seq!['\n']);
    }
}

/// A text without control lines passes through unchanged: every line is
/// kept, each followed by `'\n'`, whatever the seed. In particular a text
/// without `'\r'` that ends with `'\n'` (or is empty) comes back as it was.
pub proof fn lemma_plain_text_passes_through(text: Seq<char>, seed: u64)
    requires
        forall|k: int|
            0 <= k < lines_of(text).len() ==> directive_of(#[trigger] lines_of(text)[k]) == Directive::Plain,
    ensures
        resolved_text(text, seed) == joined_lines(lines_of(text)),
        (forall|k: int| 0 <= k < text.len() ==> text[k] != '\r') && (text.len() == 0 || text.last()
            == '\n') ==> resolved_text(text, seed) == text,
{
    lemma_plain_lines_run(lines_of(text), control_start(seed));
    if (forall|k: int| 0 <= k < text.len() ==> text[k] != '\r') && (text.len() == 0 || text.last()
        == '\n') {
        lemma_join_lines_of(text);
    }
}

/// The lines the resolver keeps from `lines` starting in state `st`, in order.
pub open spec fn kept_lines(lines: Seq<Seq<char>>, st: ControlState) -> Seq<Seq<char>>
    decreases lines.len(),
{
    if lines.len() == 0 {
        seq![]
    } else {
        let prev = kept_lines(lines.drop_last(), st);
        let mid = control_run(lines.drop_last(), st).0;
        if control_step(mid, lines.last()).1 {
            prev.push(lines.last())
        } else {
            prev
        }
    }
}

proof fn lemma_kept_lines(lines: Seq<Seq<char>>, st: ControlState)
    ensures
        control_run(lines, st).1 == joined_lines(kept_lines(lines, st)),
        forall|k: int|
            0 <= k < kept_lines(lines, st).len() ==> directive_of(#[trigger] kept_lines(lines, st)[k])
                == Directive::Plain,
        forall|k: int|
            0 <= k < kept_lines(lines, st).len() ==> lines.contains(#[trigger] kept_lines(lines, st)[k]),
    decreases lines.len(),
{
    if lines.len() > 0 {
        let init = lines.drop_last();
        lemma_kept_lines(init, st);
        let prev = kept_lines(init, st);
        let ks = kept_lines(lines, st);
        let mid = control_run(init, st).0;
        let last = lines.last();
        if control_step(mid, last).1 {
            assert(directive_of(last) == Directive::Plain);
            assert(ks.drop_last() =~= prev);
            assert forall|k: int| 0 <= k < ks.len() implies directive_of(#[trigger] ks[k]) == Directive::Plain by {
                if k < prev.len() {
                    assert(ks[k] == prev[k]);
                }
            }
            assert forall|k: int| 0 <= k < ks.len() implies lines.contains(#[trigger] ks[k]) by {
                if k < prev.len() {
                    assert(ks[k] == prev[k]);
                    assert(init.contains(prev[k]));
                    let j = choose|j: int| 0 <= j < init.len() && init[j] == prev[k];
                    assert(lines[j] == init[j]);
                } else {
                    assert(lines[lines.len() - 1] == last);
                }
            }
        } else {
            assert forall|k: int| 0 <= k < ks.len() implies lines.contains(#[trigger] ks[k]) by {
                assert(init.contains(prev[k]));
                let j = choose|j: int| 0 <= j < init.len() && init[j] == prev[k];
                assert(lines[j] == init[j]);
            }
        }
    }
}

/// No control line survives resolution: the resolved text is a selection of
/// the text's lines, in their order, each followed by `'\n'`, and every one of
/// them is an ordinary line (no `#RANDOM`, `#SETRANDOM`, `#IF`, `#ELSEIF`,
/// `#ELSE`, `#ENDIF` or `#END`).
pub proof fn lemma_resolved_text_is_plain(text: Seq<char>, seed: u64)
    ensures
        ({
            let ks = kept_lines(lines_of(text), control_start(seed));
            &&& resolved_text(text, seed) == joined_lines(ks)
            &&& forall|k: int| 0 <= k < ks.len() ==> directive_of(#[trigger] ks[k]) == Directive::Plain
            &&& forall|k: int| 0 <= k < ks.len() ==> lines_of(text).contains(#[trigger] ks[k])
        }),
{
    lemma_kept_lines(lines_of(text), control_start(seed));
}

/// Running the resolver over two runs of lines is running it over the first
/// and then, from where it stopped, over the second.
proof fn lemma_run_append(a: Seq<Seq<char>>, b: Seq<Seq<char>>, st: ControlState)
    ensures
        control_run(a + b, st) == ({
            let (mid, out1) = control_run(a, st);
            let (end, out2) = control_run(b, mid);
            (end, out1 + out2)
        }),
    decreases b.len(),
{
    if b.len() == 0 {
        assert(a + b =~= a);
        assert(control_run(a, st).1 + Seq::<char>::empty() =~= control_run(a, st).1);
    } else {
        assert((a + b).drop_last() =~= a + b.drop_last());
        assert((a + b).last() == b.last());
        lemma_run_append(a, b.drop_last(), st);
        let (mid, out1) = control_run(a, st);
        let (m2, o2) = control_run(b.drop_last(), mid);
        let (next, keep) = control_step(m2, b.last());
        if keep {
            assert(out1 + o2 + b.last() + seq!['\n'] =~= out1 + (o2 + b.last() + seq!['\n']));
        }
    }
}

/// Ordinary lines leave the resolver's state alone and are kept exactly
/// when every open level is included.
proof fn lemma_plain_run(lines: Seq<Seq<char>>, st: ControlState)
    requires
        forall|k: int| 0 <= k < lines.len() ==> directive_of(#[trigger] lines[k]) == Directive::Plain,
    ensures
        control_run(lines, st) == (st, if is_active(st.stack) { joined_lines(lines) } else { Seq::<char>::empty() }),
    decreases lines.len(),
{
    if lines.len() > 0 {
        let init = lines.drop_last();
        assert forall|k: int| 0 <= k < init.len() implies directive_of(#[trigger] init[k]) == Directive::Plain by {
            assert(init[k] == lines[k]);
        }
        lemma_plain_run(init, st);
        assert(directive_of(lines[lines.len() - 1]) == Directive::Plain);
    }
}

proof fn lemma_run_one(x: Seq<char>, st: ControlState)
    ensures
        control_run(seq![x], st) == (control_step(st, x).0, if control_step(st, x).1 {
            x + seq!['\n']
        } else {
            Seq::<char>::empty()
        }),
{
    let one = seq![x];
    assert(one.drop_last() =~= Seq::<Seq<char>>::empty());
    assert(one.last() == x);
    assert(one.len() == 1);
    assert(control_run(one.drop_last(), st) == (st, Seq::<char>::empty()));
    assert(Seq::<char>::empty() + x + seq!['\n'] =~= x + seq!['\n']);
}

/// A text made of lines without line breaks splits back into those lines.
proof fn lemma_lines_of_joined(ls: Seq<Seq<char>>)
    requires
        forall|k: int, i: int|
            0 <= k < ls.len() && 0 <= i < ls[k].len() ==> #[trigger] ls[k][i] != '\n' && ls[k][i] != '\r',
    ensures
        lines_of(joined_lines(ls)) == ls,
    decreases ls.len(),
{
    if ls.len() > 0 {
        let h = ls[0];
        let rest = ls.drop_first();
        assert(seq![h] + rest =~= ls);
        lemma_join_prepend(h, rest);
        assert forall|k: int, i: int| 0 <= k < rest.len() && 0 <= i < rest[k].len() implies #[trigger] rest[k][i]
            != '\n' && rest[k][i] != '\r' by {
            assert(rest[k] == ls[k + 1]);
        }
        lemma_lines_of_joined(rest);
        let t = joined_lines(rest);
        let s = h + seq!['\n'] + t;
        lemma_first_newline(s);
        let i = first_newline(s);
        assert(s[h.len() as int] == '\n');
        assert(i == h.len()) by {
            if i < h.len() {
                assert(s[i] == h[i]);
                assert(h[i] == ls[0][i]);
            }
        }
        assert(s.take(i) =~= h);
        assert(strip_cr(h) == h) by {
            if h.len() > 0 {
                assert(h.last() == ls[0][h.len() - 1]);
            }
        }
        assert(s.skip(i + 1) =~= t);
        assert(lines_of(s) =~= seq![h] + rest);
    }
}

/// A text that starts and ends with non-whitespace is its own trim, and one
/// that starts with `'#'` has no BOM to strip.
proof fn lemma_trim_fixed(line: Seq<char>)
    requires
        line.len() > 0,
        line[0] == '#',
        !is_ws(line.last()),
    ensures
        control_trimmed(line) == line,
{
    assert(trim_start(line, false) == line);
    assert(trim_end(line, false) == line);
    assert(strip_boms(line) == line);
}

/// The decimal digits of `n` trimmed are themselves, and read back as `n`.
proof fn lemma_decimal_arg(n: nat)
    requires
        n <= u32::MAX,
    ensures
        trim(seq![' '] + decimal(n), false) == decimal(n),
        parse_u32(decimal(n), 10) == Some(n as u32),
        decimal(n).len() > 0,
        !is_ws(decimal(n)[0]),
        !is_ws(decimal(n).last()),
        forall|i: int| 0 <= i < decimal(n).len() ==> #[trigger] decimal(n)[i] != '\n' && decimal(n)[i] != '\r',
{
    let d = decimal(n);
    lemma_decimal_reads_back(n);
    assert(!is_ws(d[0]));
    assert(!is_ws(d.last()));
    assert((seq![' '] + d).drop_first() =~= d);
    assert(trim_start(seq![' '] + d, false) == trim_start(d, false));
    assert(trim_start(d, false) == d);
    assert(trim_end(d, false) == d);
}

/// The command word and the rest of `cmd` followed by one space and `d`.
proof fn lemma_command_split(cmd: Seq<char>, d: Seq<char>)
    requires
        forall|i: int| 0 <= i < cmd.len() ==> 'A' <= #[trigger] cmd[i] && cmd[i] <= 'Z',
    ensures
        first_word_split(cmd + (seq![' '] + d)) == (cmd, seq![' '] + d),
        upper_seq(cmd) == cmd,
{
    let body = cmd + (seq![' '] + d);
    assert forall|i: int| 0 <= i < cmd.len() implies !is_ws(#[trigger] cmd[i]) by {}
    lemma_first_ws_after(cmd, seq![' '] + d);
    assert(first_ws(seq![' '] + d) == 0);
    assert(body.take(cmd.len() as int) =~= cmd);
    assert(body.skip(cmd.len() as int) =~= seq![' '] + d);
    assert forall|i: int| 0 <= i < cmd.len() implies #[trigger] upper(cmd[i]) == cmd[i] by {}
    assert(upper_seq(cmd) =~= cmd);
}

/// A control line `#<cmd> <n>`: its command word is `cmd` and its argument
/// `n`.
proof fn lemma_control_line(cmd: Seq<char>, n: nat)
    requires
        cmd.len() > 0,
        forall|i: int| 0 <= i < cmd.len() ==> 'A' <= #[trigger] cmd[i] && cmd[i] <= 'Z',
        n <= u32::MAX,
    ensures
        ({
            let line = seq!['#'] + cmd + seq![' '] + decimal(n);
            &&& control_trimmed(line).len() > 0
            &&& control_trimmed(line)[0] == '#'
            &&& control_head(line) == cmd
            &&& control_arg(line) == Some(n as u32)
            &&& forall|i: int| 0 <= i < line.len() ==> #[trigger] line[i] != '\n' && line[i] != '\r'
        }),
{
    let d = decimal(n);
    lemma_decimal_arg(n);
    let line = seq!['#'] + cmd + seq![' '] + d;
    let body = cmd + (seq![' '] + d);
    assert(line =~= seq!['#'] + body);
    assert(line.last() == d.last());
    lemma_trim_fixed(line);
    assert(line.drop_first() =~= body);
    lemma_command_split(cmd, d);
    assert forall|i: int| 0 <= i < line.len() implies #[trigger] line[i] != '\n' && line[i] != '\r' by {
        if i > cmd.len() + 1 {
            assert(line[i] == d[i - cmd.len() - 2]);
        } else if i >= 1 && i <= cmd.len() {
            assert(line[i] == cmd[i - 1]);
        }
    }
}

/// The line `#ENDIF`.
proof fn lemma_endif_line()
    ensures
        directive_of(seq!['#', 'E', 'N', 'D', 'I', 'F']) == Directive::EndIf,
{
    let line = seq!['#', 'E', 'N', 'D', 'I', 'F'];
    let cmd = seq!['E', 'N', 'D', 'I', 'F'];
    assert(trim_start(line, false) == line);
    assert(trim_end(line, false) == line);
    assert(strip_boms(line) == line);
    assert(line.drop_first() =~= cmd);
    assert forall|i: int| 0 <= i < cmd.len() implies !is_ws(#[trigger] cmd[i]) by {}
    lemma_first_ws_after(cmd, Seq::<char>::empty());
    assert(cmd + Seq::<char>::empty() =~= cmd);
    assert(cmd.take(5) =~= cmd);
    assert(upper_seq(cmd) =~= cmd);
    assert(cmd != kw_random() && cmd != kw_setrandom() && cmd != kw_if() && cmd != kw_elseif() && cmd
        != kw_else()) by {
        assert(cmd.len() == 5);
    }
    assert(cmd =~= kw_endif());
}

/// A matching `#ELSEIF` branch is taken: after `#SETRANDOM n`, an `#IF m`
/// block with `m != n` keeps none of its own lines, and the lines of its
/// `#ELSEIF n` branch are kept, exactly and in order, up to `#ENDIF`. The
/// lines of both branches are ordinary lines without line breaks.
pub proof fn lemma_elseif_branch_taken(
    n: u32,
    m: u32,
    if_lines: Seq<Seq<char>>,
    elseif_lines: Seq<Seq<char>>,
    seed: u64,
)
    requires
        m != n,
        forall|k: int| 0 <= k < if_lines.len() ==> directive_of(#[trigger] if_lines[k]) == Directive::Plain,
        forall|k: int| 0 <= k < elseif_lines.len() ==> directive_of(#[trigger] elseif_lines[k]) == Directive::Plain,
        forall|k: int, i: int|
            0 <= k < if_lines.len() && 0 <= i < if_lines[k].len() ==> #[trigger] if_lines[k][i] != '\n'
                && if_lines[k][i] != '\r',
        forall|k: int, i: int|
            0 <= k < elseif_lines.len() && 0 <= i < elseif_lines[k].len() ==> #[trigger] elseif_lines[k][i] != '\n'
                && elseif_lines[k][i] != '\r',
    ensures
        resolved_text(
            joined_lines(
                seq![
                    seq!['#', 'S', 'E', 'T', 'R', 'A', 'N', 'D', 'O', 'M', ' '] + decimal(n as nat),
                    seq!['#', 'I', 'F', ' '] + decimal(m as nat),
                ] + if_lines + seq![seq!['#', 'E', 'L', 'S', 'E', 'I', 'F', ' '] + decimal(n as nat)] + elseif_lines
                    + seq![seq!['#', 'E', 'N', 'D', 'I', 'F']],
            ),
            seed,
        ) == joined_lines(elseif_lines),
{
    let k_set = seq!['S', 'E', 'T', 'R', 'A', 'N', 'D', 'O', 'M'];
    let k_if = seq!['I', 'F'];
    let k_elseif = seq!['E', 'L', 'S', 'E', 'I', 'F'];
    let set_line = seq!['#', 'S', 'E', 'T', 'R', 'A', 'N', 'D', 'O', 'M', ' '] + decimal(n as nat);
    let if_line = seq!['#', 'I', 'F', ' '] + decimal(m as nat);
    let elseif_line = seq!['#', 'E', 'L', 'S', 'E', 'I', 'F', ' '] + decimal(n as nat);
    let end_line = seq!['#', 'E', 'N', 'D', 'I', 'F'];
    lemma_control_line(k_set, n as nat);
    lemma_control_line(k_if, m as nat);
    lemma_control_line(k_elseif, n as nat);
    assert(seq!['#'] + k_set + seq![' '] + decimal(n as nat) =~= set_line);
    assert(seq!['#'] + k_if + seq![' '] + decimal(m as nat) =~= if_line);
    assert(seq!['#'] + k_elseif + seq![' '] + decimal(n as nat) =~= elseif_line);
    assert(k_set =~= kw_setrandom());
    assert(k_set != kw_random()) by {
        assert(k_set.len() != kw_random().len());
    }
    assert(directive_of(set_line) == Directive::SetRandom);
    assert(k_if =~= kw_if());
    assert(k_if != kw_random() && k_if != kw_setrandom()) by {
        assert(k_if.len() == 2);
    }
    assert(directive_of(if_line) == Directive::If);
    assert(k_elseif =~= kw_elseif());
    assert(k_elseif != kw_random()) by {
        assert(k_elseif[0] != kw_random()[0]);
    }
    assert(k_elseif != kw_setrandom() && k_elseif != kw_if()) by {
        assert(k_elseif.len() == 6);
    }
    assert(directive_of(elseif_line) == Directive::ElseIf);
    lemma_endif_line();
    // The text's lines.
    let ls = seq![set_line, if_line] + if_lines + seq![elseif_line] + elseif_lines + seq![end_line];
    assert forall|k: int, i: int| 0 <= k < ls.len() && 0 <= i < ls[k].len() implies #[trigger] ls[k][i] != '\n'
        && ls[k][i] != '\r' by {
        let a = 2 + if_lines.len();
        let b = a + 1 + elseif_lines.len();
        if k == 0 {
            assert(ls[k] == set_line);
        } else if k == 1 {
            assert(ls[k] == if_line);
        } else if k < a {
            assert(ls[k] == if_lines[k - 2]);
        } else if k == a {
            assert(ls[k] == elseif_line);
        } else if k < b {
            assert(ls[k] == elseif_lines[k - a - 1]);
        } else {
            assert(ls[k] == end_line);
        }
    }
    lemma_lines_of_joined(ls);
    // The run, part by part.
    let st0 = control_start(seed);
    let st1 = ControlState { pick: Some(n), ..st0 };
    lemma_run_one(set_line, st0);
    assert(control_run(seq![set_line], st0) == (st1, Seq::<char>::empty()));
    let st2 = ControlState { stack: st1.stack.push(IfLevel { matched_yet: false, included: false }), ..st1 };
    assert(branch_matches(st1.pick, if_line) == false);
    lemma_run_one(if_line, st1);
    assert(control_run(seq![if_line], st1) == (st2, Seq::<char>::empty()));
    assert(!is_active(st2.stack)) by {
        assert(!st2.stack[0].included);
    }
    lemma_plain_run(if_lines, st2);
    let st3 = ControlState { stack: st1.stack.push(IfLevel { matched_yet: true, included: true }), ..st1 };
    assert(st2.stack.drop_last() =~= st1.stack);
    assert(branch_matches(st2.pick, elseif_line));
    lemma_run_one(elseif_line, st2);
    assert(control_run(seq![elseif_line], st2) == (st3, Seq::<char>::empty()));
    assert(is_active(st3.stack)) by {
        assert(st3.stack =~= seq![IfLevel { matched_yet: true, included: true }]);
    }
    lemma_plain_run(elseif_lines, st3);
    lemma_run_one(end_line, st3);
    let st4 = ControlState { stack: st3.stack.drop_last(), ..st3 };
    assert(control_run(seq![end_line], st3) == (st4, Seq::<char>::empty()));
    let p1 = seq![set_line];
    let p2 = seq![if_line];
    let p3 = seq![elseif_line];
    let p4 = seq![end_line];
    assert(seq![set_line, if_line] =~= p1 + p2);
    assert(ls =~= p1 + p2 + if_lines + p3 + elseif_lines + p4);
    lemma_run_append(p1, p2, st0);
    lemma_run_append(p1 + p2, if_lines, st0);
    lemma_run_append(p1 + p2 + if_lines, p3, st0);
    lemma_run_append(p1 + p2 + if_lines + p3, elseif_lines, st0);
    lemma_run_append(p1 + p2 + if_lines + p3 + elseif_lines, p4, st0);
    let e = Seq::<char>::empty();
    assert(e + e + e + e + joined_lines(elseif_lines) + e =~= joined_lines(elseif_lines));
}

/// An `#ELSEIF` inside an open `#IF`, followed by ordinary lines: those lines
/// are kept, exactly and in order, when every enclosing level is included, no
/// earlier branch of the innermost `#IF` matched, and the drawn number equals
/// the `#ELSEIF` argument; otherwise none of them is kept.
pub proof fn lemma_elseif_keeps_its_branch(st: ControlState, line: Seq<char>, body: Seq<Seq<char>>)
    requires
        st.stack.len() > 0,
        directive_of(line) == Directive::ElseIf,
        forall|k: int| 0 <= k < body.len() ==> directive_of(#[trigger] body[k]) == Directive::Plain,
    ensures
        control_run(seq![line] + body, st).1 == (if is_active(st.stack.drop_last()) && !st.stack.last().matched_yet
            && st.pick is Some && control_arg(line) == st.pick {
            joined_lines(body)
        } else {
            Seq::<char>::empty()
        }),
{
    lemma_run_append(seq![line], body, st);
    lemma_run_one(line, st);
    let next = control_step(st, line).0;
    let outer = st.stack.drop_last();
    let top = st.stack.last();
    assert(next.stack == outer.push(next.stack.last()));
    assert(next.stack.drop_last() =~= outer);
    lemma_plain_run(body, next);
    let taken = is_active(outer) && !top.matched_yet && st.pick is Some && control_arg(line) == st.pick;
    if taken {
        assert(next.stack.last().included);
        assert forall|k: int| 0 <= k < next.stack.len() implies (#[trigger] next.stack[k]).included by {
            if k < outer.len() {
                assert(next.stack[k] == outer[k]);
            }
        }
        assert(Seq::<char>::empty() + joined_lines(body) =~= joined_lines(body));
    } else {
        if !is_active(outer) {
            let j = choose|j: int| 0 <= j < outer.len() && !(#[trigger] outer[j]).included;
            assert(next.stack[j] == outer[j]);
        } else {
            assert(!next.stack.last().included);
            assert(next.stack[next.stack.len() - 1] == next.stack.last());
        }
        assert(!is_active(next.stack));
        assert(Seq::<char>::empty() + Seq::<char>::empty() =~= Seq::<char>::empty());
    }
}

} // verus!

//! Reading a chart's text: the `#RANDOM` blocks are resolved, then each
//! header line is either a channel line (`#mmmcc:data`) or a header command.

use vstd::prelude::*;
use crate::channels::family_lane;
use crate::control::{
    directive_of, kw_else, kw_elseif, kw_end, kw_endif, kw_if, kw_random, kw_setrandom,
    lemma_plain_text_passes_through, resolve_control_flow, resolved_text, Directive,
};
use crate::header::{
    absorb_line, header_start, lemma_first_ws_after, lemma_title_round_trip, HeaderModel, HeaderPass,
};
use crate::lanes::{lane_count_for, LaneSet};
use crate::lines::{
    channel_line, header_bodies, header_body, header_lines, parse_channel_line, string_views,
};
use crate::placement::{
    keyed_slots, line_view, nonzero_slots, planned_count, raw_view, side_lanes, side_model, slots_upto,
    tagged, Player, SlotAt,
};
use crate::text::{
    first_newline, first_ws, is_bom, is_ws, lemma_first_newline, lines_of, strip_boms, trim, trim_end,
    trim_start, upper_seq,
};

verus! {

/// The header bodies of a chart text once its control flow is resolved with
/// `seed`.
pub open spec fn chart_bodies(text: Seq<char>, seed: u64) -> Seq<Seq<char>> {
    header_bodies(lines_of(resolved_text(text, seed)))
}

/// Header bodies split into the header state their commands build and the
/// channel lines, in order.
pub open spec fn split_bodies(bodies: Seq<Seq<char>>) -> (HeaderModel, Seq<(u32, Seq<char>, Seq<char>)>)
    decreases bodies.len(),
{
    if bodies.len() == 0 {
        (header_start(), seq![])
    } else {
        let (h, raw) = split_bodies(bodies.drop_last());
        match channel_line(bodies.last()) {
            Some(t) => (h, raw.push(t)),
            None => (absorb_line(h, bodies.last()), raw),
        }
    }
}

/// A chart's text, read: its header and its channel lines.
pub struct ChartText {
    pub header: HeaderPass,
    pub channels: Vec<(u32, String, String)>,
}

/// Reads a chart's text: resolves `#RANDOM`/`#IF` blocks with `seed`, then
/// folds every header command into the header and keeps every channel line.
pub fn read_chart_text(text: &str, seed: u64) -> (r: ChartText)
    ensures
        r.header@ == split_bodies(chart_bodies(text@, seed)).0,
        raw_view(r.channels@) == split_bodies(chart_bodies(text@, seed)).1,
{
    let resolved = resolve_control_flow(text, seed);
    let bodies = header_lines(resolved.as_str());
    let ghost all = string_views(bodies@);
    let mut header = HeaderPass::default();
    let mut channels: Vec<(u32, String, String)> = Vec::new();
    let mut i: usize = 0;
    assert(all.take(0) =~= Seq::<Seq<char>>::empty());
    assert(raw_view(channels@) =~= Seq::<(u32, Seq<char>, Seq<char>)>::empty());
    while i < bodies.len()
        invariant
            i <= bodies@.len(),
            all == string_views(bodies@),
            all == chart_bodies(text@, seed),
            header@ == split_bodies(all.take(i as int)).0,
            raw_view(channels@) == split_bodies(all.take(i as int)).1,
        decreases bodies@.len() - i,
    {
        assert(all.take(i + 1).drop_last() =~= all.take(i as int));
        assert(all.take(i + 1).last() == bodies@[i as int]@);
        let body = bodies[i].as_str();
        match parse_channel_line(body) {
            Some(t) => {
                let ghost before = raw_view(channels@);
                channels.push(t);
                assert(raw_view(channels@) =~= before.push(line_view(t)));
            },
            None => {
                header.absorb(body);
            },
        }
        i = i + 1;
    }
    assert(all.take(bodies@.len() as int) =~= all);
    ChartText { header, channels }
}

/// The player-one lanes the visible-note channels of the given lines use.
pub open spec fn channel_lanes(lines: Seq<(u32, Seq<char>, Seq<char>)>) -> Set<usize>
    decreases lines.len(),
{
    if lines.len() == 0 {
        Set::empty()
    } else {
        let prev = channel_lanes(lines.drop_last());
        match family_lane(lines.last().1, '1') {
            Some(l) => prev.insert(l),
            None => prev,
        }
    }
}

/// The lanes a chart's channel lines use, from which the selector reads a
/// chart's lane count without building it.
pub fn channel_lane_set(channels: &[(u32, String, String)]) -> (r: LaneSet)
    ensures
        r@ == channel_lanes(raw_view(channels@)),
{
    let ghost all = raw_view(channels@);
    let mut lanes = LaneSet::new();
    let mut i: usize = 0;
    assert(all.take(0) =~= Seq::<(u32, Seq<char>, Seq<char>)>::empty());
    while i < channels.len()
        invariant
            i <= channels@.len(),
            all == raw_view(channels@),
            lanes@ == channel_lanes(all.take(i as int)),
        decreases channels@.len() - i,
    {
        assert(all.take(i + 1).drop_last() =~= all.take(i as int));
        assert(all.take(i + 1).last() == line_view(channels@[i as int]));
        lanes.observe(channels[i].1.as_str());
        i = i + 1;
    }
    assert(all.take(channels@.len() as int) =~= all);
    lanes
}

/// A text made of one line and its terminator splits into that line.
proof fn lemma_one_line(line: Seq<char>)
    requires
        line.len() > 0,
        forall|k: int| 0 <= k < line.len() ==> line[k] != '\n' && line[k] != '\r',
    ensures
        lines_of(line + seq!['\n']) == seq![line],
{
    let text = line + seq!['\n'];
    lemma_first_newline(text);
    let i = first_newline(text);
    assert(text[line.len() as int] == '\n');
    assert(i == line.len()) by {
        if i < line.len() {
            assert(text[i] == line[i]);
        }
    }
    assert(text.take(i) =~= line);
    assert(line.last() != '\r');
    assert(text.skip(i + 1) =~= Seq::<char>::empty());
    assert(lines_of(text.skip(i + 1)) =~= Seq::<Seq<char>>::empty());
    assert(lines_of(text) =~= seq![line]);
}

proof fn lemma_one_body(line: Seq<char>, body: Seq<char>)
    requires
        header_body(line) == Some(body),
    ensures
        header_bodies(seq![line]) == seq![body],
        split_bodies(seq![body]) == match channel_line(body) {
            Some(t) => (header_start(), seq![t]),
            None => (absorb_line(header_start(), body), Seq::<(u32, Seq<char>, Seq<char>)>::empty()),
        },
{
    let lines = seq![line];
    assert(lines.drop_last() =~= Seq::<Seq<char>>::empty());
    assert(header_bodies(lines.drop_last()) == Seq::<Seq<char>>::empty());
    assert(lines.last() == line);
    assert(Seq::<Seq<char>>::empty().push(body) =~= seq![body]);
    let bodies = seq![body];
    assert(bodies.drop_last() =~= Seq::<Seq<char>>::empty());
    assert(split_bodies(bodies.drop_last()) == (header_start(), Seq::<(u32, Seq<char>, Seq<char>)>::empty()));
    assert(bodies.last() == body);
    match channel_line(body) {
        Some(t) => {
            assert(Seq::<(u32, Seq<char>, Seq<char>)>::empty().push(t) =~= seq![t]);
        },
        None => {},
    }
}

/// The body of a `#TITLE` line: the command, then a space and the title
/// (just the command when the title is empty, the trailing space trimmed).
spec fn title_body(title: Seq<char>) -> Seq<char> {
    if title.len() > 0 {
        seq!['T', 'I', 'T', 'L', 'E', ' '] + title
    } else {
        seq!['T', 'I', 'T', 'L', 'E']
    }
}

proof fn lemma_title_line_trims(title: Seq<char>)
    requires
        title.len() > 0 ==> !is_ws(title.last()) && !is_bom(title.last()),
    ensures
        trim(seq!['#', 'T', 'I', 'T', 'L', 'E', ' '] + title, true) == seq!['#'] + title_body(title),
        trim(seq!['#', 'T', 'I', 'T', 'L', 'E', ' '] + title, false) == seq!['#'] + title_body(title),
{
    let line = seq!['#', 'T', 'I', 'T', 'L', 'E', ' '] + title;
    let trimmed = seq!['#'] + title_body(title);
    assert(trim_start(line, false) == line);
    assert(trim_start(line, true) == line);
    if title.len() > 0 {
        assert(line.last() == title.last());
        assert(trimmed =~= line);
    } else {
        assert(line.drop_last() =~= trimmed);
        assert(trim_end(trimmed, false) == trimmed);
        assert(trim_end(trimmed, true) == trimmed);
    }
}

proof fn lemma_title_line_is_plain(title: Seq<char>)
    requires
        title.len() > 0 ==> !is_ws(title[0]) && !is_ws(title.last()) && !is_bom(title.last()),
    ensures
        directive_of(seq!['#', 'T', 'I', 'T', 'L', 'E', ' '] + title) == Directive::Plain,
        first_ws(title_body(title)) == 5,
        title_body(title).take(5) == seq!['T', 'I', 'T', 'L', 'E'],
{
    let cmd = seq!['T', 'I', 'T', 'L', 'E'];
    let body = title_body(title);
    let trimmed = seq!['#'] + body;
    lemma_title_line_trims(title);
    assert(strip_boms(trimmed) == trimmed);
    assert(trimmed.drop_first() =~= body);
    assert forall|k: int| 0 <= k < cmd.len() implies !is_ws(#[trigger] cmd[k]) by {}
    if title.len() > 0 {
        lemma_first_ws_after(cmd, seq![' '] + title);
        assert(first_ws(seq![' '] + title) == 0);
        assert(body =~= cmd + (seq![' '] + title));
    } else {
        lemma_first_ws_after(cmd, Seq::<char>::empty());
        assert(cmd + Seq::<char>::empty() =~= cmd);
    }
    assert(body.take(5) =~= cmd);
    let up = upper_seq(cmd);
    assert(up =~= cmd);
    assert(up.len() == 5);
    assert(up[0] == 'T');
    assert(up != kw_random());
    assert(up != kw_setrandom());
    assert(up != kw_if());
    assert(up != kw_elseif());
    assert(up != kw_else());
    assert(up != kw_end());
    assert(kw_endif()[0] == 'E');
    assert(up != kw_endif());
}

/// A title comes back as written: the text made of the single line
/// `#TITLE <title>` reads with exactly that title, whatever the seed, for a
/// title on one line that neither starts nor ends with whitespace and does
/// not end with a byte-order mark.
pub proof fn lemma_chart_title_round_trip(title: Seq<char>, seed: u64)
    requires
        forall|k: int| 0 <= k < title.len() ==> title[k] != '\n' && title[k] != '\r',
        title.len() > 0 ==> !is_ws(title[0]) && !is_ws(title.last()) && !is_bom(title.last()),
    ensures
        split_bodies(chart_bodies(seq!['#', 'T', 'I', 'T', 'L', 'E', ' '] + title + seq!['\n'], seed)).0.title
            == title,
{
    let line = seq!['#', 'T', 'I', 'T', 'L', 'E', ' '] + title;
    let text = line + seq!['\n'];
    let body = title_body(title);
    assert(seq!['#', 'T', 'I', 'T', 'L', 'E', ' '] + title + seq!['\n'] =~= text);
    assert forall|k: int| 0 <= k < line.len() implies line[k] != '\n' && line[k] != '\r' by {
        if k >= 7 {
            assert(line[k] == title[k - 7]);
        }
    }
    lemma_one_line(line);
    lemma_title_line_trims(title);
    lemma_title_line_is_plain(title);
    assert((seq!['#'] + body).drop_first() =~= body);
    assert(header_body(line) == Some(body));
    lemma_one_body(line, body);
    assert forall|k: int| 0 <= k < lines_of(text).len() implies directive_of(#[trigger] lines_of(text)[k])
        == Directive::Plain by {
        assert(lines_of(text)[k] == line);
    }
    assert forall|k: int| 0 <= k < text.len() implies text[k] != '\r' by {
        if k < line.len() {
            assert(text[k] == line[k]);
        }
    }
    lemma_plain_text_passes_through(text, seed);
    assert(chart_bodies(text, seed) =~= seq![body]);
    assert(channel_line(body) is None) by {
        if title.len() > 0 {
            assert(body[5] == ' ');
        }
    }
    if title.len() > 0 {
        lemma_title_round_trip(header_start(), title);
    } else {
        assert(body.skip(5) =~= Seq::<char>::empty());
        assert(trim_start(Seq::<char>::empty(), false) =~= title);
    }
}

/// A line with a non-zero slot places at least one event.
proof fn lemma_nonzero_places(measure: u32, slots: Seq<u32>, k: nat)
    requires
        k <= slots.len(),
        exists|j: int| 0 <= j < k && slots[j] != 0,
    ensures
        slots_upto(measure, slots, k).len() > 0,
    decreases k,
{
    if slots[k - 1] == 0 {
        let j = choose|j: int| 0 <= j < k && slots[j] != 0;
        assert(j < k - 1);
        lemma_nonzero_places(measure, slots, (k - 1) as nat);
    }
}

/// The lanes of a list of tagged events.
pub open spec fn tag_lanes(events: Seq<(usize, SlotAt)>) -> Set<usize> {
    Set::new(|l: usize| exists|i: int| 0 <= i < events.len() && events[i].0 == l)
}

proof fn lemma_lane_counts_agree_run(lines: Seq<(u32, Seq<char>, Seq<char>)>)
    requires
        forall|k: int|
            0 <= k < lines.len() ==> family_lane((#[trigger] lines[k]).1, '5') is None && family_lane(
                lines[k].1,
                'D',
            ) is None && family_lane(lines[k].1, '2') is None,
        forall|k: int|
            0 <= k < lines.len() && (#[trigger] family_lane(lines[k].1, '1')) is Some ==> exists|j: int|
                0 <= j < keyed_slots(lines[k].2).len() && keyed_slots(lines[k].2)[j] != 0,
    ensures
        side_model(lines, Player::One).long_events.len() == 0,
        side_model(lines, Player::One).mines.len() == 0,
        tag_lanes(side_model(lines, Player::One).notes) == channel_lanes(lines),
        side_model(lines, Player::Two).notes.len() == 0,
    decreases lines.len(),
{
    if lines.len() > 0 {
        let init = lines.drop_last();
        assert forall|k: int| 0 <= k < init.len() implies family_lane((#[trigger] init[k]).1, '5') is None
            && family_lane(init[k].1, 'D') is None && family_lane(init[k].1, '2') is None by {
            assert(init[k] == lines[k]);
        }
        assert forall|k: int| 0 <= k < init.len() && (#[trigger] family_lane(init[k].1, '1')) is Some implies exists|j: int|
            0 <= j < keyed_slots(init[k].2).len() && keyed_slots(init[k].2)[j] != 0 by {
            assert(init[k] == lines[k]);
        }
        lemma_lane_counts_agree_run(init);
        let last = lines.last();
        assert(last == lines[lines.len() - 1]);
        let m0 = side_model(init, Player::One);
        let m = side_model(lines, Player::One);
        match family_lane(last.1, '1') {
            Some(l) => {
                let nz = nonzero_slots(last.0, keyed_slots(last.2));
                lemma_nonzero_places(last.0, keyed_slots(last.2), keyed_slots(last.2).len());
                assert(m.notes == m0.notes + tagged(l, nz));
                assert(tag_lanes(m.notes) =~= tag_lanes(m0.notes).insert(l)) by {
                    assert(m.notes[m0.notes.len() as int].0 == l);
                    assert forall|x: usize| tag_lanes(m.notes).contains(x) implies #[trigger] tag_lanes(m0.notes).insert(
                        l,
                    ).contains(x) by {
                        let i = choose|i: int| 0 <= i < m.notes.len() && m.notes[i].0 == x;
                        if i < m0.notes.len() {
                            assert(m.notes[i] == m0.notes[i]);
                        }
                    }
                    assert forall|x: usize| tag_lanes(m0.notes).contains(x) implies #[trigger] tag_lanes(m.notes).contains(
                        x,
                    ) by {
                        let i = choose|i: int| 0 <= i < m0.notes.len() && m0.notes[i].0 == x;
                        assert(m.notes[i] == m0.notes[i]);
                    }
                }
            },
            None => {
                assert(m.notes == m0.notes);
            },
        }
    }
}

/// The lane count the selector reads for a chart (from its player-one
/// visible-note channels) is the one the loaded chart plays with, for a
/// chart without long-note, landmine or player-two channels whose note lines
/// each hold a note: its side's lanes are the channel lanes, no long notes
/// pair up, and without player-two notes nothing folds.
pub proof fn lemma_meta_and_chart_lanes_agree(
    lines: Seq<(u32, Seq<char>, Seq<char>)>,
    pairs: Seq<(usize, usize)>,
    p2_count: usize,
)
    requires
        forall|k: int|
            0 <= k < lines.len() ==> family_lane((#[trigger] lines[k]).1, '5') is None && family_lane(
                lines[k].1,
                'D',
            ) is None && family_lane(lines[k].1, '2') is None,
        forall|k: int|
            0 <= k < lines.len() && (#[trigger] family_lane(lines[k].1, '1')) is Some ==> exists|j: int|
                0 <= j < keyed_slots(lines[k].2).len() && keyed_slots(lines[k].2)[j] != 0,
        forall|k: int|
            0 <= k < pairs.len() ==> (#[trigger] pairs[k]).0 < side_model(lines, Player::One).long_events.len(),
    ensures
        side_lanes(side_model(lines, Player::One), pairs) == channel_lanes(lines),
        side_model(lines, Player::Two).notes.len() == 0,
        planned_count(lane_count_for(channel_lanes(lines)), p2_count, Seq::<usize>::empty()) == lane_count_for(
            channel_lanes(lines),
        ),
{
    lemma_lane_counts_agree_run(lines);
    let m = side_model(lines, Player::One);
    if pairs.len() > 0 {
        assert(pairs[0].0 < 0);
    }
    assert(side_lanes(m, pairs) =~= tag_lanes(m.notes));
}

} // verus!

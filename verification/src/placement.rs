//! Where a chart's events sit. Every non-zero slot of a channel line becomes
//! an event at a position given by its measure, its index among the line's
//! slots and the number of slots (the time it lands at follows from these and
//! the tempo map); the channel decides what kind of event it is.

use vstd::prelude::*;
use vstd::utf8::encode_utf8;
use crate::channels::{
    bga_channel_to_layer, bga_layer_of, channel_to_lane, family_lane, long_channel_to_lane,
    mine_channel_to_lane, p2_channel_to_lane, p2_long_channel_to_lane, p2_mine_channel_to_lane,
    BgaLayer,
};
use crate::lanes::LaneSet;
use crate::slots::{parse_slots, parse_slots_hex, slot_value, slots_of};

verus! {

/// A non-zero slot and where it sits: slot `index` of the `count` slots that
/// a line of `measure` holds, naming `value`.
#[derive(Debug, Clone, Copy, PartialEq, Eq, Structural)]
pub struct SlotAt {
    pub measure: u32,
    pub index: usize,
    pub count: usize,
    pub value: u32,
}

/// The non-zero slots among the first `k` of `slots`, in order.
pub open spec fn slots_upto(measure: u32, slots: Seq<u32>, k: nat) -> Seq<SlotAt>
    decreases k,
{
    if k == 0 {
        seq![]
    } else {
        let prev = slots_upto(measure, slots, (k - 1) as nat);
        if slots[k - 1] != 0 {
            prev.push(SlotAt { measure, index: (k - 1) as usize, count: slots.len() as usize, value: slots[k - 1] })
        } else {
            prev
        }
    }
}

/// The non-zero slots of a line, in order.
pub open spec fn nonzero_slots(measure: u32, slots: Seq<u32>) -> Seq<SlotAt> {
    slots_upto(measure, slots, slots.len())
}

/// Base-36 slots of a data field.
pub open spec fn keyed_slots(data: Seq<char>) -> Seq<u32> {
    slots_of(encode_utf8(data), 36)
}

/// Hexadecimal slots of a data field.
pub open spec fn hex_slots(data: Seq<char>) -> Seq<u32> {
    slots_of(encode_utf8(data), 16)
}

/// Each slot paired with a tag (a lane, a layer, a kind).
pub open spec fn tagged<T>(tag: T, s: Seq<SlotAt>) -> Seq<(T, SlotAt)> {
    s.map_values(|x: SlotAt| (tag, x))
}

/// A channel line as text: measure, channel, data.
pub open spec fn line_view(t: (u32, String, String)) -> (u32, Seq<char>, Seq<char>) {
    (t.0, t.1@, t.2@)
}

/// Channel lines as text.
pub open spec fn raw_view(raw: Seq<(u32, String, String)>) -> Seq<(u32, Seq<char>, Seq<char>)> {
    raw.map_values(|t: (u32, String, String)| line_view(t))
}

proof fn lemma_tagged_push<T>(tag: T, s: Seq<SlotAt>, x: SlotAt)
    ensures
        tagged(tag, s.push(x)) == tagged(tag, s).push((tag, x)),
{
    assert(tagged(tag, s.push(x)) =~= tagged(tag, s).push((tag, x)));
}

/// Appends the non-zero slots of a line, each tagged with `tag`.
fn push_tagged<T: Copy>(out: &mut Vec<(T, SlotAt)>, tag: T, measure: u32, slots: &[u32])
    ensures
        final(out)@ == old(out)@ + tagged(tag, nonzero_slots(measure, slots@)),
{
    let ghost start = out@;
    let n = slots.len();
    let mut k: usize = 0;
    while k < n
        invariant
            k <= n,
            n == slots@.len(),
            out@ == start + tagged(tag, slots_upto(measure, slots@, k as nat)),
        decreases n - k,
    {
        let v = slots[k];
        if v != 0 {
            let x = SlotAt { measure, index: k, count: n, value: v };
            proof {
                lemma_tagged_push(tag, slots_upto(measure, slots@, k as nat), x);
            }
            out.push((tag, x));
        }
        k = k + 1;
        assert(out@ =~= start + tagged(tag, slots_upto(measure, slots@, k as nat)));
    }
}

/// Appends the non-zero slots of a line.
fn push_slots(out: &mut Vec<SlotAt>, measure: u32, slots: &[u32])
    ensures
        final(out)@ == old(out)@ + nonzero_slots(measure, slots@),
{
    let ghost start = out@;
    let n = slots.len();
    let mut k: usize = 0;
    while k < n
        invariant
            k <= n,
            n == slots@.len(),
            out@ == start + slots_upto(measure, slots@, k as nat),
        decreases n - k,
    {
        let v = slots[k];
        if v != 0 {
            out.push(SlotAt { measure, index: k, count: n, value: v });
        }
        k = k + 1;
        assert(out@ =~= start + slots_upto(measure, slots@, k as nat));
    }
}

/// Whether `ch` is the two characters `a`, `b`.
fn is_channel(ch: &str, a: char, b: char) -> (r: bool)
    ensures
        r == (ch@ == seq![a, b]),
{
    let r = ch.unicode_len() == 2 && ch.get_char(0) == a && ch.get_char(1) == b;
    proof {
        if r {
            assert(ch@ =~= seq![a, b]);
        }
    }
    r
}

/// The two players of a double-play chart.
#[derive(Debug, Clone, Copy, PartialEq, Eq, Structural)]
pub enum Player {
    One,
    Two,
}

/// First character of a player's visible-note channels: `1x` / `2x`.
pub open spec fn note_family(p: Player) -> char {
    match p {
        Player::One => '1',
        Player::Two => '2',
    }
}

/// First character of a player's long-note channels: `5x` / `6x`.
pub open spec fn long_family(p: Player) -> char {
    match p {
        Player::One => '5',
        Player::Two => '6',
    }
}

/// First character of a player's landmine channels: `Dx` / `Ex`.
pub open spec fn mine_family(p: Player) -> char {
    match p {
        Player::One => 'D',
        Player::Two => 'E',
    }
}

/// What one player's side of a chart holds, by kind: visible notes, long-note
/// events (each lane's events pair up later in time order), landmines (with
/// their damage), and, on player one's side, background sounds (channel `01`).
pub struct SideModel {
    pub notes: Seq<(usize, SlotAt)>,
    pub long_events: Seq<(usize, SlotAt)>,
    pub mines: Seq<(usize, SlotAt)>,
    pub bgm: Seq<SlotAt>,
}

/// A side after one more channel line.
pub open spec fn side_line(m: SideModel, line: (u32, Seq<char>, Seq<char>), p: Player) -> SideModel {
    let (measure, ch, data) = line;
    let keyed = nonzero_slots(measure, keyed_slots(data));
    let notes = match family_lane(ch, note_family(p)) {
        Some(l) => m.notes + tagged(l, keyed),
        None => m.notes,
    };
    let bgm = if family_lane(ch, note_family(p)) is None && p == Player::One && ch == seq!['0', '1'] {
        m.bgm + keyed
    } else {
        m.bgm
    };
    let long_events = match family_lane(ch, long_family(p)) {
        Some(l) => m.long_events + tagged(l, keyed),
        None => m.long_events,
    };
    let mines = match family_lane(ch, mine_family(p)) {
        Some(l) => m.mines + tagged(l, nonzero_slots(measure, hex_slots(data))),
        None => m.mines,
    };
    SideModel { notes, long_events, mines, bgm }
}

/// A side of the chart made of the given channel lines, in line order.
pub open spec fn side_model(lines: Seq<(u32, Seq<char>, Seq<char>)>, p: Player) -> SideModel
    decreases lines.len(),
{
    if lines.len() == 0 {
        SideModel { notes: seq![], long_events: seq![], mines: seq![], bgm: seq![] }
    } else {
        side_line(side_model(lines.drop_last(), p), lines.last(), p)
    }
}

/// One player's events, each list in channel-line order.
pub struct SideEvents {
    pub notes: Vec<(usize, SlotAt)>,
    pub long_events: Vec<(usize, SlotAt)>,
    pub mines: Vec<(usize, SlotAt)>,
    pub bgm: Vec<SlotAt>,
}

impl SideEvents {
    pub open spec fn model(&self) -> SideModel {
        SideModel { notes: self.notes@, long_events: self.long_events@, mines: self.mines@, bgm: self.bgm@ }
    }
}

fn note_lane(p: Player, ch: &str) -> (r: Option<usize>)
    ensures
        r == family_lane(ch@, note_family(p)),
{
    match p {
        Player::One => channel_to_lane(ch),
        Player::Two => p2_channel_to_lane(ch),
    }
}

fn long_lane(p: Player, ch: &str) -> (r: Option<usize>)
    ensures
        r == family_lane(ch@, long_family(p)),
{
    match p {
        Player::One => long_channel_to_lane(ch),
        Player::Two => p2_long_channel_to_lane(ch),
    }
}

fn mine_lane(p: Player, ch: &str) -> (r: Option<usize>)
    ensures
        r == family_lane(ch@, mine_family(p)),
{
    match p {
        Player::One => mine_channel_to_lane(ch),
        Player::Two => p2_mine_channel_to_lane(ch),
    }
}

/// Sorts one player's channel lines into visible notes (channels `11`..`19`
/// or `21`..`29`), long-note events (`51`..`59` / `61`..`69`), landmines
/// (`D1`..`D9` / `E1`..`E9`, damage in hexadecimal) and, for player one,
/// background sounds (`01`); zero slots are rests and give no event.
pub fn side_events(raw: &[(u32, String, String)], p: Player) -> (r: SideEvents)
    ensures
        r.model() == side_model(raw_view(raw@), p),
{
    let mut ev = SideEvents { notes: Vec::new(), long_events: Vec::new(), mines: Vec::new(), bgm: Vec::new() };
    let mut i: usize = 0;
    while i < raw.len()
        invariant
            i <= raw@.len(),
            ev.model() == side_model(raw_view(raw@).take(i as int), p),
        decreases raw@.len() - i,
    {
        proof {
            assert(raw_view(raw@).take(i + 1).drop_last() =~= raw_view(raw@).take(i as int));
            assert(raw_view(raw@).take(i + 1).last() == line_view(raw@[i as int]));
        }
        let measure = raw[i].0;
        let ch = raw[i].1.as_str();
        let data = raw[i].2.as_str();
        let normal = note_lane(p, ch);
        let long = long_lane(p, ch);
        let mine = mine_lane(p, ch);
        let wants_bgm = match normal {
            Some(_) => false,
            None => p == Player::One && is_channel(ch, '0', '1'),
        };
        if normal.is_some() || wants_bgm || long.is_some() {
            let keyed = parse_slots(data);
            match normal {
                Some(l) => push_tagged(&mut ev.notes, l, measure, keyed.as_slice()),
                None => {},
            }
            if wants_bgm {
                push_slots(&mut ev.bgm, measure, keyed.as_slice());
            }
            match long {
                Some(l) => push_tagged(&mut ev.long_events, l, measure, keyed.as_slice()),
                None => {},
            }
        }
        match mine {
            Some(l) => {
                let hex = parse_slots_hex(data);
                push_tagged(&mut ev.mines, l, measure, hex.as_slice());
            },
            None => {},
        }
        i = i + 1;
    }
    assert(raw_view(raw@).take(raw@.len() as int) =~= raw_view(raw@));
    ev
}

/// The background-animation events of the given lines, in line order.
pub open spec fn bga_model(lines: Seq<(u32, Seq<char>, Seq<char>)>) -> Seq<(BgaLayer, SlotAt)>
    decreases lines.len(),
{
    if lines.len() == 0 {
        seq![]
    } else {
        let prev = bga_model(lines.drop_last());
        let (measure, ch, data) = lines.last();
        match bga_layer_of(ch) {
            Some(layer) => prev + tagged(layer, nonzero_slots(measure, keyed_slots(data))),
            None => prev,
        }
    }
}

/// The image events of channels `04` (base), `06` (poor) and `07`
/// (overlay), each naming a `#BMP` id.
pub fn bga_events(raw: &[(u32, String, String)]) -> (r: Vec<(BgaLayer, SlotAt)>)
    ensures
        r@ == bga_model(raw_view(raw@)),
{
    let mut out: Vec<(BgaLayer, SlotAt)> = Vec::new();
    let mut i: usize = 0;
    while i < raw.len()
        invariant
            i <= raw@.len(),
            out@ == bga_model(raw_view(raw@).take(i as int)),
        decreases raw@.len() - i,
    {
        proof {
            assert(raw_view(raw@).take(i + 1).drop_last() =~= raw_view(raw@).take(i as int));
            assert(raw_view(raw@).take(i + 1).last() == line_view(raw@[i as int]));
        }
        match bga_channel_to_layer(raw[i].1.as_str()) {
            Some(layer) => {
                let keyed = parse_slots(raw[i].2.as_str());
                push_tagged(&mut out, layer, raw[i].0, keyed.as_slice());
            },
            None => {},
        }
        i = i + 1;
    }
    assert(raw_view(raw@).take(raw@.len() as int) =~= raw_view(raw@));
    out
}

/// What a tempo event names.
#[derive(Debug, Clone, Copy, PartialEq, Eq, Structural)]
pub enum TempoRef {
    /// A new BPM given directly (channel `03`, hexadecimal).
    Bpm,
    /// A new BPM given by a `#BPMxx` definition (channel `08`).
    BpmDef,
    /// A pause given by a `#STOPxx` definition (channel `09`).
    Stop,
}

/// The tempo events of the given lines, in line order.
pub open spec fn tempo_model(lines: Seq<(u32, Seq<char>, Seq<char>)>) -> Seq<(TempoRef, SlotAt)>
    decreases lines.len(),
{
    if lines.len() == 0 {
        seq![]
    } else {
        let prev = tempo_model(lines.drop_last());
        let (measure, ch, data) = lines.last();
        if ch == seq!['0', '3'] {
            prev + tagged(TempoRef::Bpm, nonzero_slots(measure, hex_slots(data)))
        } else if ch == seq!['0', '8'] {
            prev + tagged(TempoRef::BpmDef, nonzero_slots(measure, keyed_slots(data)))
        } else if ch == seq!['0', '9'] {
            prev + tagged(TempoRef::Stop, nonzero_slots(measure, keyed_slots(data)))
        } else {
            prev
        }
    }
}

/// The tempo events: direct BPM changes (channel `03`), defined BPM changes
/// (`08`) and stops (`09`), each with the value or definition id it names.
pub fn tempo_events(raw: &[(u32, String, String)]) -> (r: Vec<(TempoRef, SlotAt)>)
    ensures
        r@ == tempo_model(raw_view(raw@)),
{
    let mut out: Vec<(TempoRef, SlotAt)> = Vec::new();
    let mut i: usize = 0;
    while i < raw.len()
        invariant
            i <= raw@.len(),
            out@ == tempo_model(raw_view(raw@).take(i as int)),
        decreases raw@.len() - i,
    {
        proof {
            assert(raw_view(raw@).take(i + 1).drop_last() =~= raw_view(raw@).take(i as int));
            assert(raw_view(raw@).take(i + 1).last() == line_view(raw@[i as int]));
        }
        let ch = raw[i].1.as_str();
        let data = raw[i].2.as_str();
        if is_channel(ch, '0', '3') {
            let hex = parse_slots_hex(data);
            push_tagged(&mut out, TempoRef::Bpm, raw[i].0, hex.as_slice());
        } else if is_channel(ch, '0', '8') {
            let keyed = parse_slots(data);
            push_tagged(&mut out, TempoRef::BpmDef, raw[i].0, keyed.as_slice());
        } else if is_channel(ch, '0', '9') {
            let keyed = parse_slots(data);
            push_tagged(&mut out, TempoRef::Stop, raw[i].0, keyed.as_slice());
        }
        i = i + 1;
    }
    assert(raw_view(raw@).take(raw@.len() as int) =~= raw_view(raw@));
    out
}

/// Where a note of a `count`-lane side ends up: dropped when its lane is past
/// the side's lanes, otherwise kept, moved seven lanes right when `shift`.
pub open spec fn placed_lane(lane: usize, count: usize, shift: bool) -> Option<usize> {
    if lane < count {
        Some(if shift { (lane + 7) as usize } else { lane })
    } else {
        None
    }
}

/// Whether a double-play chart is the canonical 7+7 layout, which plays as
/// one 14-lane chart: both sides use seven lanes and player two keeps a note.
pub open spec fn folds(p1_count: usize, p2_count: usize, p2_notes: Seq<usize>) -> bool {
    &&& p1_count == 7
    &&& p2_count == 7
    &&& exists|i: int| 0 <= i < p2_notes.len() && p2_notes[i] < p2_count
}

/// The lane count of the chart as played.
pub open spec fn planned_count(p1_count: usize, p2_count: usize, p2_notes: Seq<usize>) -> usize {
    if folds(p1_count, p2_count, p2_notes) {
        14
    } else {
        p1_count
    }
}

/// Where each note and mine of both sides ends up. With the 7+7 fold,
/// player two's entries are lanes 7..13 of the played chart; otherwise they
/// stay lanes of player two's own side.
pub struct LanePlan {
    pub lane_count: usize,
    pub folded: bool,
    pub notes: Vec<Option<usize>>,
    pub mines: Vec<Option<usize>>,
    pub p2_notes: Vec<Option<usize>>,
    pub p2_mines: Vec<Option<usize>>,
}

fn place_lanes(lanes: &[usize], count: usize, shift: bool) -> (r: Vec<Option<usize>>)
    requires
        shift ==> count <= 7,
    ensures
        r@ == lanes@.map_values(|l: usize| placed_lane(l, count, shift)),
{
    let mut out: Vec<Option<usize>> = Vec::new();
    let mut i: usize = 0;
    while i < lanes.len()
        invariant
            i <= lanes@.len(),
            shift ==> count <= 7,
            out@ == lanes@.take(i as int).map_values(|l: usize| placed_lane(l, count, shift)),
        decreases lanes@.len() - i,
    {
        let l = lanes[i];
        let placed = if l < count {
            Some(if shift { l + 7 } else { l })
        } else {
            None
        };
        out.push(placed);
        i = i + 1;
        assert(out@ =~= lanes@.take(i as int).map_values(|l: usize| placed_lane(l, count, shift)));
    }
    assert(lanes@.take(lanes@.len() as int) =~= lanes@);
    out
}

/// Drops every note and mine whose lane lies past its side's lane count,
/// and folds the canonical 7+7 double-play layout into one 14-lane chart.
/// Any other layout plays player one's side alone.
pub fn plan_lanes(
    p1_count: usize,
    p2_count: usize,
    notes: &[usize],
    mines: &[usize],
    p2_notes: &[usize],
    p2_mines: &[usize],
) -> (r: LanePlan)
    ensures
        r.folded == folds(p1_count, p2_count, p2_notes@),
        r.lane_count == planned_count(p1_count, p2_count, p2_notes@),
        r.notes@ == notes@.map_values(|l: usize| placed_lane(l, p1_count, false)),
        r.mines@ == mines@.map_values(|l: usize| placed_lane(l, p1_count, false)),
        r.p2_notes@ == p2_notes@.map_values(|l: usize| placed_lane(l, p2_count, r.folded)),
        r.p2_mines@ == p2_mines@.map_values(|l: usize| placed_lane(l, p2_count, r.folded)),
{
    let mut any = false;
    let mut i: usize = 0;
    while i < p2_notes.len()
        invariant
            i <= p2_notes@.len(),
            any == exists|j: int| 0 <= j < i && p2_notes@[j] < p2_count,
        decreases p2_notes@.len() - i,
    {
        if p2_notes[i] < p2_count {
            any = true;
        }
        i = i + 1;
    }
    let folded = p1_count == 7 && p2_count == 7 && any;
    LanePlan {
        lane_count: if folded { 14 } else { p1_count },
        folded,
        notes: place_lanes(notes, p1_count, false),
        mines: place_lanes(mines, p1_count, false),
        p2_notes: place_lanes(p2_notes, p2_count, folded),
        p2_mines: place_lanes(p2_mines, p2_count, folded),
    }
}

/// Every note the played chart keeps lies within its lane count: player
/// one's kept lanes always, and player two's kept lanes once folded, as
/// lanes 7..13; unfolded, player two's lanes stay within its own side.
pub proof fn lemma_planned_lanes_fit(p1_count: usize, p2_count: usize, p2_notes: Seq<usize>, lane: usize)
    ensures
        placed_lane(lane, p1_count, false) matches Some(l) ==> l < planned_count(p1_count, p2_count, p2_notes),
        folds(p1_count, p2_count, p2_notes) ==> (placed_lane(lane, p2_count, true) matches Some(l) ==> 7 <= l
            && l < planned_count(p1_count, p2_count, p2_notes)),
        !folds(p1_count, p2_count, p2_notes) ==> (placed_lane(lane, p2_count, false) matches Some(l) ==> l
            < p2_count),
{
}

/// The lanes a side of the chart uses: those of its visible notes and
/// landmines, and those of the long notes its long-note events pair into
/// (`pairs` holds index pairs into the long-note events).
pub open spec fn side_lanes(m: SideModel, pairs: Seq<(usize, usize)>) -> Set<usize> {
    Set::new(
        |l: usize|
            (exists|i: int| 0 <= i < m.notes.len() && m.notes[i].0 == l) || (exists|i: int|
                0 <= i < pairs.len() && m.long_events[pairs[i].0 as int].0 == l) || (exists|i: int|
                0 <= i < m.mines.len() && m.mines[i].0 == l),
    )
}

/// The lanes one side uses, from which its lane count follows.
pub fn side_lane_set(ev: &SideEvents, pairs: &[(usize, usize)]) -> (r: LaneSet)
    requires
        forall|i: int| 0 <= i < pairs@.len() ==> (#[trigger] pairs@[i]).0 < ev.long_events@.len(),
    ensures
        r@ == side_lanes(ev.model(), pairs@),
{
    let mut lanes = LaneSet::new();
    let mut i: usize = 0;
    while i < ev.notes.len()
        invariant
            i <= ev.notes@.len(),
            lanes@ == Set::new(|l: usize| exists|j: int| 0 <= j < i && ev.notes@[j].0 == l),
        decreases ev.notes@.len() - i,
    {
        let ghost before = lanes@;
        lanes.observe_lane(ev.notes[i].0);
        i = i + 1;
        assert(lanes@ =~= Set::new(|l: usize| exists|j: int| 0 <= j < i && ev.notes@[j].0 == l)) by {
            assert forall|l: usize| lanes@.contains(l) implies exists|j: int| 0 <= j < i && ev.notes@[j].0 == l by {
                if l == ev.notes@[i - 1].0 {
                    assert(ev.notes@[i - 1].0 == l);
                } else {
                    assert(before.contains(l));
                }
            }
        }
    }
    let ghost from_notes = lanes@;
    let mut k: usize = 0;
    while k < pairs.len()
        invariant
            k <= pairs@.len(),
            forall|i: int| 0 <= i < pairs@.len() ==> (#[trigger] pairs@[i]).0 < ev.long_events@.len(),
            lanes@ == from_notes.union(
                Set::new(|l: usize| exists|j: int| 0 <= j < k && ev.long_events@[pairs@[j].0 as int].0 == l),
            ),
        decreases pairs@.len() - k,
    {
        let ghost before = lanes@;
        let start = pairs[k].0;
        lanes.observe_lane(ev.long_events[start].0);
        k = k + 1;
        assert(lanes@ =~= from_notes.union(
            Set::new(|l: usize| exists|j: int| 0 <= j < k && ev.long_events@[pairs@[j].0 as int].0 == l),
        )) by {
            assert forall|l: usize| lanes@.contains(l) implies from_notes.contains(l) || exists|j: int|
                0 <= j < k && ev.long_events@[pairs@[j].0 as int].0 == l by {
                if l == ev.long_events@[pairs@[k - 1].0 as int].0 {
                    assert(ev.long_events@[pairs@[k - 1].0 as int].0 == l);
                } else {
                    assert(before.contains(l));
                }
            }
        }
    }
    let ghost from_longs = lanes@;
    let mut q: usize = 0;
    while q < ev.mines.len()
        invariant
            q <= ev.mines@.len(),
            lanes@ == from_longs.union(Set::new(|l: usize| exists|j: int| 0 <= j < q && ev.mines@[j].0 == l)),
        decreases ev.mines@.len() - q,
    {
        let ghost before = lanes@;
        lanes.observe_lane(ev.mines[q].0);
        q = q + 1;
        assert(lanes@ =~= from_longs.union(Set::new(|l: usize| exists|j: int| 0 <= j < q && ev.mines@[j].0 == l)))
            by {
            assert forall|l: usize| lanes@.contains(l) implies from_longs.contains(l) || exists|j: int|
                0 <= j < q && ev.mines@[j].0 == l by {
                if l == ev.mines@[q - 1].0 {
                    assert(ev.mines@[q - 1].0 == l);
                } else {
                    assert(before.contains(l));
                }
            }
        }
    }
    assert(lanes@ =~= side_lanes(ev.model(), pairs@));
    lanes
}

/// The events of a line's first `k` slots: each names a non-zero slot of
/// the line, by its index below `k`, with that slot's value, the line's
/// measure and its slot count, in increasing slot order; and every non-zero
/// slot below `k` has its event.
pub proof fn lemma_slots_upto_entries(measure: u32, slots: Seq<u32>, k: nat)
    requires
        k <= slots.len(),
        slots.len() <= usize::MAX,
    ensures
        forall|e: int|
            0 <= e < slots_upto(measure, slots, k).len() ==> {
                let x = #[trigger] slots_upto(measure, slots, k)[e];
                &&& x.index < k
                &&& x.value == slots[x.index as int]
                &&& x.value != 0
                &&& x.measure == measure
                &&& x.count == slots.len()
            },
        forall|a: int, b: int|
            0 <= a < b < slots_upto(measure, slots, k).len() ==> (#[trigger] slots_upto(measure, slots, k)[a]).index
                < (#[trigger] slots_upto(measure, slots, k)[b]).index,
        forall|j: int|
            0 <= j < k && slots[j] != 0 ==> exists|e: int|
                0 <= e < slots_upto(measure, slots, k).len() && (#[trigger] slots_upto(measure, slots, k)[e]).index
                    == j,
    decreases k,
{
    if k > 0 {
        lemma_slots_upto_entries(measure, slots, (k - 1) as nat);
        let prev = slots_upto(measure, slots, (k - 1) as nat);
        let cur = slots_upto(measure, slots, k);
        assert forall|j: int| 0 <= j < k && slots[j] != 0 implies exists|e: int|
            0 <= e < cur.len() && (#[trigger] cur[e]).index == j by {
            if j < k - 1 {
                let e = choose|e: int| 0 <= e < prev.len() && (#[trigger] prev[e]).index == j;
                assert(cur[e] == prev[e]);
            } else {
                assert(cur[cur.len() - 1].index == j);
            }
        }
        assert forall|a: int, b: int| 0 <= a < b < cur.len() implies (#[trigger] cur[a]).index < (
        #[trigger] cur[b]).index by {
            assert(cur[a] == prev[a]);
            if b < prev.len() {
                assert(cur[b] == prev[b]);
            }
        }
        assert forall|e: int| 0 <= e < cur.len() implies {
            let x = #[trigger] cur[e];
            &&& x.index < k
            &&& x.value == slots[x.index as int]
            &&& x.value != 0
            &&& x.measure == measure
            &&& x.count == slots.len()
        } by {
            if e < prev.len() {
                assert(cur[e] == prev[e]);
            }
        }
    }
}

/// Slot `j` of a data field's bytes, read in base 36.
pub open spec fn base36_slot(bytes: Seq<u8>, j: int) -> nat {
    slot_value(bytes[2 * j], bytes[2 * j + 1], 36)
}

/// Background sounds (channel `01`, player one) are base-36 keysound ids,
/// read exactly as visible notes read them: a `01` line adds one background
/// event for each non-zero two-character slot of its data, in slot order,
/// whose value is that slot read in base 36 and whose position is the slot's
/// index among the line's slots; the same data on channel `11` places the
/// very same events as notes; and the line adds no note, long-note event or
/// landmine.
pub proof fn lemma_bgm_reads_base36(lines: Seq<(u32, Seq<char>, Seq<char>)>, measure: u32, data: Seq<char>)
    requires
        encode_utf8(data).len() <= usize::MAX,
    ensures
        ({
            let before = side_model(lines, Player::One);
            let after = side_model(lines.push((measure, seq!['0', '1'], data)), Player::One);
            let added = after.bgm.skip(before.bgm.len() as int);
            let as_note = side_model(seq![(measure, seq!['1', '1'], data)], Player::One).notes;
            let bytes = encode_utf8(data);
            &&& after.bgm.take(before.bgm.len() as int) == before.bgm
            &&& after.notes == before.notes
            &&& after.long_events == before.long_events
            &&& after.mines == before.mines
            &&& added.len() == as_note.len()
            &&& forall|e: int| 0 <= e < added.len() ==> #[trigger] as_note[e] == (0usize, added[e])
            &&& forall|e: int|
                0 <= e < added.len() ==> {
                    let x = #[trigger] added[e];
                    &&& x.measure == measure
                    &&& x.count == bytes.len() / 2
                    &&& x.index < bytes.len() / 2
                    &&& x.value != 0
                    &&& x.value == base36_slot(bytes, x.index as int)
                }
            &&& forall|a: int, b: int|
                0 <= a < b < added.len() ==> (#[trigger] added[a]).index < (#[trigger] added[b]).index
            &&& forall|j: int|
                0 <= j < bytes.len() / 2 && #[trigger] base36_slot(bytes, j) != 0 ==> exists|e: int|
                    0 <= e < added.len() && (#[trigger] added[e]).index == j
        }),
{
    let before = side_model(lines, Player::One);
    let line = (measure, seq!['0', '1'], data);
    let all = lines.push(line);
    assert(all.drop_last() =~= lines);
    let after = side_model(all, Player::One);
    let slots = keyed_slots(data);
    let nz = nonzero_slots(measure, slots);
    assert(family_lane(seq!['0', '1'], '1') is None);
    assert(family_lane(seq!['0', '1'], '5') is None);
    assert(family_lane(seq!['0', '1'], 'D') is None);
    assert(after.bgm == before.bgm + nz);
    let added = after.bgm.skip(before.bgm.len() as int);
    assert(added =~= nz);
    assert(after.bgm.take(before.bgm.len() as int) =~= before.bgm);
    let one = seq![(measure, seq!['1', '1'], data)];
    assert(one.drop_last() =~= Seq::<(u32, Seq<char>, Seq<char>)>::empty());
    assert(family_lane(seq!['1', '1'], '1') == Some(0usize));
    let empty_side = SideModel { notes: seq![], long_events: seq![], mines: seq![], bgm: seq![] };
    assert(side_model(one.drop_last(), Player::One) == empty_side);
    assert(one.last() == (measure, seq!['1', '1'], data));
    let as_note = side_model(one, Player::One).notes;
    assert(as_note == empty_side.notes + tagged(0usize, nz));
    assert(as_note =~= tagged(0usize, nz));
    lemma_slots_upto_entries(measure, slots, slots.len());
    let bytes = encode_utf8(data);
    assert forall|e: int| 0 <= e < added.len() implies {
        let x = #[trigger] added[e];
        &&& x.measure == measure
        &&& x.count == bytes.len() / 2
        &&& x.index < bytes.len() / 2
        &&& x.value != 0
        &&& x.value == base36_slot(bytes, x.index as int)
    } by {
        assert(added[e] == nz[e]);
    }
    assert forall|a: int, b: int| 0 <= a < b < added.len() implies (#[trigger] added[a]).index < (
    #[trigger] added[b]).index by {
        assert(added[a] == nz[a] && added[b] == nz[b]);
    }
    assert forall|j: int| 0 <= j < bytes.len() / 2 && #[trigger] base36_slot(bytes, j) != 0 implies exists|e: int|
        0 <= e < added.len() && (#[trigger] added[e]).index == j by {
        assert(slots[j] == slot_value(bytes[2 * j], bytes[2 * j + 1], 36) as u32);
        let e = choose|e: int| 0 <= e < nz.len() && (#[trigger] nz[e]).index == j;
        assert(added[e] == nz[e]);
    }
}

} // verus!

//! Long-note pairing. Both ways a chart writes long notes come down to
//! walking note events in time order while remembering, per lane, the one
//! event that is still waiting for its partner:
//! - long-note channels (`51`..`59`): each lane's events pair up in turn,
//!   first with second, third with fourth; an unpaired last event is dropped;
//! - `#LNOBJ`: a note whose keysound is the end marker closes the latest
//!   open note of its lane, which becomes a long note ending there; the
//!   marker note itself is removed. A marker with nothing open is kept.

use vstd::prelude::*;
use std::collections::HashMap;

verus! {

broadcast use vstd::std_specs::hash::group_hash_axioms;

/// The pairs formed by the long-note channel rule when the events `order`
/// (indices into `lanes`) are visited in sequence; returns the pairs made
/// and the events still open per lane.
pub open spec fn ln_pairs_run(order: Seq<usize>, lanes: Seq<usize>) -> (Seq<(usize, usize)>, Map<usize, usize>)
    decreases order.len(),
{
    if order.len() == 0 {
        (seq![], Map::empty())
    } else {
        let (pairs, open) = ln_pairs_run(order.drop_last(), lanes);
        let i = order.last();
        let lane = lanes[i as int];
        if open.contains_key(lane) {
            (pairs.push((open[lane], i)), open.remove(lane))
        } else {
            (pairs, open.insert(lane, i))
        }
    }
}

/// Whether every entry of `order` indexes `lanes`.
pub open spec fn indexes(order: Seq<usize>, n: nat) -> bool {
    forall|k: int| 0 <= k < order.len() ==> #[trigger] order[k] < n
}

/// Pairs the events of each lane in the given time order: returns
/// `(start, end)` index pairs, in the order their ends are reached.
pub fn pair_long_events(order: &[usize], lanes: &[usize]) -> (r: Vec<(usize, usize)>)
    requires
        indexes(order@, lanes@.len()),
    ensures
        r@ == ln_pairs_run(order@, lanes@).0,
{
    let mut open: HashMap<usize, usize> = HashMap::new();
    let mut pairs: Vec<(usize, usize)> = Vec::new();
    let mut k: usize = 0;
    while k < order.len()
        invariant
            k <= order@.len(),
            indexes(order@, lanes@.len()),
            (pairs@, open@) == ln_pairs_run(order@.take(k as int), lanes@),
        decreases order@.len() - k,
    {
        assert(order@.take(k + 1).drop_last() =~= order@.take(k as int));
        let i = order[k];
        let lane = lanes[i];
        match open.remove(&lane) {
            Some(start) => {
                pairs.push((start, i));
            },
            None => {
                open.insert(lane, i);
            },
        }
        k = k + 1;
    }
    assert(order@.take(order@.len() as int) =~= order@);
    pairs
}

/// What pairing long-note events guarantees: both events of a pair lie in
/// the same lane, each lane keeps at most one event waiting for its partner,
/// and every event visited is either in a pair or the one waiting event of
/// its lane (the unpaired last event of a lane is what is left over).
pub proof fn lemma_long_pairs_sound(order: Seq<usize>, lanes: Seq<usize>)
    requires
        indexes(order, lanes.len()),
    ensures
        ({
            let (pairs, open) = ln_pairs_run(order, lanes);
            &&& forall|k: int|
                0 <= k < pairs.len() ==> {
                    let (a, b) = #[trigger] pairs[k];
                    &&& a < lanes.len()
                    &&& b < lanes.len()
                    &&& lanes[a as int] == lanes[b as int]
                }
            &&& forall|l: usize| #[trigger] open.contains_key(l) ==> open[l] < lanes.len() && lanes[open[l] as int] == l
            &&& open.dom().finite()
            &&& 2 * pairs.len() + open.dom().len() == order.len()
        }),
    decreases order.len(),
{
    if order.len() > 0 {
        let init = order.drop_last();
        assert(indexes(init, lanes.len()));
        assert(order.last() < lanes.len());
        lemma_long_pairs_sound(init, lanes);
        let (pairs0, open0) = ln_pairs_run(init, lanes);
        let (pairs, open) = ln_pairs_run(order, lanes);
        let i = order.last();
        let lane = lanes[i as int];
        if open0.contains_key(lane) {
            assert(open.dom() =~= open0.dom().remove(lane));
            assert forall|k: int| 0 <= k < pairs.len() implies {
                let (a, b) = #[trigger] pairs[k];
                &&& a < lanes.len()
                &&& b < lanes.len()
                &&& lanes[a as int] == lanes[b as int]
            } by {
                if k < pairs0.len() {
                    assert(pairs[k] == pairs0[k]);
                }
            }
        } else {
            assert(open.dom() =~= open0.dom().insert(lane));
        }
    }
}

/// The events of `order` that lie in lane `l`, in visiting order.
pub open spec fn lane_events(order: Seq<usize>, lanes: Seq<usize>, l: usize) -> Seq<usize>
    decreases order.len(),
{
    if order.len() == 0 {
        seq![]
    } else {
        let prev = lane_events(order.drop_last(), lanes, l);
        if lanes[order.last() as int] == l {
            prev.push(order.last())
        } else {
            prev
        }
    }
}

/// The pairs whose first event lies in lane `l`, in order.
pub open spec fn lane_pairs(pairs: Seq<(usize, usize)>, lanes: Seq<usize>, l: usize) -> Seq<(usize, usize)>
    decreases pairs.len(),
{
    if pairs.len() == 0 {
        seq![]
    } else {
        let prev = lane_pairs(pairs.drop_last(), lanes, l);
        if lanes[pairs.last().0 as int] == l {
            prev.push(pairs.last())
        } else {
            prev
        }
    }
}

/// Events taken two at a time: first with second, third with fourth; an
/// odd last event is left out.
pub open spec fn in_twos(s: Seq<usize>) -> Seq<(usize, usize)> {
    Seq::new(s.len() / 2, |k: int| (s[2 * k], s[2 * k + 1]))
}

/// Long-note pairing, lane by lane: the pairs of each lane are that lane's
/// events, in the given order, taken first with second, third with fourth,
/// and so on; a lane with an odd number of events keeps its last event
/// waiting, and that event is left unpaired.
pub proof fn lemma_long_pairs_per_lane(order: Seq<usize>, lanes: Seq<usize>, l: usize)
    requires
        indexes(order, lanes.len()),
    ensures
        ({
            let (pairs, open) = ln_pairs_run(order, lanes);
            let e = lane_events(order, lanes, l);
            &&& lane_pairs(pairs, lanes, l) == in_twos(e)
            &&& open.contains_key(l) <==> e.len() % 2 == 1
            &&& open.contains_key(l) ==> open[l] == e.last()
        }),
    decreases order.len(),
{
    if order.len() > 0 {
        let init = order.drop_last();
        assert(indexes(init, lanes.len()));
        lemma_long_pairs_per_lane(init, lanes, l);
        lemma_long_pairs_sound(init, lanes);
        let (pairs0, open0) = ln_pairs_run(init, lanes);
        let (pairs, open) = ln_pairs_run(order, lanes);
        let e0 = lane_events(init, lanes, l);
        let e = lane_events(order, lanes, l);
        let i = order.last();
        let li = lanes[i as int];
        if open0.contains_key(li) {
            let p = open0[li];
            assert(pairs == pairs0.push((p, i)));
            assert(pairs.drop_last() =~= pairs0);
            assert(lanes[p as int] == li);
            if li == l {
                assert(e == e0.push(i));
                assert(in_twos(e) =~= in_twos(e0).push((e0.last(), i)));
            } else {
                assert(e == e0);
            }
        } else {
            if li == l {
                assert(e == e0.push(i));
                assert(in_twos(e) =~= in_twos(e0));
            } else {
                assert(e == e0);
            }
        }
    }
}

/// The `#LNOBJ` pass state: the open note per lane, the end assigned to
/// each note, and which notes are removed.
pub struct LnobjState {
    pub open: Map<usize, usize>,
    pub ends: Seq<Option<usize>>,
    pub dropped: Seq<bool>,
}

/// The `#LNOBJ` rule over notes visited in `order`; `is_end[i]` says whether
/// note `i` carries the end-marker keysound.
pub open spec fn lnobj_run(order: Seq<usize>, lanes: Seq<usize>, is_end: Seq<bool>) -> LnobjState
    decreases order.len(),
{
    if order.len() == 0 {
        LnobjState {
            open: Map::empty(),
            ends: Seq::new(lanes.len(), |i: int| None),
            dropped: Seq::new(lanes.len(), |i: int| false),
        }
    } else {
        let s = lnobj_run(order.drop_last(), lanes, is_end);
        let i = order.last();
        let lane = lanes[i as int];
        if is_end[i as int] {
            if s.open.contains_key(lane) {
                LnobjState {
                    open: s.open.remove(lane),
                    ends: s.ends.update(s.open[lane] as int, Some(i)),
                    dropped: s.dropped.update(i as int, true),
                }
            } else {
                s
            }
        } else {
            LnobjState { open: s.open.insert(lane, i), ..s }
        }
    }
}

/// Applies the `#LNOBJ` rule: for each note, the note that ends it (if the
/// rule made it a long note) and whether the note is removed.
pub fn pair_lnobj(order: &[usize], lanes: &[usize], is_end: &[bool]) -> (r: (Vec<Option<usize>>, Vec<bool>))
    requires
        lanes@.len() == is_end@.len(),
        indexes(order@, lanes@.len()),
    ensures
        r.0@ == lnobj_run(order@, lanes@, is_end@).ends,
        r.1@ == lnobj_run(order@, lanes@, is_end@).dropped,
{
    let n = lanes.len();
    let mut ends: Vec<Option<usize>> = Vec::new();
    let mut dropped: Vec<bool> = Vec::new();
    let mut j: usize = 0;
    while j < n
        invariant
            j <= n,
            n == lanes@.len(),
            ends@ == Seq::new(j as nat, |i: int| None::<usize>),
            dropped@ == Seq::new(j as nat, |i: int| false),
        decreases n - j,
    {
        ends.push(None);
        dropped.push(false);
        j = j + 1;
        assert(ends@ =~= Seq::new(j as nat, |i: int| None::<usize>));
        assert(dropped@ =~= Seq::new(j as nat, |i: int| false));
    }
    let mut open: HashMap<usize, usize> = HashMap::new();
    assert(order@.take(0) =~= Seq::<usize>::empty());
    let mut k: usize = 0;
    while k < order.len()
        invariant
            k <= order@.len(),
            n == lanes@.len(),
            n == is_end@.len(),
            indexes(order@, n as nat),
            ends@.len() == n,
            dropped@.len() == n,
            forall|l: usize| #[trigger] open@.contains_key(l) ==> open@[l] < n,
            ({
                let s = lnobj_run(order@.take(k as int), lanes@, is_end@);
                s.open == open@ && s.ends == ends@ && s.dropped == dropped@
            }),
        decreases order@.len() - k,
    {
        assert(order@.take(k + 1).drop_last() =~= order@.take(k as int));
        let i = order[k];
        let lane = lanes[i];
        if is_end[i] {
            match open.remove(&lane) {
                Some(p) => {
                    ends.set(p, Some(i));
                    dropped.set(i, true);
                },
                None => {},
            }
        } else {
            open.insert(lane, i);
        }
        k = k + 1;
    }
    assert(order@.take(order@.len() as int) =~= order@);
    (ends, dropped)
}

/// What the `#LNOBJ` rule guarantees: only end markers are removed, and a
/// note given an end is not itself a marker, shares its lane with the marker
/// that ends it, and that marker is removed.
pub proof fn lemma_lnobj_sound(order: Seq<usize>, lanes: Seq<usize>, is_end: Seq<bool>)
    requires
        lanes.len() == is_end.len(),
        indexes(order, lanes.len()),
    ensures
        ({
            let s = lnobj_run(order, lanes, is_end);
            &&& s.ends.len() == lanes.len()
            &&& s.dropped.len() == lanes.len()
            &&& forall|t: int| 0 <= t < lanes.len() && #[trigger] s.dropped[t] ==> is_end[t]
            &&& forall|p: int|
                0 <= p < lanes.len() && #[trigger] s.ends[p] is Some ==> {
                    let t = s.ends[p]->0 as int;
                    &&& t < lanes.len()
                    &&& !is_end[p]
                    &&& is_end[t]
                    &&& lanes[p] == lanes[t]
                    &&& s.dropped[t]
                }
        }),
    decreases order.len(),
{
    if order.len() > 0 {
        let init = order.drop_last();
        assert(indexes(init, lanes.len()));
        assert(order.last() < lanes.len());
        lemma_lnobj_sound(init, lanes, is_end);
        lemma_lnobj_open(init, lanes, is_end);
        let s0 = lnobj_run(init, lanes, is_end);
        let s = lnobj_run(order, lanes, is_end);
        let i = order.last();
        let lane = lanes[i as int];
        if is_end[i as int] && s0.open.contains_key(lane) {
            let q = s0.open[lane];
            assert forall|t: int| 0 <= t < lanes.len() && #[trigger] s.dropped[t] implies is_end[t] by {
                if t != i {
                    assert(s.dropped[t] == s0.dropped[t]);
                }
            }
            assert forall|p: int| 0 <= p < lanes.len() && #[trigger] s.ends[p] is Some implies {
                let t = s.ends[p]->0 as int;
                &&& t < lanes.len()
                &&& !is_end[p]
                &&& is_end[t]
                &&& lanes[p] == lanes[t]
                &&& s.dropped[t]
            } by {
                if p != q {
                    assert(s.ends[p] == s0.ends[p]);
                    let t = s.ends[p]->0 as int;
                    assert(s0.dropped[t]);
                    if t != i {
                        assert(s.dropped[t] == s0.dropped[t]);
                    }
                }
            }
        }
    }
}

/// The open notes are never markers and sit in their own lane.
proof fn lemma_lnobj_open(order: Seq<usize>, lanes: Seq<usize>, is_end: Seq<bool>)
    requires
        lanes.len() == is_end.len(),
        indexes(order, lanes.len()),
    ensures
        ({
            let s = lnobj_run(order, lanes, is_end);
            forall|l: usize| #[trigger] s.open.contains_key(l) ==> {
                &&& s.open[l] < lanes.len()
                &&& !is_end[s.open[l] as int]
                &&& lanes[s.open[l] as int] == l
            }
        }),
    decreases order.len(),
{
    if order.len() > 0 {
        let init = order.drop_last();
        assert(indexes(init, lanes.len()));
        assert(order.last() < lanes.len());
        lemma_lnobj_open(init, lanes, is_end);
        let s0 = lnobj_run(init, lanes, is_end);
        let s = lnobj_run(order, lanes, is_end);
        let i = order.last();
        let lane = lanes[i as int];
        assert forall|l: usize| #[trigger] s.open.contains_key(l) implies {
            &&& s.open[l] < lanes.len()
            &&& !is_end[s.open[l] as int]
            &&& lanes[s.open[l] as int] == l
        } by {
            if l != lane {
                assert(s0.open.contains_key(l));
                assert(s.open[l] == s0.open[l]);
            }
        }
    }
}

/// Whether no index occurs twice in `order`.
pub open spec fn distinct(order: Seq<usize>) -> bool {
    forall|a: int, b: int| 0 <= a < b < order.len() ==> order[a] != order[b]
}

/// A lane's events are events of `order` in that lane, each once when
/// `order` has no repeats.
proof fn lemma_lane_events_members(order: Seq<usize>, lanes: Seq<usize>, l: usize)
    ensures
        forall|k: int|
            0 <= k < lane_events(order, lanes, l).len() ==> {
                let x = #[trigger] lane_events(order, lanes, l)[k];
                &&& lanes[x as int] == l
                &&& order.contains(x)
            },
        distinct(order) ==> distinct(lane_events(order, lanes, l)),
    decreases order.len(),
{
    if order.len() > 0 {
        let init = order.drop_last();
        lemma_lane_events_members(init, lanes, l);
        let e0 = lane_events(init, lanes, l);
        let e = lane_events(order, lanes, l);
        assert forall|k: int| 0 <= k < e.len() implies {
            let x = #[trigger] e[k];
            &&& lanes[x as int] == l
            &&& order.contains(x)
        } by {
            if k < e0.len() {
                assert(e[k] == e0[k]);
                let j = choose|j: int| 0 <= j < init.len() && init[j] == e0[k];
                assert(order[j] == init[j]);
            } else {
                assert(order[order.len() - 1] == order.last());
            }
        }
        if distinct(order) {
            assert(distinct(init)) by {
                assert forall|a: int, b: int| 0 <= a < b < init.len() implies init[a] != init[b] by {
                    assert(init[a] == order[a] && init[b] == order[b]);
                }
            }
            if lanes[order.last() as int] == l {
                assert forall|a: int, b: int| 0 <= a < b < e.len() implies e[a] != e[b] by {
                    if b == e.len() - 1 {
                        assert(e[a] == e0[a]);
                        let j = choose|j: int| 0 <= j < init.len() && init[j] == e0[a];
                        assert(order[j] == e0[a]);
                        assert(order[order.len() - 1] == e[b]);
                    } else {
                        assert(e[a] == e0[a] && e[b] == e0[b]);
                    }
                }
            }
        }
    }
}

/// Notes that have not been visited are neither given an end nor removed.
proof fn lemma_lnobj_unvisited(order: Seq<usize>, lanes: Seq<usize>, is_end: Seq<bool>, x: int)
    requires
        lanes.len() == is_end.len(),
        indexes(order, lanes.len()),
        0 <= x < lanes.len(),
        !order.contains(x as usize),
    ensures
        lnobj_run(order, lanes, is_end).dropped[x] == false,
        lnobj_run(order, lanes, is_end).ends[x] is None,
    decreases order.len(),
{
    if order.len() > 0 {
        let init = order.drop_last();
        assert(indexes(init, lanes.len()));
        assert(!init.contains(x as usize)) by {
            if init.contains(x as usize) {
                let j = choose|j: int| 0 <= j < init.len() && init[j] == x as usize;
                assert(order[j] == init[j]);
            }
        }
        assert(order[order.len() - 1] != x as usize);
        lemma_lnobj_unvisited(init, lanes, is_end, x);
        lemma_lnobj_sound(init, lanes, is_end);
        lemma_lnobj_open(init, lanes, is_end);
        let s0 = lnobj_run(init, lanes, is_end);
        let lane = lanes[order.last() as int];
        if is_end[order.last() as int] && s0.open.contains_key(lane) {
            let p = s0.open[lane];
            if p as int == x {
                assert(!is_end[p as int]);
                lemma_lnobj_open_visited(init, lanes, is_end, lane);
            }
        }
    }
}

/// The open note of a lane is a note that has been visited.
proof fn lemma_lnobj_open_visited(order: Seq<usize>, lanes: Seq<usize>, is_end: Seq<bool>, l: usize)
    requires
        lanes.len() == is_end.len(),
        indexes(order, lanes.len()),
    ensures
        lnobj_run(order, lanes, is_end).open.contains_key(l) ==> order.contains(
            lnobj_run(order, lanes, is_end).open[l],
        ),
    decreases order.len(),
{
    if order.len() > 0 {
        let init = order.drop_last();
        assert(indexes(init, lanes.len()));
        lemma_lnobj_open_visited(init, lanes, is_end, l);
        let s0 = lnobj_run(init, lanes, is_end);
        let s = lnobj_run(order, lanes, is_end);
        if s.open.contains_key(l) {
            if s.open[l] == order.last() {
                assert(order[order.len() - 1] == order.last());
            } else {
                assert(s0.open.contains_key(l) && s.open[l] == s0.open[l]);
                let j = choose|j: int| 0 <= j < init.len() && init[j] == s0.open[l];
                assert(order[j] == init[j]);
            }
        }
    }
}

/// The `#LNOBJ` rule, lane by lane, for notes visited once each in time
/// order: within a lane, an end marker is removed exactly when the note just
/// before it in that lane exists and is not a marker itself, and that note
/// then ends at the marker; no other note is removed or given an end.
pub proof fn lemma_lnobj_per_lane(order: Seq<usize>, lanes: Seq<usize>, is_end: Seq<bool>, l: usize)
    requires
        lanes.len() == is_end.len(),
        indexes(order, lanes.len()),
        distinct(order),
    ensures
        ({
            let s = lnobj_run(order, lanes, is_end);
            let e = lane_events(order, lanes, l);
            &&& forall|k: int|
                0 <= k < e.len() ==> s.dropped[#[trigger] e[k] as int] == (is_end[e[k] as int] && k > 0
                    && !is_end[e[k - 1] as int])
            &&& forall|k: int|
                0 <= k < e.len() ==> s.ends[#[trigger] e[k] as int] == if !is_end[e[k] as int] && k + 1 < e.len()
                    && is_end[e[k + 1] as int] {
                    Some(e[k + 1])
                } else {
                    None
                }
            &&& s.open.contains_key(l) <==> e.len() > 0 && !is_end[e.last() as int]
            &&& s.open.contains_key(l) ==> s.open[l] == e.last()
        }),
    decreases order.len(),
{
    if order.len() > 0 {
        let init = order.drop_last();
        assert(indexes(init, lanes.len()));
        assert(distinct(init)) by {
            assert forall|a: int, b: int| 0 <= a < b < init.len() implies init[a] != init[b] by {
                assert(init[a] == order[a] && init[b] == order[b]);
            }
        }
        lemma_lnobj_per_lane(init, lanes, is_end, l);
        lemma_lnobj_sound(init, lanes, is_end);
        lemma_lnobj_open(init, lanes, is_end);
        lemma_lane_events_members(init, lanes, l);
        lemma_lane_events_members(order, lanes, l);
        let s0 = lnobj_run(init, lanes, is_end);
        let s = lnobj_run(order, lanes, is_end);
        let e0 = lane_events(init, lanes, l);
        let e = lane_events(order, lanes, l);
        let i = order.last();
        let li = lanes[i as int];
        assert(order.last() < lanes.len());
        assert(!init.contains(i)) by {
            if init.contains(i) {
                let j = choose|j: int| 0 <= j < init.len() && init[j] == i;
                assert(order[j] == init[j]);
                assert(order[order.len() - 1] == i);
            }
        }
        lemma_lnobj_unvisited(init, lanes, is_end, i as int);
        // Members of this lane's events before `i` differ from `i`.
        assert forall|k: int| 0 <= k < e0.len() implies #[trigger] e0[k] != i by {
            assert(init.contains(e0[k]));
        }
        if li == l {
            assert(e == e0.push(i));
        } else {
            assert(e == e0);
        }
        if is_end[i as int] && s0.open.contains_key(li) {
            let p = s0.open[li];
            assert(lanes[p as int] == li);
            assert forall|k: int| 0 <= k < e.len() implies s.dropped[#[trigger] e[k] as int] == (
            is_end[e[k] as int] && k > 0 && !is_end[e[k - 1] as int]) by {
                if k < e0.len() {
                    assert(e[k] == e0[k]);
                    if k > 0 {
                        assert(e[k - 1] == e0[k - 1]);
                    }
                }
            }
            assert forall|k: int| 0 <= k < e.len() implies s.ends[#[trigger] e[k] as int] == if !is_end[e[k] as int]
                && k + 1 < e.len() && is_end[e[k + 1] as int] {
                Some(e[k + 1])
            } else {
                None
            } by {
                if k < e0.len() {
                    assert(e[k] == e0[k]);
                    if k + 1 < e0.len() {
                        assert(e[k + 1] == e0[k + 1]);
                    }
                    if li == l && k == e0.len() - 1 {
                        assert(p == e0.last());
                    } else if e0[k] == p {
                        assert(lanes[e0[k] as int] == l);
                        assert(li == l);
                        assert(distinct(e0));
                        assert(e0[k] == e0[e0.len() - 1]);
                    }
                }
            }
        } else if is_end[i as int] {
            assert forall|k: int| 0 <= k < e.len() implies s.dropped[#[trigger] e[k] as int] == (
            is_end[e[k] as int] && k > 0 && !is_end[e[k - 1] as int]) by {
                if k < e0.len() {
                    assert(e[k] == e0[k]);
                    if k > 0 {
                        assert(e[k - 1] == e0[k - 1]);
                    }
                }
            }
            assert forall|k: int| 0 <= k < e.len() implies s.ends[#[trigger] e[k] as int] == if !is_end[e[k] as int]
                && k + 1 < e.len() && is_end[e[k + 1] as int] {
                Some(e[k + 1])
            } else {
                None
            } by {
                if k < e0.len() {
                    assert(e[k] == e0[k]);
                    if k + 1 < e0.len() {
                        assert(e[k + 1] == e0[k + 1]);
                    }
                }
            }
        } else {
            assert forall|k: int| 0 <= k < e.len() implies s.dropped[#[trigger] e[k] as int] == (
            is_end[e[k] as int] && k > 0 && !is_end[e[k - 1] as int]) by {
                if k < e0.len() {
                    assert(e[k] == e0[k]);
                    if k > 0 {
                        assert(e[k - 1] == e0[k - 1]);
                    }
                }
            }
            assert forall|k: int| 0 <= k < e.len() implies s.ends[#[trigger] e[k] as int] == if !is_end[e[k] as int]
                && k + 1 < e.len() && is_end[e[k + 1] as int] {
                Some(e[k + 1])
            } else {
                None
            } by {
                if k < e0.len() {
                    assert(e[k] == e0[k]);
                    if k + 1 < e0.len() {
                        assert(e[k + 1] == e0[k + 1]);
                    }
                }
            }
        }
    }
}

} // verus!

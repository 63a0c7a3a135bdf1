//! Lane bookkeeping: the set of lanes a chart uses, the lane count that
//! follows from it, the key bindings of each lane count, and the lookup
//! from a pressed key to its lane.

use vstd::prelude::*;
use crate::channels::{channel_to_lane, family_lane};
use crate::text::{upper, upper_char};

verus! {

/// The lanes seen while reading a chart.
pub struct LaneSet {
    lanes: Vec<usize>,
}

/// The lane count a set of used lanes calls for: 7 when a lane past 4 is
/// used, 5 when lane 3 or 4 is the highest (or nothing is used), 4 otherwise.
pub open spec fn lane_count_for(s: Set<usize>) -> usize {
    if exists|l: usize| s.contains(l) && l >= 5 {
        7
    } else if s.is_empty() || exists|l: usize| s.contains(l) && l >= 3 {
        5
    } else {
        4
    }
}

impl View for LaneSet {
    type V = Set<usize>;

    closed spec fn view(&self) -> Set<usize> {
        self.lanes@.to_set()
    }
}

impl LaneSet {
    /// An empty set.
    pub fn new() -> (r: LaneSet)
        ensures
            r@ == Set::<usize>::empty(),
    {
        let r = LaneSet { lanes: Vec::new() };
        assert(r.lanes@.to_set() =~= Set::<usize>::empty());
        r
    }

    /// Records a lane.
    pub fn observe_lane(&mut self, lane: usize)
        ensures
            final(self)@ == old(self)@.insert(lane),
    {
        let ghost before = self.lanes@;
        let mut k: usize = 0;
        while k < self.lanes.len()
            invariant
                k <= self.lanes@.len(),
                self.lanes@ == before,
                forall|j: int| 0 <= j < k ==> self.lanes@[j] != lane,
            decreases self.lanes@.len() - k,
        {
            if self.lanes[k] == lane {
                assert(before.to_set().insert(lane) =~= before.to_set()) by {
                    assert(before.contains(lane));
                }
                return;
            }
            k = k + 1;
        }
        self.lanes.push(lane);
        assert(self.lanes@.to_set() =~= before.to_set().insert(lane)) by {
            assert forall|x: usize| #[trigger] self.lanes@.contains(x) <==> before.contains(x) || x == lane by {
                if self.lanes@.contains(x) {
                    let j = choose|j: int| 0 <= j < self.lanes@.len() && self.lanes@[j] == x;
                    if j < before.len() {
                        assert(before[j] == x);
                    }
                }
                if before.contains(x) {
                    let j = choose|j: int| 0 <= j < before.len() && before[j] == x;
                    assert(self.lanes@[j] == x);
                }
                if x == lane {
                    assert(self.lanes@[before.len() as int] == x);
                }
            }
        }
    }

    /// Records the lane of a player-1 visible channel; other channels are ignored.
    pub fn observe(&mut self, ch: &str)
        ensures
            final(self)@ == (match family_lane(ch@, '1') {
                Some(l) => old(self)@.insert(l),
                None => old(self)@,
            }),
    {
        match channel_to_lane(ch) {
            Some(lane) => self.observe_lane(lane),
            None => {},
        }
    }

    /// The lane count the recorded lanes call for.
    pub fn count(&self) -> (r: usize)
        ensures
            r == lane_count_for(self@),
            r == 4 || r == 5 || r == 7,
    {
        let ghost s = self.lanes@.to_set();
        if self.lanes.len() == 0 {
            assert(s =~= Set::<usize>::empty());
            return 5;
        }
        let mut max: usize = self.lanes[0];
        let mut k: usize = 1;
        while k < self.lanes.len()
            invariant
                1 <= k <= self.lanes@.len(),
                forall|j: int| 0 <= j < k ==> self.lanes@[j] <= max,
                exists|j: int| 0 <= j < k && self.lanes@[j] == max,
            decreases self.lanes@.len() - k,
        {
            if self.lanes[k] > max {
                max = self.lanes[k];
            }
            k = k + 1;
        }
        proof {
            let j = choose|j: int| 0 <= j < self.lanes@.len() && self.lanes@[j] == max;
            assert(s.contains(self.lanes@[j]));
            assert forall|l: usize| s.contains(l) implies l <= max by {
                let q = choose|q: int| 0 <= q < self.lanes@.len() && self.lanes@[q] == l;
            }
        }
        if max >= 5 {
            7
        } else if max >= 3 {
            5
        } else {
            4
        }
    }
}

impl Default for LaneSet {
    fn default() -> (r: LaneSet)
        ensures
            r@ == Set::<usize>::empty(),
    {
        LaneSet::new()
    }
}

/// Once some lane is recorded, recording more lanes never lowers the lane
/// count. (From nothing recorded the count is 5, and a first low lane brings
/// it down to 4.)
pub proof fn lemma_lane_count_monotone(s: Set<usize>, t: Set<usize>)
    requires
        s.subset_of(t),
        !s.is_empty(),
    ensures
        lane_count_for(s) <= lane_count_for(t),
{
    if exists|l: usize| s.contains(l) && l >= 5 {
        let l = choose|l: usize| s.contains(l) && l >= 5;
        assert(t.contains(l));
    } else if exists|l: usize| s.contains(l) && l >= 3 {
        let l = choose|l: usize| s.contains(l) && l >= 3;
        assert(t.contains(l));
    }
    if !t.is_empty() && s.is_empty() {
    }
    let x = s.choose();
    assert(s.contains(x));
    assert(t.contains(x));
}

/// The key bindings of each lane count: 4 lanes `S D K L`, 5 lanes
/// `S D F/J K L` (the centre lane takes either index finger), 7 lanes
/// `S D F SPACE J K L`. Other counts use the 4-lane layout.
pub open spec fn keymap(lane_count: usize) -> Seq<Seq<char>> {
    if lane_count == 5 {
        seq![seq!['S'], seq!['D'], seq!['F', 'J'], seq!['K'], seq!['L']]
    } else if lane_count == 7 {
        seq![seq!['S'], seq!['D'], seq!['F'], seq![' '], seq!['J'], seq!['K'], seq!['L']]
    } else {
        seq![seq!['S'], seq!['D'], seq!['K'], seq!['L']]
    }
}

/// The character sequences of a list of key lists.
pub open spec fn key_views(v: Seq<Vec<char>>) -> Seq<Seq<char>> {
    v.map_values(|x: Vec<char>| x@)
}

/// The key bindings for a lane count.
pub fn keys_for(lane_count: usize) -> (r: Vec<Vec<char>>)
    ensures
        key_views(r@) == keymap(lane_count),
{
    let r = if lane_count == 5 {
        vec![vec!['S'], vec!['D'], vec!['F', 'J'], vec!['K'], vec!['L']]
    } else if lane_count == 7 {
        vec![vec!['S'], vec!['D'], vec!['F'], vec![' '], vec!['J'], vec!['K'], vec!['L']]
    } else {
        vec![vec!['S'], vec!['D'], vec!['K'], vec!['L']]
    };
    proof {
        let k = keymap(lane_count);
        assert(key_views(r@).len() == k.len());
        assert forall|i: int| 0 <= i < k.len() implies key_views(r@)[i] =~= k[i] by {
            assert(key_views(r@)[i] == r@[i]@);
        }
        assert(key_views(r@) =~= k);
    }
    r
}

/// Whether a lane's key list binds character `c`, ignoring ASCII case.
pub open spec fn binds(ks: Seq<char>, c: char) -> bool {
    exists|j: int| 0 <= j < ks.len() && upper(ks[j]) == upper(c)
}

/// The standard key layouts have one non-empty binding list per lane, and
/// every binding of a lane, in either ASCII case, selects that lane.
pub proof fn lemma_keymap_round_trip(n: usize, l: int, j: int, c: char)
    requires
        n == 4 || n == 5 || n == 7,
        0 <= l < keymap(n).len(),
        0 <= j < keymap(n)[l].len(),
        upper(c) == upper(keymap(n)[l][j]),
    ensures
        keymap(n).len() == n,
        keymap(n)[l].len() > 0,
        lane_of_key(keymap(n), c) == Some(l),
{
    reveal_with_fuel(lane_of_key, 8);
    let k = keymap(n);
    assert(binds(k[l], c));
    assert forall|m: int| 0 <= m < k.len() && m != l implies !binds(#[trigger] k[m], c) by {
        if binds(k[m], c) {
            let q = choose|q: int| 0 <= q < k[m].len() && upper(k[m][q]) == upper(c);
        }
    }
    lemma_lane_of_key_first(k, l, c);
}

/// If lane `l` is the only lane binding `c`, the lookup finds it.
proof fn lemma_lane_of_key_first(keys: Seq<Seq<char>>, l: int, c: char)
    requires
        0 <= l < keys.len(),
        binds(keys[l], c),
        forall|m: int| 0 <= m < keys.len() && m != l ==> !binds(#[trigger] keys[m], c),
    ensures
        lane_of_key(keys, c) == Some(l),
    decreases keys.len(),
{
    let init = keys.drop_last();
    if l < keys.len() - 1 {
        assert forall|m: int| 0 <= m < init.len() && m != l implies !binds(#[trigger] init[m], c) by {
            assert(init[m] == keys[m]);
        }
        assert(init[l] == keys[l]);
        lemma_lane_of_key_first(init, l, c);
    } else {
        lemma_lane_of_key_none(init, c, keys);
    }
}

proof fn lemma_lane_of_key_none(init: Seq<Seq<char>>, c: char, keys: Seq<Seq<char>>)
    requires
        init.len() < keys.len(),
        forall|m: int| 0 <= m < init.len() ==> init[m] == keys[m],
        forall|m: int| 0 <= m < init.len() ==> !binds(#[trigger] keys[m], c),
    ensures
        lane_of_key(init, c) is None,
    decreases init.len(),
{
    if init.len() > 0 {
        let shorter = init.drop_last();
        assert forall|m: int| 0 <= m < shorter.len() implies shorter[m] == keys[m] by {
            assert(shorter[m] == init[m]);
        }
        lemma_lane_of_key_none(shorter, c, keys);
        assert(!binds(keys[init.len() - 1], c));
    }
}

/// The first lane whose keys bind `c`.
pub open spec fn lane_of_key(keys: Seq<Seq<char>>, c: char) -> Option<int>
    decreases keys.len(),
{
    if keys.len() == 0 {
        None
    } else {
        match lane_of_key(keys.drop_last(), c) {
            Some(l) => Some(l),
            None => if binds(keys.last(), c) { Some(keys.len() - 1) } else { None },
        }
    }
}

fn binds_exec(ks: &[char], c: char) -> (r: bool)
    ensures
        r == binds(ks@, c),
{
    let up = upper_char(c);
    let mut j: usize = 0;
    while j < ks.len()
        invariant
            j <= ks@.len(),
            up == upper(c),
            forall|q: int| 0 <= q < j ==> upper(ks@[q]) != upper(c),
        decreases ks@.len() - j,
    {
        if upper_char(ks[j]) == up {
            return true;
        }
        j = j + 1;
    }
    false
}

/// The lane a pressed character plays: the first lane with a binding equal
/// to it up to ASCII case.
pub fn lane_for_key(c: char, keys: &[Vec<char>]) -> (r: Option<usize>)
    ensures
        match lane_of_key(key_views(keys@), c) {
            Some(l) => r == Some(l as usize),
            None => r is None,
        },
{
    let mut l: usize = 0;
    while l < keys.len()
        invariant
            l <= keys@.len(),
            lane_of_key(key_views(keys@).take(l as int), c) is None,
        decreases keys@.len() - l,
    {
        let ghost pre = key_views(keys@).take(l as int);
        let ghost next = key_views(keys@).take(l + 1);
        assert(next.drop_last() =~= pre);
        assert(next.last() == keys@[l as int]@);
        if binds_exec(keys[l].as_slice(), c) {
            proof {
                lemma_lane_of_key_extend(key_views(keys@), l as int + 1, c);
            }
            return Some(l);
        }
        l = l + 1;
    }
    assert(key_views(keys@).take(keys@.len() as int) =~= key_views(keys@));
    None
}

/// Once a prefix of the lanes binds the key, longer prefixes give the same lane.
proof fn lemma_lane_of_key_extend(keys: Seq<Seq<char>>, i: int, c: char)
    requires
        0 <= i <= keys.len(),
        lane_of_key(keys.take(i), c) is Some,
    ensures
        lane_of_key(keys, c) == lane_of_key(keys.take(i), c),
    decreases keys.len() - i,
{
    if i < keys.len() {
        assert(keys.take(i + 1).drop_last() =~= keys.take(i));
        lemma_lane_of_key_extend(keys, i + 1, c);
    } else {
        assert(keys.take(i) =~= keys);
    }
}

} // verus!

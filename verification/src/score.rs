//! Judgment tiers and the running tally of a play session.

use vstd::prelude::*;

verus! {

/// How well a single note was hit.
#[derive(Debug, Clone, Copy, PartialEq, Eq, Structural)]
pub enum Judgment {
    Perfect,
    Great,
    Good,
    Miss,
}

/// Base points of each tier: 300 / 200 / 100 / 0.
pub open spec fn judgment_points(j: Judgment) -> nat {
    match j {
        Judgment::Perfect => 300,
        Judgment::Great => 200,
        Judgment::Good => 100,
        Judgment::Miss => 0,
    }
}

impl Judgment {
    pub fn points(self) -> (p: u32)
        ensures
            p == judgment_points(self),
    {
        match self {
            Judgment::Perfect => 300,
            Judgment::Great => 200,
            Judgment::Good => 100,
            Judgment::Miss => 0,
        }
    }
}


/// `n`, plus one when `hit`, widened to 64 bits.
fn bumped(hit: bool, n: u32) -> (r: u64)
    ensures
        r == n + if hit { 1int } else { 0int },
{
    if hit {
        n as u64 + 1
    } else {
        n as u64
    }
}

/// The counters a play session keeps: score, current and best combo, and
/// how many notes landed in each tier.
#[derive(Debug, Clone, Copy, PartialEq, Eq, Structural)]
pub struct Tally {
    pub score: u32,
    pub combo: u32,
    pub max_combo: u32,
    pub perfect: u32,
    pub great: u32,
    pub good: u32,
    pub miss: u32,
}

/// The bonus a hit earns on top of its base points: the combo, capped at 50.
pub open spec fn combo_bonus(combo: nat) -> nat {
    if combo < 50 { combo } else { 50 }
}

/// The tally after one more judgment, computed over unbounded integers.
pub open spec fn tally_step(t: Tally, j: Judgment) -> (int, int, int, int, int, int, int) {
    let combo: int = if j == Judgment::Miss { 0 } else { t.combo + 1 };
    let max_combo: int = if j == Judgment::Miss {
        t.max_combo as int
    } else if combo > t.max_combo {
        combo
    } else {
        t.max_combo as int
    };
    (
        t.score + judgment_points(j) + combo_bonus(combo as nat),
        combo,
        max_combo,
        t.perfect + if j == Judgment::Perfect { 1int } else { 0 },
        t.great + if j == Judgment::Great { 1int } else { 0 },
        t.good + if j == Judgment::Good { 1int } else { 0 },
        t.miss + if j == Judgment::Miss { 1int } else { 0 },
    )
}

/// Whether every counter of `tally_step(t, j)` still fits in a `u32`.
pub open spec fn step_fits(t: Tally, j: Judgment) -> bool {
    let s = tally_step(t, j);
    &&& s.0 <= u32::MAX
    &&& s.1 <= u32::MAX
    &&& s.3 <= u32::MAX
    &&& s.4 <= u32::MAX
    &&& s.5 <= u32::MAX
    &&& s.6 <= u32::MAX
}

/// The tally after one more judgment, as a `Tally` (meaningful when `step_fits`).
pub open spec fn tally_after(t: Tally, j: Judgment) -> Tally {
    let s = tally_step(t, j);
    Tally {
        score: s.0 as u32,
        combo: s.1 as u32,
        max_combo: s.2 as u32,
        perfect: s.3 as u32,
        great: s.4 as u32,
        good: s.5 as u32,
        miss: s.6 as u32,
    }
}

impl Tally {
    /// Number of judgments recorded so far.
    pub open spec fn judged(self) -> int {
        self.perfect + self.great + self.good + self.miss
    }

    /// The consistency every reachable tally keeps: the best combo is at
    /// least the current one, and the combo never exceeds the non-miss hits.
    pub open spec fn wf(self) -> bool {
        &&& self.combo <= self.max_combo
        &&& self.combo <= self.perfect + self.great + self.good
    }

    /// A fresh tally: everything zero.
    pub fn new() -> (t: Tally)
        ensures
            t == (Tally { score: 0, combo: 0, max_combo: 0, perfect: 0, great: 0, good: 0, miss: 0 }),
            t.wf(),
    {
        Tally { score: 0, combo: 0, max_combo: 0, perfect: 0, great: 0, good: 0, miss: 0 }
    }

    /// Whether recording `j` keeps every counter within a `u32`.
    pub fn fits(&self, j: Judgment) -> (r: bool)
        ensures
            r == step_fits(*self, j),
    {
        let combo: u64 = if j == Judgment::Miss { 0 } else { self.combo as u64 + 1 };
        let bonus: u64 = if combo < 50 { combo } else { 50 };
        let score: u64 = self.score as u64 + j.points() as u64 + bonus;
        let max: u64 = u32::MAX as u64;
        score <= max && combo <= max && bumped(j == Judgment::Perfect, self.perfect) <= max
            && bumped(j == Judgment::Great, self.great) <= max && bumped(j == Judgment::Good, self.good) <= max
            && bumped(j == Judgment::Miss, self.miss) <= max
    }

    /// Records one judgment: bumps its tier counter, extends or resets the
    /// combo, tracks the best combo, and adds the tier's points plus the
    /// capped combo bonus to the score.
    pub fn apply(&mut self, j: Judgment)
        requires
            step_fits(*old(self), j),
        ensures
            *final(self) == tally_after(*old(self), j),
    {
        match j {
            Judgment::Perfect => self.perfect = self.perfect + 1,
            Judgment::Great => self.great = self.great + 1,
            Judgment::Good => self.good = self.good + 1,
            Judgment::Miss => self.miss = self.miss + 1,
        }
        if j == Judgment::Miss {
            self.combo = 0;
        } else {
            self.combo = self.combo + 1;
            if self.combo > self.max_combo {
                self.max_combo = self.combo;
            }
        }
        let bonus: u32 = if self.combo < 50 { self.combo } else { 50 };
        self.score = self.score + j.points() + bonus;
    }
}

/// Recording a judgment keeps the tally consistent, counts exactly one more
/// judgment, never lowers the score, raises it for every non-miss, leaves it
/// unchanged on a miss while resetting the combo, and never lowers the best
/// combo.
pub proof fn lemma_apply_laws(t: Tally, j: Judgment)
    requires
        t.wf(),
        step_fits(t, j),
    ensures
        tally_after(t, j).wf(),
        tally_after(t, j).judged() == t.judged() + 1,
        tally_after(t, j).score >= t.score,
        j != Judgment::Miss ==> tally_after(t, j).score > t.score,
        j == Judgment::Miss ==> tally_after(t, j).score == t.score && tally_after(t, j).combo == 0,
        tally_after(t, j).max_combo >= t.max_combo,
{
}

/// A tally after a sequence of judgments, in order.
pub open spec fn tally_run(t: Tally, js: Seq<Judgment>) -> Tally
    decreases js.len(),
{
    if js.len() == 0 {
        t
    } else {
        tally_after(tally_run(t, js.drop_last()), js.last())
    }
}

/// The combo bonuses of an unbroken run of `n` hits: 1 + 2 + ... with each
/// term capped at 50.
pub open spec fn run_bonus(n: nat) -> nat
    decreases n,
{
    if n == 0 {
        0
    } else {
        run_bonus((n - 1) as nat) + combo_bonus(n)
    }
}

/// The fresh tally.
pub open spec fn zero_tally() -> Tally {
    Tally { score: 0, combo: 0, max_combo: 0, perfect: 0, great: 0, good: 0, miss: 0 }
}

/// A full-combo run of `n` Perfect hits from a fresh tally scores
/// `300 * n` plus the capped combo bonuses, with combo and best combo `n`
/// and no miss, for every run whose score fits a `u32`.
pub proof fn lemma_perfect_run(n: nat)
    requires
        300 * n + run_bonus(n) <= u32::MAX,
    ensures
        run_bonus(n) <= 50 * n,
        tally_run(zero_tally(), Seq::new(n, |i: int| Judgment::Perfect)) == (Tally {
            score: (300 * n + run_bonus(n)) as u32,
            combo: n as u32,
            max_combo: n as u32,
            perfect: n as u32,
            great: 0,
            good: 0,
            miss: 0,
        }),
    decreases n,
{
    if n > 0 {
        let js = Seq::new(n, |i: int| Judgment::Perfect);
        assert(js.drop_last() =~= Seq::new((n - 1) as nat, |i: int| Judgment::Perfect));
        lemma_perfect_run((n - 1) as nat);
    } else {
        assert(Seq::new(n, |i: int| Judgment::Perfect) =~= Seq::<Judgment>::empty());
    }
}

/// Recording a judgment counts it in its own tier and nowhere else: the
/// counter of that tier grows by one and the other three stay as they were.
/// The combo grows by one on a hit and drops to zero on a miss, the best
/// combo follows it up, and the score grows by the tier's base points
/// (Perfect 300, Great 200, Good 100, Miss 0) plus the new combo capped at 50.
pub proof fn lemma_apply_counts_its_tier(t: Tally, j: Judgment)
    requires
        step_fits(t, j),
    ensures
        tally_after(t, j).perfect == t.perfect + (if j == Judgment::Perfect { 1int } else { 0int }),
        tally_after(t, j).great == t.great + (if j == Judgment::Great { 1int } else { 0int }),
        tally_after(t, j).good == t.good + (if j == Judgment::Good { 1int } else { 0int }),
        tally_after(t, j).miss == t.miss + (if j == Judgment::Miss { 1int } else { 0int }),
        tally_after(t, j).combo == (if j == Judgment::Miss { 0int } else { t.combo + 1 }),
        tally_after(t, j).max_combo == (if j != Judgment::Miss && t.combo + 1 > t.max_combo {
            t.combo + 1
        } else {
            t.max_combo as int
        }),
        tally_after(t, j).score == t.score + (match j {
            Judgment::Perfect => 300int,
            Judgment::Great => 200int,
            Judgment::Good => 100int,
            Judgment::Miss => 0int,
        }) + (if tally_after(t, j).combo < 50 { tally_after(t, j).combo as int } else { 50int }),
{
}

} // verus!

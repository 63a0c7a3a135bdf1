//! Decisions the game loop takes from its input: what a key event does, what
//! a hit sounds like, and when the next frame is due.

use vstd::prelude::*;
use std::time::{Duration, Instant};
use crate::lanes::{key_views, keymap, lane_for_key, lane_of_key, lemma_keymap_round_trip};
use crate::text::upper;

verus! {

/// A key as the game loop sees it.
#[derive(Debug, Clone, Copy, PartialEq, Eq, Structural)]
pub enum KeyInput {
    Esc,
    Enter,
    Up,
    Down,
    Home,
    End,
    PageUp,
    PageDown,
    Char(char),
    Other,
}

/// Whether a key went down, came up or repeats while held.
#[derive(Debug, Clone, Copy, PartialEq, Eq, Structural)]
pub enum KeyPhase {
    Press,
    Release,
    Repeat,
}

/// What a key event asks of the game.
#[derive(Debug, Clone, Copy, PartialEq, Eq, Structural)]
pub enum KeyAction {
    /// Leave the song.
    Quit,
    /// Judge a press in this lane.
    Hit(usize),
    /// Judge a release in this lane.
    Release(usize),
    /// Nothing happens.
    Ignore,
}

/// Esc or `q`/`Q` pressed quits; during the countdown nothing else counts;
/// afterwards a bound character presses or releases its lane.
pub open spec fn key_action_of(key: KeyInput, phase: KeyPhase, in_countdown: bool, keys: Seq<Seq<char>>) -> KeyAction {
    match key {
        KeyInput::Esc => if phase == KeyPhase::Press { KeyAction::Quit } else { KeyAction::Ignore },
        KeyInput::Char(c) => {
            if (c == 'q' || c == 'Q') && phase == KeyPhase::Press {
                KeyAction::Quit
            } else if in_countdown {
                KeyAction::Ignore
            } else {
                match lane_of_key(keys, c) {
                    Some(l) => match phase {
                        KeyPhase::Press => KeyAction::Hit(l as usize),
                        KeyPhase::Release => KeyAction::Release(l as usize),
                        KeyPhase::Repeat => KeyAction::Ignore,
                    },
                    None => KeyAction::Ignore,
                }
            }
        },
        _ => KeyAction::Ignore,
    }
}

/// What a key event asks of the game.
pub fn key_action(key: KeyInput, phase: KeyPhase, in_countdown: bool, keys: &[Vec<char>]) -> (r: KeyAction)
    ensures
        r == key_action_of(key, phase, in_countdown, key_views(keys@)),
{
    match key {
        KeyInput::Esc => {
            if phase == KeyPhase::Press {
                KeyAction::Quit
            } else {
                KeyAction::Ignore
            }
        },
        KeyInput::Char(c) => {
            if (c == 'q' || c == 'Q') && phase == KeyPhase::Press {
                KeyAction::Quit
            } else if in_countdown {
                KeyAction::Ignore
            } else {
                match lane_for_key(c, keys) {
                    Some(l) => match phase {
                        KeyPhase::Press => KeyAction::Hit(l),
                        KeyPhase::Release => KeyAction::Release(l),
                        KeyPhase::Repeat => KeyAction::Ignore,
                    },
                    None => KeyAction::Ignore,
                }
            }
        },
        _ => KeyAction::Ignore,
    }
}

/// With a standard layout, pressing any key bound to a lane (in either ASCII
/// case) hits that lane once the countdown is over and does nothing during
/// it; letting go of the key releases the lane.
pub proof fn lemma_bound_key_plays_its_lane(n: usize, l: int, j: int, c: char)
    requires
        n == 4 || n == 5 || n == 7,
        0 <= l < keymap(n).len(),
        0 <= j < keymap(n)[l].len(),
        upper(c) == upper(keymap(n)[l][j]),
    ensures
        key_action_of(KeyInput::Char(c), KeyPhase::Press, false, keymap(n)) == KeyAction::Hit(l as usize),
        key_action_of(KeyInput::Char(c), KeyPhase::Release, false, keymap(n)) == KeyAction::Release(l as usize),
        key_action_of(KeyInput::Char(c), KeyPhase::Press, true, keymap(n)) == KeyAction::Ignore,
{
    lemma_keymap_round_trip(n, l, j, c);
    assert(c != 'q' && c != 'Q');
}

/// The sound of a hit.
#[derive(Debug, Clone, Copy, PartialEq, Eq, Structural)]
pub enum HitSound {
    /// The note's own keysound sample.
    Sample(u32),
    /// The synthesized ping at this index of the lane pitch table.
    Synth(usize),
    Silent,
}

/// Number of lane pitches the synthesized ping cycles through.
pub const LANE_PITCH_COUNT: usize = 7;

/// A loaded keysound plays its sample; otherwise synth mode plays the
/// lane's ping (lanes past the table wrap around); otherwise nothing.
pub open spec fn hit_sound_of(lane: usize, keysound: Option<u32>, sample_loaded: bool, synth_mode: bool) -> HitSound {
    if keysound is Some && sample_loaded {
        HitSound::Sample(keysound->0)
    } else if synth_mode {
        HitSound::Synth(lane % LANE_PITCH_COUNT)
    } else {
        HitSound::Silent
    }
}

/// Whether hits play the synthesized ping: when asked for, and always when
/// the chart has no keysound file to play.
pub fn uses_synth(synth_flag: bool, keysound_files: usize) -> (r: bool)
    ensures
        r == (synth_flag || keysound_files == 0),
{
    synth_flag || keysound_files == 0
}

/// Chooses how a hit sounds; `sample_loaded` says whether the keysound's
/// sample is loaded.
pub fn hit_sound(lane: usize, keysound: Option<u32>, sample_loaded: bool, synth_mode: bool) -> (r: HitSound)
    ensures
        r == hit_sound_of(lane, keysound, sample_loaded, synth_mode),
        r matches HitSound::Synth(i) ==> i < LANE_PITCH_COUNT,
{
    match keysound {
        Some(id) => {
            if sample_loaded {
                return HitSound::Sample(id);
            }
        },
        None => {},
    }
    if synth_mode {
        HitSound::Synth(lane % LANE_PITCH_COUNT)
    } else {
        HitSound::Silent
    }
}

#[verifier::external_type_specification]
#[verifier::external_body]
pub struct ExInstant(std::time::Instant);

/// Milliseconds between frames.
pub const FRAME_MS: u64 = 16;

/// The length of a `Duration` in nanoseconds.
pub uninterp spec fn duration_nanos(d: Duration) -> nat;

/// The position of an `Instant` on the monotonic clock, in nanoseconds from
/// an origin fixed for the process; instants compare and add by it.
pub uninterp spec fn instant_nanos(t: Instant) -> int;

/// `Duration::from_millis`: a duration of `ms` milliseconds, as its
/// documentation says.
#[verifier::external_body]
fn duration_from_millis(ms: u64) -> (r: Duration)
    ensures
        duration_nanos(r) == ms * 1_000_000,
{
    Duration::from_millis(ms)
}

/// `Instant::now`: the current time. Nothing can be claimed of it.
#[verifier::external_body]
fn instant_now() -> Instant {
    Instant::now()
}

/// `Instant::checked_add`: as its documentation says, the instant `d` after
/// `t` when that instant can be represented, and `None` when it cannot.
#[verifier::external_body]
fn instant_checked_add(t: Instant, d: Duration) -> (r: Option<Instant>)
    ensures
        match r {
            Some(u) => instant_nanos(u) == instant_nanos(t) + duration_nanos(d),
            None => forall|u: Instant| instant_nanos(u) != instant_nanos(t) + duration_nanos(d),
        },
{
    t.checked_add(d)
}

/// `Instant < Instant`: whether `a` comes before `b`, as `Instant`'s order
/// is documented (by time).
#[verifier::external_body]
fn instant_lt(a: &Instant, b: &Instant) -> (r: bool)
    ensures
        r == (instant_nanos(*a) < instant_nanos(*b)),
{
    *a < *b
}

/// The nanoseconds of one frame.
pub open spec fn frame_nanos() -> nat {
    (FRAME_MS * 1_000_000) as nat
}

/// The duration of one frame.
pub fn frame_dt() -> (r: Duration)
    ensures
        duration_nanos(r) == frame_nanos(),
{
    duration_from_millis(FRAME_MS)
}

/// The deadline after `bumped`, the instant one frame after the current
/// deadline (`None` when that cannot be represented), given the clock reading
/// `now`: `bumped`, unless the loop has fallen behind it, in which case the
/// current time.
pub fn next_deadline(bumped: Option<Instant>, now: Instant) -> (r: Instant)
    ensures
        r == match bumped {
            Some(b) => if instant_nanos(b) < instant_nanos(now) { now } else { b },
            None => now,
        },
{
    match bumped {
        Some(b) => {
            if instant_lt(&b, &now) {
                now
            } else {
                b
            }
        },
        None => now,
    }
}

/// The deadline of the frame after `next_frame`: one frame later, or the
/// current time when the loop has fallen behind that. Whenever the instant
/// one frame later can be represented, the result is that instant or a later
/// one (the current time); it is never earlier.
pub fn advance_deadline(next_frame: Instant) -> (r: Instant)
    ensures
        (exists|u: Instant| instant_nanos(u) == instant_nanos(next_frame) + frame_nanos()) ==> instant_nanos(r)
            >= instant_nanos(next_frame) + frame_nanos(),
{
    let now = instant_now();
    next_deadline(instant_checked_add(next_frame, frame_dt()), now)
}

} // verus!

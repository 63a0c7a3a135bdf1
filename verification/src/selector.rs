//! The chart selector: moving the cursor through the list of charts, and the
//! part of the list the screen shows.

use vstd::prelude::*;
use crate::play::{KeyInput, KeyPhase};

verus! {

/// What a key event does in the selector.
#[derive(Debug, Clone, Copy, PartialEq, Eq, Structural)]
pub enum SelectOutcome {
    /// Keep browsing with the cursor on this chart.
    Browse(usize),
    /// Play this chart.
    Play(usize),
    /// Leave the selector without a chart.
    Leave,
}

/// The cursor `n` places further up, stopping at the first chart.
pub open spec fn up_by(cursor: usize, n: usize) -> usize {
    if cursor >= n { (cursor - n) as usize } else { 0 }
}

/// The cursor `n` places further down, stopping at the last chart.
pub open spec fn down_by(cursor: usize, len: usize, n: usize) -> usize {
    if cursor + n < len { (cursor + n) as usize } else { (len - 1) as usize }
}

/// The selector's response to a key event, with the cursor on `cursor` of
/// `len` charts. Releases do nothing; Esc and `q`/`Q` leave; Up/`k` and
/// Down/`j` move by one, PageUp/PageDown by ten; Home/`g` and End/`G` jump
/// to the ends; Enter plays the chart under the cursor.
pub open spec fn select_step_of(cursor: usize, len: usize, key: KeyInput, phase: KeyPhase) -> SelectOutcome {
    if phase == KeyPhase::Release {
        SelectOutcome::Browse(cursor)
    } else {
        match key {
            KeyInput::Esc | KeyInput::Char('q') | KeyInput::Char('Q') => SelectOutcome::Leave,
            KeyInput::Up | KeyInput::Char('k') => SelectOutcome::Browse(up_by(cursor, 1)),
            KeyInput::Down | KeyInput::Char('j') => SelectOutcome::Browse(
                if cursor + 1 < len { (cursor + 1) as usize } else { cursor },
            ),
            KeyInput::Home | KeyInput::Char('g') => SelectOutcome::Browse(0),
            KeyInput::End | KeyInput::Char('G') => SelectOutcome::Browse((len - 1) as usize),
            KeyInput::PageUp => SelectOutcome::Browse(up_by(cursor, 10)),
            KeyInput::PageDown => SelectOutcome::Browse(down_by(cursor, len, 10)),
            KeyInput::Enter => SelectOutcome::Play(cursor),
            _ => SelectOutcome::Browse(cursor),
        }
    }
}

/// Applies a key event to the selector. The cursor never leaves the list.
pub fn select_step(cursor: usize, len: usize, key: KeyInput, phase: KeyPhase) -> (r: SelectOutcome)
    requires
        cursor < len,
    ensures
        r == select_step_of(cursor, len, key, phase),
        r matches SelectOutcome::Browse(c) ==> c < len,
        r matches SelectOutcome::Play(c) ==> c == cursor,
{
    if phase == KeyPhase::Release {
        return SelectOutcome::Browse(cursor);
    }
    match key {
        KeyInput::Esc => SelectOutcome::Leave,
        KeyInput::Up => SelectOutcome::Browse(if cursor >= 1 { cursor - 1 } else { 0 }),
        KeyInput::Down => SelectOutcome::Browse(if len - cursor > 1 { cursor + 1 } else { cursor }),
        KeyInput::Home => SelectOutcome::Browse(0),
        KeyInput::End => SelectOutcome::Browse(len - 1),
        KeyInput::PageUp => SelectOutcome::Browse(if cursor >= 10 { cursor - 10 } else { 0 }),
        KeyInput::PageDown => SelectOutcome::Browse(if len - cursor > 10 { cursor + 10 } else { len - 1 }),
        KeyInput::Enter => SelectOutcome::Play(cursor),
        KeyInput::Char(c) => {
            if c == 'q' || c == 'Q' {
                SelectOutcome::Leave
            } else if c == 'k' {
                SelectOutcome::Browse(if cursor >= 1 { cursor - 1 } else { 0 })
            } else if c == 'j' {
                SelectOutcome::Browse(if len - cursor > 1 { cursor + 1 } else { cursor })
            } else if c == 'g' {
                SelectOutcome::Browse(0)
            } else if c == 'G' {
                SelectOutcome::Browse(len - 1)
            } else {
                SelectOutcome::Browse(cursor)
            }
        },
        KeyInput::Other => SelectOutcome::Browse(cursor),
    }
}

/// The first row of the list on screen once the cursor is in view: the list
/// scrolls up to a cursor above it, and down just far enough to show a cursor
/// below it.
pub open spec fn scroll_for(cursor: usize, scroll: usize, rows: usize) -> usize {
    if cursor < scroll {
        cursor
    } else if cursor >= scroll + rows {
        (cursor + 1 - rows) as usize
    } else {
        scroll
    }
}

/// Scrolls the list so that the cursor shows among the `rows` visible rows.
pub fn scroll_into_view(cursor: usize, scroll: usize, rows: usize) -> (r: usize)
    requires
        rows > 0,
    ensures
        r == scroll_for(cursor, scroll, rows),
        r <= cursor < r + rows,
{
    if cursor < scroll {
        cursor
    } else if cursor - scroll >= rows {
        cursor - (rows - 1)
    } else {
        scroll
    }
}

/// Scrolling never moves a list whose cursor is already in view, and a
/// second scroll after the first changes nothing.
pub proof fn lemma_scroll_settles(cursor: usize, scroll: usize, rows: usize)
    requires
        rows > 0,
    ensures
        scroll <= cursor < scroll + rows ==> scroll_for(cursor, scroll, rows) == scroll,
        scroll_for(cursor, scroll_for(cursor, scroll, rows), rows) == scroll_for(cursor, scroll, rows),
{
}

/// What each key does, for a press or a repeat with the cursor on `cursor`
/// of `len` charts: Up and `k` move one chart up (staying on the first),
/// Down and `j` one chart down (staying on the last), PageUp and PageDown
/// ten charts (stopping at the ends), Home and `g` go to the first chart,
/// End and `G` to the last, Enter plays the chart under the cursor, Esc,
/// `q` and `Q` leave, and any other key leaves the cursor where it is. A
/// release never does anything.
pub proof fn lemma_select_keys(cursor: usize, len: usize, phase: KeyPhase, c: char)
    requires
        cursor < len,
    ensures
        select_step_of(cursor, len, KeyInput::Enter, KeyPhase::Release) == SelectOutcome::Browse(cursor),
        select_step_of(cursor, len, KeyInput::Esc, KeyPhase::Release) == SelectOutcome::Browse(cursor),
        phase != KeyPhase::Release ==> {
            let up: int = if cursor > 0 { cursor - 1 } else { 0 };
            let down: int = if cursor + 1 < len { cursor + 1 } else { cursor as int };
            let page_up: int = if cursor >= 10 { cursor - 10 } else { 0 };
            let page_down: int = if cursor + 10 <= len - 1 { cursor + 10 } else { len - 1 };
            &&& select_step_of(cursor, len, KeyInput::Up, phase) == SelectOutcome::Browse(up as usize)
            &&& select_step_of(cursor, len, KeyInput::Char('k'), phase) == SelectOutcome::Browse(up as usize)
            &&& select_step_of(cursor, len, KeyInput::Down, phase) == SelectOutcome::Browse(down as usize)
            &&& select_step_of(cursor, len, KeyInput::Char('j'), phase) == SelectOutcome::Browse(down as usize)
            &&& select_step_of(cursor, len, KeyInput::PageUp, phase) == SelectOutcome::Browse(page_up as usize)
            &&& select_step_of(cursor, len, KeyInput::PageDown, phase) == SelectOutcome::Browse(
                page_down as usize,
            )
            &&& select_step_of(cursor, len, KeyInput::Home, phase) == SelectOutcome::Browse(0)
            &&& select_step_of(cursor, len, KeyInput::Char('g'), phase) == SelectOutcome::Browse(0)
            &&& select_step_of(cursor, len, KeyInput::End, phase) == SelectOutcome::Browse((len - 1) as usize)
            &&& select_step_of(cursor, len, KeyInput::Char('G'), phase) == SelectOutcome::Browse(
                (len - 1) as usize,
            )
            &&& select_step_of(cursor, len, KeyInput::Enter, phase) == SelectOutcome::Play(cursor)
            &&& select_step_of(cursor, len, KeyInput::Esc, phase) == SelectOutcome::Leave
            &&& select_step_of(cursor, len, KeyInput::Char('q'), phase) == SelectOutcome::Leave
            &&& select_step_of(cursor, len, KeyInput::Char('Q'), phase) == SelectOutcome::Leave
            &&& select_step_of(cursor, len, KeyInput::Other, phase) == SelectOutcome::Browse(cursor)
            &&& (c != 'k' && c != 'j' && c != 'g' && c != 'G' && c != 'q' && c != 'Q') ==> select_step_of(
                cursor,
                len,
                KeyInput::Char(c),
                phase,
            ) == SelectOutcome::Browse(cursor)
        },
{
}

} // verus!

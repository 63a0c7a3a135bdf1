//! Screen geometry of the play field: where the lanes, the judgment line and
//! the key labels go for a terminal of a given size.

use vstd::prelude::*;

verus! {

/// Columns each lane takes, its left border included.
pub const LANE_WIDTH: u16 = 7;

/// Rows above the play field (title, score line, judgment counters).
pub const FIELD_TOP: u16 = 4;

/// The column where text `width` columns wide starts when centred on a
/// screen `cols` wide (flush left when it does not fit).
pub open spec fn centered_col(cols: u16, width: u16) -> u16 {
    if cols > width { ((cols - width) / 2) as u16 } else { 0 }
}

/// Centres text `width` columns wide on a screen `cols` wide.
pub fn centered_x(cols: u16, width: u16) -> (r: u16)
    ensures
        r == centered_col(cols, width),
        width <= cols ==> 2 * r + width <= cols,
{
    if cols > width {
        (cols - width) / 2
    } else {
        0
    }
}

/// The play field on screen.
#[derive(Debug, Clone, Copy, PartialEq, Eq, Structural)]
pub struct Field {
    /// Leftmost column of the field.
    pub x0: u16,
    /// Width of the field: every lane and the closing border.
    pub width: u16,
    /// First row of the lanes.
    pub top: u16,
    /// Row just below the lanes; the key labels go one row further down.
    pub bottom: u16,
    /// Row of the judgment line, the last row of the lanes.
    pub judgment_row: u16,
}

/// The field for `lanes` lanes on a screen `cols` by `rows`: centred, from
/// row 4 to four rows above the bottom; none when that leaves four rows or
/// fewer for the lanes.
pub open spec fn field_of(cols: u16, rows: u16, lanes: u16) -> Option<Field> {
    let width = LANE_WIDTH * lanes + 1;
    let bottom: int = if rows > 4 { rows - 4 } else { 0 };
    if bottom <= FIELD_TOP + 4 {
        None
    } else {
        Some(Field {
            x0: centered_col(cols, width as u16),
            width: width as u16,
            top: FIELD_TOP,
            bottom: bottom as u16,
            judgment_row: (bottom - 1) as u16,
        })
    }
}

/// Lays out the play field; `None` when the screen is too short to play on.
pub fn field_layout(cols: u16, rows: u16, lanes: u16) -> (r: Option<Field>)
    requires
        LANE_WIDTH * lanes + 1 <= u16::MAX,
    ensures
        r == field_of(cols, rows, lanes),
        r matches Some(f) ==> f.top < f.judgment_row && f.judgment_row < f.bottom && f.bottom + 4 <= rows,
{
    let width = LANE_WIDTH * lanes + 1;
    let bottom = if rows > 4 { rows - 4 } else { 0 };
    if bottom <= FIELD_TOP + 4 {
        None
    } else {
        Some(Field {
            x0: centered_x(cols, width),
            width,
            top: FIELD_TOP,
            bottom,
            judgment_row: bottom - 1,
        })
    }
}

/// The column of lane `lane`'s left border.
pub open spec fn lane_col(f: Field, lane: u16) -> int {
    f.x0 + 1 + lane * LANE_WIDTH
}

/// The column where lane `lane`'s left border goes.
pub fn lane_x(f: Field, lane: u16) -> (r: u16)
    requires
        lane_col(f, lane) + LANE_WIDTH <= u16::MAX,
    ensures
        r == lane_col(f, lane),
{
    f.x0 + 1 + lane * LANE_WIDTH
}

} // verus!

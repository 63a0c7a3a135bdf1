//! Which lane (or image layer) a two-character BMS channel addresses.
//!
//! Each note family uses a leading character and a second digit that names
//! the lane: `1`..`5` are lanes 0..4, `8` and `9` are lanes 5 and 6.

use vstd::prelude::*;

verus! {

/// Lane named by the second character of a note channel.
pub open spec fn lane_of_digit(d: char) -> Option<usize> {
    if d == '1' {
        Some(0)
    } else if d == '2' {
        Some(1)
    } else if d == '3' {
        Some(2)
    } else if d == '4' {
        Some(3)
    } else if d == '5' {
        Some(4)
    } else if d == '8' {
        Some(5)
    } else if d == '9' {
        Some(6)
    } else {
        None
    }
}

/// Lane of channel `ch` in the family whose channels start with `prefix`.
pub open spec fn family_lane(ch: Seq<char>, prefix: char) -> Option<usize> {
    if ch.len() == 2 && ch[0] == prefix {
        lane_of_digit(ch[1])
    } else {
        None
    }
}

fn family_lane_exec(ch: &str, prefix: char) -> (r: Option<usize>)
    ensures
        r == family_lane(ch@, prefix),
{
    if ch.unicode_len() != 2 || ch.get_char(0) != prefix {
        return None;
    }
    let d = ch.get_char(1);
    if d == '1' {
        Some(0)
    } else if d == '2' {
        Some(1)
    } else if d == '3' {
        Some(2)
    } else if d == '4' {
        Some(3)
    } else if d == '5' {
        Some(4)
    } else if d == '8' {
        Some(5)
    } else if d == '9' {
        Some(6)
    } else {
        None
    }
}

/// Player-1 visible notes: channels `11`..`15`, `18`, `19`.
pub fn channel_to_lane(ch: &str) -> (r: Option<usize>)
    ensures
        r == family_lane(ch@, '1'),
{
    family_lane_exec(ch, '1')
}

/// Player-1 long notes: channels `51`..`55`, `58`, `59`.
pub fn long_channel_to_lane(ch: &str) -> (r: Option<usize>)
    ensures
        r == family_lane(ch@, '5'),
{
    family_lane_exec(ch, '5')
}

/// Player-1 landmines: channels `D1`..`D5`, `D8`, `D9`.
pub fn mine_channel_to_lane(ch: &str) -> (r: Option<usize>)
    ensures
        r == family_lane(ch@, 'D'),
{
    family_lane_exec(ch, 'D')
}

/// Player-2 visible notes: channels `21`..`25`, `28`, `29`.
pub fn p2_channel_to_lane(ch: &str) -> (r: Option<usize>)
    ensures
        r == family_lane(ch@, '2'),
{
    family_lane_exec(ch, '2')
}

/// Player-2 long notes: channels `61`..`65`, `68`, `69`.
pub fn p2_long_channel_to_lane(ch: &str) -> (r: Option<usize>)
    ensures
        r == family_lane(ch@, '6'),
{
    family_lane_exec(ch, '6')
}

/// Player-2 landmines: channels `E1`..`E5`, `E8`, `E9`.
pub fn p2_mine_channel_to_lane(ch: &str) -> (r: Option<usize>)
    ensures
        r == family_lane(ch@, 'E'),
{
    family_lane_exec(ch, 'E')
}

/// The background-animation layers a chart can address.
#[derive(Debug, Clone, Copy, PartialEq, Eq, Structural)]
pub enum BgaLayer {
    Base,
    Poor,
    Overlay,
}

/// Layer of a BGA channel: `04` base, `06` poor (shown on a miss), `07` overlay.
pub open spec fn bga_layer_of(ch: Seq<char>) -> Option<BgaLayer> {
    if ch.len() == 2 && ch[0] == '0' && ch[1] == '4' {
        Some(BgaLayer::Base)
    } else if ch.len() == 2 && ch[0] == '0' && ch[1] == '6' {
        Some(BgaLayer::Poor)
    } else if ch.len() == 2 && ch[0] == '0' && ch[1] == '7' {
        Some(BgaLayer::Overlay)
    } else {
        None
    }
}

/// The layer a BGA channel addresses.
pub fn bga_channel_to_layer(ch: &str) -> (r: Option<BgaLayer>)
    ensures
        r == bga_layer_of(ch@),
{
    if ch.unicode_len() != 2 || ch.get_char(0) != '0' {
        return None;
    }
    let d = ch.get_char(1);
    if d == '4' {
        Some(BgaLayer::Base)
    } else if d == '6' {
        Some(BgaLayer::Poor)
    } else if d == '7' {
        Some(BgaLayer::Overlay)
    } else {
        None
    }
}

/// The three player-1 families address the same lane for the same second
/// character, and a note channel never names a lane past 6.
pub proof fn lemma_families_agree(d: char)
    ensures
        family_lane(seq!['1', d], '1') == family_lane(seq!['5', d], '5'),
        family_lane(seq!['1', d], '1') == family_lane(seq!['D', d], 'D'),
        family_lane(seq!['2', d], '2') == family_lane(seq!['1', d], '1'),
        family_lane(seq!['6', d], '6') == family_lane(seq!['1', d], '1'),
        family_lane(seq!['E', d], 'E') == family_lane(seq!['1', d], '1'),
        family_lane(seq!['1', d], '1') matches Some(l) ==> l <= 6,
{
}

} // verus!

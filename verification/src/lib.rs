//! Verified core of the tapline rhythm game: reading BMS chart text,
//! placing its events, lane and key mapping, score keeping, and the chart
//! selector and screen texts.

pub mod assets;
pub mod badges;
pub mod catalog;
pub mod channels;
pub mod chartfile;
pub mod control;
pub mod decode;
pub mod header;
pub mod labels;
pub mod lanes;
pub mod layout;
pub mod lines;
pub mod longnotes;
pub mod pattern;
pub mod placement;
pub mod play;
pub mod score;
pub mod selector;
pub mod slots;
pub mod text;

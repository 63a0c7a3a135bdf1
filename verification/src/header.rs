//! The header pass: folding `#COMMAND value` lines into chart metadata and
//! id definitions.
//!
//! Headers whose value is a floating-point number (`#BPM`, `#TOTAL`,
//! `#BPMxx`, `#STOPxx`) are kept as their trimmed value texts, in the order
//! they appear; reading those numbers happens where floating point is
//! available.

use vstd::prelude::*;
use std::collections::HashMap;
use crate::lines::cmd_value_split;
use crate::badges::{decimal, lemma_decimal_reads_back};
use crate::text::{
    chars_eq, chars_of, chars_start_with, copy_range, find_ws, first_ws, is_ws, lemma_first_ws,
    parse_u32, parse_u8, parse_unsigned_range, string_from_chars, trim, trim_bounds, trim_end,
    trim_start, upper_chars, upper_seq,
};

verus! {

broadcast use vstd::std_specs::hash::group_hash_axioms;

/// Header fields and definitions collected from a chart.
pub struct HeaderPass {
    pub title: String,
    pub subtitle: String,
    pub artist: String,
    pub subartist: String,
    pub genre: String,
    pub stagefile: String,
    pub banner: String,
    pub maker: String,
    /// Values of every `#BPM` line, trimmed, in order.
    pub bpm_texts: Vec<String>,
    pub playlevel: Option<u8>,
    pub difficulty: Option<u8>,
    pub rank: Option<u8>,
    /// Values of every `#TOTAL` line, trimmed, in order.
    pub total_texts: Vec<String>,
    pub vol_wav: Option<u8>,
    pub wav_defs: HashMap<u32, String>,
    /// `#BPMxx` definitions with a readable id: the id and the trimmed value.
    pub bpm_def_texts: Vec<(u32, String)>,
    /// `#STOPxx` definitions with a readable id: the id and the trimmed value.
    pub stop_def_texts: Vec<(u32, String)>,
    pub bmp_defs: HashMap<u32, String>,
    pub lnobj: Option<u32>,
    pub lntype: u8,
}

/// The abstract content of a `HeaderPass`.
pub struct HeaderModel {
    pub title: Seq<char>,
    pub subtitle: Seq<char>,
    pub artist: Seq<char>,
    pub subartist: Seq<char>,
    pub genre: Seq<char>,
    pub stagefile: Seq<char>,
    pub banner: Seq<char>,
    pub maker: Seq<char>,
    pub bpm_texts: Seq<Seq<char>>,
    pub playlevel: Option<u8>,
    pub difficulty: Option<u8>,
    pub rank: Option<u8>,
    pub total_texts: Seq<Seq<char>>,
    pub vol_wav: Option<u8>,
    pub wav_defs: Map<u32, Seq<char>>,
    pub bpm_def_texts: Seq<(u32, Seq<char>)>,
    pub stop_def_texts: Seq<(u32, Seq<char>)>,
    pub bmp_defs: Map<u32, Seq<char>>,
    pub lnobj: Option<u32>,
    pub lntype: u8,
}

/// The texts of a list of strings.
pub open spec fn text_seq(v: Seq<String>) -> Seq<Seq<char>> {
    v.map_values(|s: String| s@)
}

/// The ids and texts of a list of definitions.
pub open spec fn def_seq(v: Seq<(u32, String)>) -> Seq<(u32, Seq<char>)> {
    v.map_values(|p: (u32, String)| (p.0, p.1@))
}

/// The texts of a map of strings.
pub open spec fn text_map(m: Map<u32, String>) -> Map<u32, Seq<char>> {
    m.map_values(|s: String| s@)
}

impl View for HeaderPass {
    type V = HeaderModel;

    open spec fn view(&self) -> HeaderModel {
        HeaderModel {
            title: self.title@,
            subtitle: self.subtitle@,
            artist: self.artist@,
            subartist: self.subartist@,
            genre: self.genre@,
            stagefile: self.stagefile@,
            banner: self.banner@,
            maker: self.maker@,
            bpm_texts: text_seq(self.bpm_texts@),
            playlevel: self.playlevel,
            difficulty: self.difficulty,
            rank: self.rank,
            total_texts: text_seq(self.total_texts@),
            vol_wav: self.vol_wav,
            wav_defs: text_map(self.wav_defs@),
            bpm_def_texts: def_seq(self.bpm_def_texts@),
            stop_def_texts: def_seq(self.stop_def_texts@),
            bmp_defs: text_map(self.bmp_defs@),
            lnobj: self.lnobj,
            lntype: self.lntype,
        }
    }
}

/// The header state before any line: empty texts, no values, `#LNTYPE 1`.
pub open spec fn header_start() -> HeaderModel {
    HeaderModel {
        title: seq![],
        subtitle: seq![],
        artist: seq![],
        subartist: seq![],
        genre: seq![],
        stagefile: seq![],
        banner: seq![],
        maker: seq![],
        bpm_texts: seq![],
        playlevel: None,
        difficulty: None,
        rank: None,
        total_texts: seq![],
        vol_wav: None,
        wav_defs: Map::empty(),
        bpm_def_texts: seq![],
        stop_def_texts: seq![],
        bmp_defs: Map::empty(),
        lnobj: None,
        lntype: 1,
    }
}

/// The header commands the pass recognises by their full name.
#[derive(Debug, Clone, Copy, PartialEq, Eq, Structural)]
pub enum HeaderKey {
    Title,
    Subtitle,
    Artist,
    Subartist,
    Genre,
    Stagefile,
    Banner,
    Maker,
    Bpm,
    Playlevel,
    Difficulty,
    Rank,
    Total,
    VolWav,
    LnObj,
    LnType,
    Other,
}

/// The command an upper-cased command word names.
pub open spec fn header_key(up: Seq<char>) -> HeaderKey {
    if up == seq!['T', 'I', 'T', 'L', 'E'] {
        HeaderKey::Title
    } else if up == seq!['S', 'U', 'B', 'T', 'I', 'T', 'L', 'E'] {
        HeaderKey::Subtitle
    } else if up == seq!['A', 'R', 'T', 'I', 'S', 'T'] {
        HeaderKey::Artist
    } else if up == seq!['S', 'U', 'B', 'A', 'R', 'T', 'I', 'S', 'T'] {
        HeaderKey::Subartist
    } else if up == seq!['G', 'E', 'N', 'R', 'E'] {
        HeaderKey::Genre
    } else if up == seq!['S', 'T', 'A', 'G', 'E', 'F', 'I', 'L', 'E'] {
        HeaderKey::Stagefile
    } else if up == seq!['B', 'A', 'N', 'N', 'E', 'R'] {
        HeaderKey::Banner
    } else if up == seq!['M', 'A', 'K', 'E', 'R'] {
        HeaderKey::Maker
    } else if up == seq!['B', 'P', 'M'] {
        HeaderKey::Bpm
    } else if up == seq!['P', 'L', 'A', 'Y', 'L', 'E', 'V', 'E', 'L'] {
        HeaderKey::Playlevel
    } else if up == seq!['D', 'I', 'F', 'F', 'I', 'C', 'U', 'L', 'T', 'Y'] {
        HeaderKey::Difficulty
    } else if up == seq!['R', 'A', 'N', 'K'] {
        HeaderKey::Rank
    } else if up == seq!['T', 'O', 'T', 'A', 'L'] {
        HeaderKey::Total
    } else if up == seq!['V', 'O', 'L', 'W', 'A', 'V'] {
        HeaderKey::VolWav
    } else if up == seq!['L', 'N', 'O', 'B', 'J'] {
        HeaderKey::LnObj
    } else if up == seq!['L', 'N', 'T', 'Y', 'P', 'E'] {
        HeaderKey::LnType
    } else {
        HeaderKey::Other
    }
}

/// `WAV`, the prefix of keysound definitions `#WAVxx`.
pub open spec fn prefix_wav() -> Seq<char> {
    seq!['W', 'A', 'V']
}

/// `BPM`, the prefix of tempo definitions `#BPMxx`.
pub open spec fn prefix_bpm() -> Seq<char> {
    seq!['B', 'P', 'M']
}

/// `STOP`, the prefix of stop definitions `#STOPxx`.
pub open spec fn prefix_stop() -> Seq<char> {
    seq!['S', 'T', 'O', 'P']
}

/// `BMP`, the prefix of image definitions `#BMPxx`.
pub open spec fn prefix_bmp() -> Seq<char> {
    seq!['B', 'M', 'P']
}

/// Whether `s` begins with `p`.
pub open spec fn starts_with(s: Seq<char>, p: Seq<char>) -> bool {
    p.len() <= s.len() && s.take(p.len() as int) == p
}

/// An id-carrying command (`#WAVxx`, `#BPMxx`, `#STOPxx`, `#BMPxx`): the
/// id is the rest of the upper-cased command read in base 36.
pub open spec fn absorb_definition(m: HeaderModel, up: Seq<char>, tv: Seq<char>) -> HeaderModel {
    if starts_with(up, prefix_wav()) {
        match parse_u32(up.skip(3), 36) {
            Some(id) => HeaderModel { wav_defs: m.wav_defs.insert(id, tv), ..m },
            None => m,
        }
    } else if starts_with(up, prefix_bpm()) {
        if up.len() > 3 {
            match parse_u32(up.skip(3), 36) {
                Some(id) => HeaderModel { bpm_def_texts: m.bpm_def_texts.push((id, tv)), ..m },
                None => m,
            }
        } else {
            m
        }
    } else if starts_with(up, prefix_stop()) {
        if up.len() > 4 {
            match parse_u32(up.skip(4), 36) {
                Some(id) => HeaderModel { stop_def_texts: m.stop_def_texts.push((id, tv)), ..m },
                None => m,
            }
        } else {
            m
        }
    } else if starts_with(up, prefix_bmp()) {
        if up.len() > 3 {
            match parse_u32(up.skip(3), 36) {
                Some(id) => HeaderModel { bmp_defs: m.bmp_defs.insert(id, tv), ..m },
                None => m,
            }
        } else {
            m
        }
    } else {
        m
    }
}

/// One header body folded into the header state. The command is matched
/// case-insensitively; the value is the text after the command with
/// leading whitespace removed (`val`), or additionally trimmed at the end
/// (`tv`) where the command reads a file name or a number.
pub open spec fn absorb_line(m: HeaderModel, line: Seq<char>) -> HeaderModel {
    let val = cmd_value_split(line).1;
    let up = upper_seq(cmd_value_split(line).0);
    let tv = trim(val, false);
    match header_key(up) {
        HeaderKey::Title => HeaderModel { title: val, ..m },
        HeaderKey::Subtitle => HeaderModel { subtitle: val, ..m },
        HeaderKey::Artist => HeaderModel { artist: val, ..m },
        HeaderKey::Subartist => HeaderModel { subartist: val, ..m },
        HeaderKey::Genre => HeaderModel { genre: val, ..m },
        HeaderKey::Stagefile => HeaderModel { stagefile: tv, ..m },
        HeaderKey::Banner => HeaderModel { banner: tv, ..m },
        HeaderKey::Maker => HeaderModel { maker: val, ..m },
        HeaderKey::Bpm => HeaderModel { bpm_texts: m.bpm_texts.push(tv), ..m },
        HeaderKey::Playlevel => match parse_u8(tv) {
            Some(v) => HeaderModel { playlevel: Some(v), ..m },
            None => m,
        },
        HeaderKey::Difficulty => match parse_u8(tv) {
            Some(v) => HeaderModel { difficulty: Some(v), ..m },
            None => m,
        },
        HeaderKey::Rank => match parse_u8(tv) {
            Some(v) => if v <= 4 { HeaderModel { rank: Some(v), ..m } } else { m },
            None => m,
        },
        HeaderKey::Total => HeaderModel { total_texts: m.total_texts.push(tv), ..m },
        HeaderKey::VolWav => match parse_u8(tv) {
            Some(v) => if v <= 100 { HeaderModel { vol_wav: Some(v), ..m } } else { m },
            None => m,
        },
        HeaderKey::LnObj => match parse_u32(tv, 36) {
            Some(id) => if id > 0 { HeaderModel { lnobj: Some(id), ..m } } else { m },
            None => m,
        },
        HeaderKey::LnType => match parse_u8(tv) {
            Some(v) => if 1 <= v && v <= 2 { HeaderModel { lntype: v, ..m } } else { m },
            None => m,
        },
        HeaderKey::Other => absorb_definition(m, up, tv),
    }
}

fn header_key_exec(up: &[char]) -> (r: HeaderKey)
    ensures
        r == header_key(up@),
{
    let k_title = ['T', 'I', 'T', 'L', 'E'];
    let k_subtitle = ['S', 'U', 'B', 'T', 'I', 'T', 'L', 'E'];
    let k_artist = ['A', 'R', 'T', 'I', 'S', 'T'];
    let k_subartist = ['S', 'U', 'B', 'A', 'R', 'T', 'I', 'S', 'T'];
    let k_genre = ['G', 'E', 'N', 'R', 'E'];
    let k_stagefile = ['S', 'T', 'A', 'G', 'E', 'F', 'I', 'L', 'E'];
    let k_banner = ['B', 'A', 'N', 'N', 'E', 'R'];
    let k_maker = ['M', 'A', 'K', 'E', 'R'];
    let k_bpm = ['B', 'P', 'M'];
    let k_playlevel = ['P', 'L', 'A', 'Y', 'L', 'E', 'V', 'E', 'L'];
    let k_difficulty = ['D', 'I', 'F', 'F', 'I', 'C', 'U', 'L', 'T', 'Y'];
    let k_rank = ['R', 'A', 'N', 'K'];
    let k_total = ['T', 'O', 'T', 'A', 'L'];
    let k_volwav = ['V', 'O', 'L', 'W', 'A', 'V'];
    let k_lnobj = ['L', 'N', 'O', 'B', 'J'];
    let k_lntype = ['L', 'N', 'T', 'Y', 'P', 'E'];
    assert(k_title@ =~= seq!['T', 'I', 'T', 'L', 'E']);
    assert(k_subtitle@ =~= seq!['S', 'U', 'B', 'T', 'I', 'T', 'L', 'E']);
    assert(k_artist@ =~= seq!['A', 'R', 'T', 'I', 'S', 'T']);
    assert(k_subartist@ =~= seq!['S', 'U', 'B', 'A', 'R', 'T', 'I', 'S', 'T']);
    assert(k_genre@ =~= seq!['G', 'E', 'N', 'R', 'E']);
    assert(k_stagefile@ =~= seq!['S', 'T', 'A', 'G', 'E', 'F', 'I', 'L', 'E']);
    assert(k_banner@ =~= seq!['B', 'A', 'N', 'N', 'E', 'R']);
    assert(k_maker@ =~= seq!['M', 'A', 'K', 'E', 'R']);
    assert(k_bpm@ =~= seq!['B', 'P', 'M']);
    assert(k_playlevel@ =~= seq!['P', 'L', 'A', 'Y', 'L', 'E', 'V', 'E', 'L']);
    assert(k_difficulty@ =~= seq!['D', 'I', 'F', 'F', 'I', 'C', 'U', 'L', 'T', 'Y']);
    assert(k_rank@ =~= seq!['R', 'A', 'N', 'K']);
    assert(k_total@ =~= seq!['T', 'O', 'T', 'A', 'L']);
    assert(k_volwav@ =~= seq!['V', 'O', 'L', 'W', 'A', 'V']);
    assert(k_lnobj@ =~= seq!['L', 'N', 'O', 'B', 'J']);
    assert(k_lntype@ =~= seq!['L', 'N', 'T', 'Y', 'P', 'E']);
    if chars_eq(up, &k_title) {
        HeaderKey::Title
    } else if chars_eq(up, &k_subtitle) {
        HeaderKey::Subtitle
    } else if chars_eq(up, &k_artist) {
        HeaderKey::Artist
    } else if chars_eq(up, &k_subartist) {
        HeaderKey::Subartist
    } else if chars_eq(up, &k_genre) {
        HeaderKey::Genre
    } else if chars_eq(up, &k_stagefile) {
        HeaderKey::Stagefile
    } else if chars_eq(up, &k_banner) {
        HeaderKey::Banner
    } else if chars_eq(up, &k_maker) {
        HeaderKey::Maker
    } else if chars_eq(up, &k_bpm) {
        HeaderKey::Bpm
    } else if chars_eq(up, &k_playlevel) {
        HeaderKey::Playlevel
    } else if chars_eq(up, &k_difficulty) {
        HeaderKey::Difficulty
    } else if chars_eq(up, &k_rank) {
        HeaderKey::Rank
    } else if chars_eq(up, &k_total) {
        HeaderKey::Total
    } else if chars_eq(up, &k_volwav) {
        HeaderKey::VolWav
    } else if chars_eq(up, &k_lnobj) {
        HeaderKey::LnObj
    } else if chars_eq(up, &k_lntype) {
        HeaderKey::LnType
    } else {
        HeaderKey::Other
    }
}

/// `s[lo..hi]` read as a `u8` decimal.
fn parse_u8_range(s: &[char], lo: usize, hi: usize) -> (r: Option<u8>)
    requires
        lo <= hi <= s@.len(),
    ensures
        r == parse_u8(s@.subrange(lo as int, hi as int)),
{
    match parse_unsigned_range(s, lo, hi, 10, 255) {
        Some(v) => Some(v as u8),
        None => None,
    }
}

/// `s[lo..]` read as a base-36 `u32`.
fn parse_id(s: &[char], lo: usize) -> (r: Option<u32>)
    requires
        lo <= s@.len(),
    ensures
        r == parse_u32(s@.skip(lo as int), 36),
{
    assert(s@.subrange(lo as int, s@.len() as int) =~= s@.skip(lo as int));
    parse_unsigned_range(s, lo, s.len(), 36, 0xffff_ffff)
}

impl HeaderPass {
    /// Folds one header body (a line without its `'#'`) into the pass.
    pub fn absorb(&mut self, line: &str)
        ensures
            final(self)@ == absorb_line(old(self)@, line@),
    {
        let lc = chars_of(line);
        let n = lc.len();
        let i = find_ws(lc.as_slice(), 0);
        proof {
            assert(lc@.subrange(0, n as int) =~= lc@);
            lemma_first_ws(line@);
        }
        let cmd = copy_range(lc.as_slice(), 0, i);
        let rest = copy_range(lc.as_slice(), i, n);
        let (a, _b) = trim_bounds(rest.as_slice(), false);
        let val = copy_range(rest.as_slice(), a, rest.len());
        assert(val@ == cmd_value_split(line@).1);
        assert(cmd@ == cmd_value_split(line@).0);
        let up = upper_chars(cmd.as_slice());
        let (ta, tb) = trim_bounds(val.as_slice(), false);
        let tv = copy_range(val.as_slice(), ta, tb);
        let ghost m = self@;
        match header_key_exec(up.as_slice()) {
            HeaderKey::Title => {
                self.title = string_from_chars(val.as_slice());
            },
            HeaderKey::Subtitle => {
                self.subtitle = string_from_chars(val.as_slice());
            },
            HeaderKey::Artist => {
                self.artist = string_from_chars(val.as_slice());
            },
            HeaderKey::Subartist => {
                self.subartist = string_from_chars(val.as_slice());
            },
            HeaderKey::Genre => {
                self.genre = string_from_chars(val.as_slice());
            },
            HeaderKey::Stagefile => {
                self.stagefile = string_from_chars(tv.as_slice());
            },
            HeaderKey::Banner => {
                self.banner = string_from_chars(tv.as_slice());
            },
            HeaderKey::Maker => {
                self.maker = string_from_chars(val.as_slice());
            },
            HeaderKey::Bpm => {
                let s = string_from_chars(tv.as_slice());
                self.bpm_texts.push(s);
                assert(text_seq(self.bpm_texts@) =~= m.bpm_texts.push(tv@));
            },
            HeaderKey::Playlevel => {
                match parse_u8_range(val.as_slice(), ta, tb) {
                    Some(v) => {
                        self.playlevel = Some(v);
                    },
                    None => {},
                }
            },
            HeaderKey::Difficulty => {
                match parse_u8_range(val.as_slice(), ta, tb) {
                    Some(v) => {
                        self.difficulty = Some(v);
                    },
                    None => {},
                }
            },
            HeaderKey::Rank => {
                match parse_u8_range(val.as_slice(), ta, tb) {
                    Some(v) => {
                        if v <= 4 {
                            self.rank = Some(v);
                        }
                    },
                    None => {},
                }
            },
            HeaderKey::Total => {
                let s = string_from_chars(tv.as_slice());
                self.total_texts.push(s);
                assert(text_seq(self.total_texts@) =~= m.total_texts.push(tv@));
            },
            HeaderKey::VolWav => {
                match parse_u8_range(val.as_slice(), ta, tb) {
                    Some(v) => {
                        if v <= 100 {
                            self.vol_wav = Some(v);
                        }
                    },
                    None => {},
                }
            },
            HeaderKey::LnObj => {
                match parse_unsigned_range(val.as_slice(), ta, tb, 36, 0xffff_ffff) {
                    Some(id) => {
                        if id > 0 {
                            self.lnobj = Some(id);
                        }
                    },
                    None => {},
                }
            },
            HeaderKey::LnType => {
                match parse_u8_range(val.as_slice(), ta, tb) {
                    Some(v) => {
                        if 1 <= v && v <= 2 {
                            self.lntype = v;
                        }
                    },
                    None => {},
                }
            },
            HeaderKey::Other => {
                self.absorb_definition(up.as_slice(), tv.as_slice());
            },
        }
    }

    fn absorb_definition(&mut self, up: &[char], tv: &[char])
        ensures
            final(self)@ == absorb_definition(old(self)@, up@, tv@),
    {
        let p_wav = ['W', 'A', 'V'];
        let p_bpm = ['B', 'P', 'M'];
        let p_stop = ['S', 'T', 'O', 'P'];
        let p_bmp = ['B', 'M', 'P'];
        assert(p_wav@ =~= prefix_wav());
        assert(p_bpm@ =~= prefix_bpm());
        assert(p_stop@ =~= prefix_stop());
        assert(p_bmp@ =~= prefix_bmp());
        let ghost m = self@;
        if chars_start_with(up, &p_wav) {
            match parse_id(up, 3) {
                Some(id) => {
                    let s = string_from_chars(tv);
                    self.wav_defs.insert(id, s);
                    assert(text_map(self.wav_defs@) =~= m.wav_defs.insert(id, tv@));
                },
                None => {},
            }
        } else if chars_start_with(up, &p_bpm) {
            if up.len() > 3 {
                match parse_id(up, 3) {
                    Some(id) => {
                        let s = string_from_chars(tv);
                        self.bpm_def_texts.push((id, s));
                        assert(def_seq(self.bpm_def_texts@) =~= m.bpm_def_texts.push((id, tv@)));
                    },
                    None => {},
                }
            }
        } else if chars_start_with(up, &p_stop) {
            if up.len() > 4 {
                match parse_id(up, 4) {
                    Some(id) => {
                        let s = string_from_chars(tv);
                        self.stop_def_texts.push((id, s));
                        assert(def_seq(self.stop_def_texts@) =~= m.stop_def_texts.push((id, tv@)));
                    },
                    None => {},
                }
            }
        } else if chars_start_with(up, &p_bmp) {
            if up.len() > 3 {
                match parse_id(up, 3) {
                    Some(id) => {
                        let s = string_from_chars(tv);
                        self.bmp_defs.insert(id, s);
                        assert(text_map(self.bmp_defs@) =~= m.bmp_defs.insert(id, tv@));
                    },
                    None => {},
                }
            }
        }
    }
}

impl Default for HeaderPass {
    fn default() -> (r: HeaderPass)
        ensures
            r@ == header_start(),
    {
        let r = HeaderPass {
            title: String::new(),
            subtitle: String::new(),
            artist: String::new(),
            subartist: String::new(),
            genre: String::new(),
            stagefile: String::new(),
            banner: String::new(),
            maker: String::new(),
            bpm_texts: Vec::new(),
            playlevel: None,
            difficulty: None,
            rank: None,
            total_texts: Vec::new(),
            vol_wav: None,
            wav_defs: HashMap::new(),
            bpm_def_texts: Vec::new(),
            stop_def_texts: Vec::new(),
            bmp_defs: HashMap::new(),
            lnobj: None,
            lntype: 1,
        };
        assert(text_seq(r.bpm_texts@) =~= Seq::<Seq<char>>::empty());
        assert(text_seq(r.total_texts@) =~= Seq::<Seq<char>>::empty());
        assert(def_seq(r.bpm_def_texts@) =~= Seq::<(u32, Seq<char>)>::empty());
        assert(def_seq(r.stop_def_texts@) =~= Seq::<(u32, Seq<char>)>::empty());
        assert(text_map(r.wav_defs@) =~= Map::<u32, Seq<char>>::empty());
        assert(text_map(r.bmp_defs@) =~= Map::<u32, Seq<char>>::empty());
        r
    }
}

pub(crate) proof fn lemma_first_ws_after(a: Seq<char>, b: Seq<char>)
    requires
        forall|i: int| 0 <= i < a.len() ==> !is_ws(#[trigger] a[i]),
    ensures
        first_ws(a + b) == a.len() + first_ws(b),
    decreases a.len(),
{
    if a.len() > 0 {
        assert((a + b)[0] == a[0]);
        assert((a + b).drop_first() =~= a.drop_first() + b);
        lemma_first_ws_after(a.drop_first(), b);
    } else {
        assert(a + b =~= b);
    }
}

/// The command and value of `cmd` followed by one space and `value`, for a
/// command without whitespace and a value that does not start with it.
proof fn lemma_split_command(cmd: Seq<char>, value: Seq<char>)
    requires
        forall|i: int| 0 <= i < cmd.len() ==> !is_ws(#[trigger] cmd[i]),
        value.len() > 0 ==> !is_ws(value[0]),
    ensures
        cmd_value_split(cmd + seq![' '] + value) == (cmd, value),
{
    let rest = seq![' '] + value;
    let line = cmd + rest;
    assert(cmd + seq![' '] + value =~= line);
    lemma_first_ws_after(cmd, rest);
    assert(first_ws(rest) == 0);
    assert(line.take(cmd.len() as int) =~= cmd);
    assert(line.skip(cmd.len() as int) =~= rest);
    assert(rest.drop_first() =~= value);
    assert(trim_start(rest, false) == trim_start(value, false));
}

/// A `#TITLE` header gives back the title it names: absorbing `TITLE`, a
/// space and a title that does not start with whitespace sets the title to
/// exactly that text.
pub proof fn lemma_title_round_trip(m: HeaderModel, title: Seq<char>)
    requires
        title.len() > 0 ==> !is_ws(title[0]),
    ensures
        absorb_line(m, seq!['T', 'I', 'T', 'L', 'E', ' '] + title).title == title,
{
    let cmd = seq!['T', 'I', 'T', 'L', 'E'];
    lemma_split_command(cmd, title);
    assert(cmd + seq![' '] + title =~= seq!['T', 'I', 'T', 'L', 'E', ' '] + title);
    assert(upper_seq(cmd) =~= cmd);
}

/// A level or difficulty written in decimal reads back as itself: absorbing
/// `PLAYLEVEL v` sets the level to `v`, and `DIFFICULTY v` the difficulty.
pub proof fn lemma_level_round_trip(m: HeaderModel, v: u8)
    ensures
        absorb_line(m, seq!['P', 'L', 'A', 'Y', 'L', 'E', 'V', 'E', 'L', ' '] + decimal(v as nat)).playlevel
            == Some(v),
        absorb_line(m, seq!['D', 'I', 'F', 'F', 'I', 'C', 'U', 'L', 'T', 'Y', ' '] + decimal(v as nat)).difficulty
            == Some(v),
{
    let d = decimal(v as nat);
    lemma_decimal_trims(v as nat);
    lemma_decimal_reads_back(v as nat);
    let playlevel = seq!['P', 'L', 'A', 'Y', 'L', 'E', 'V', 'E', 'L'];
    let difficulty = seq!['D', 'I', 'F', 'F', 'I', 'C', 'U', 'L', 'T', 'Y'];
    lemma_split_command(playlevel, d);
    lemma_split_command(difficulty, d);
    assert(playlevel + seq![' '] + d =~= seq!['P', 'L', 'A', 'Y', 'L', 'E', 'V', 'E', 'L', ' '] + d);
    assert(difficulty + seq![' '] + d =~= seq!['D', 'I', 'F', 'F', 'I', 'C', 'U', 'L', 'T', 'Y', ' '] + d);
    assert(upper_seq(playlevel) =~= playlevel);
    assert(upper_seq(difficulty) =~= difficulty);
    assert(parse_u8(d) == Some(v));
}

/// A whole-number BPM written in decimal is recorded as written: absorbing
/// `BPM n` appends `n`'s digits to the BPM texts, for every `n`.
pub proof fn lemma_bpm_round_trip(m: HeaderModel, n: nat)
    ensures
        absorb_line(m, seq!['B', 'P', 'M', ' '] + decimal(n)).bpm_texts == m.bpm_texts.push(decimal(n)),
{
    let d = decimal(n);
    lemma_decimal_trims(n);
    let bpm = seq!['B', 'P', 'M'];
    lemma_split_command(bpm, d);
    assert(bpm + seq![' '] + d =~= seq!['B', 'P', 'M', ' '] + d);
    assert(upper_seq(bpm) =~= bpm);
}

proof fn lemma_decimal_trims(n: nat)
    ensures
        !is_ws(decimal(n)[0]),
        trim(decimal(n), false) == decimal(n),
{
    let d = decimal(n);
    lemma_decimal_reads_back(n);
    assert(!is_ws(d[0]));
    assert(!is_ws(d.last()));
    assert(trim_start(d, false) == d);
    assert(trim_end(d, false) == d);
}

/// Header commands ignore ASCII case: a line whose command word is written
/// in upper case, lower case or any mix is absorbed the same way.
pub proof fn lemma_commands_ignore_case(m: HeaderModel, line: Seq<char>)
    ensures
        absorb_line(m, line) == absorb_line(
            m,
            upper_seq(line.take(first_ws(line))) + line.skip(first_ws(line)),
        ),
{
    crate::text::lemma_first_ws(line);
    let fw = first_ws(line);
    let cmd = line.take(fw);
    let rest = line.skip(fw);
    let up = upper_seq(cmd);
    assert forall|i: int| 0 <= i < up.len() implies !is_ws(#[trigger] up[i]) by {
        assert(cmd[i] == line[i]);
    }
    lemma_first_ws_after(up, rest);
    if rest.len() > 0 {
        assert(rest[0] == line[fw]);
        assert(is_ws(rest[0]));
    }
    assert(first_ws(rest) == 0);
    let line2 = up + rest;
    assert(line2.take(up.len() as int) =~= up);
    assert(line2.skip(up.len() as int) =~= rest);
    assert(upper_seq(up) =~= up);
}

} // verus!

//! Which chart to play: the file-name test used when scanning a song
//! directory, and the choice between a file, the built-in chart, or none.

use vstd::prelude::*;
use std::path::PathBuf;
use crate::text::{chars_eq, chars_of, copy_range, string_from_chars, upper_chars, upper_seq};

verus! {

#[verifier::external_type_specification]
#[verifier::external_body]
pub struct ExPathBuf(std::path::PathBuf);

/// The file extensions of chart files, upper-cased: BMS, BML, BME, PMS.
pub open spec fn is_chart_extension_spec(ext: Seq<char>) -> bool {
    let up = upper_seq(ext);
    ||| up == seq!['B', 'M', 'S']
    ||| up == seq!['B', 'M', 'L']
    ||| up == seq!['B', 'M', 'E']
    ||| up == seq!['P', 'M', 'S']
}

/// Whether a file extension (without the dot) marks a chart file, ignoring
/// ASCII case.
pub fn is_chart_extension(ext: &str) -> (r: bool)
    ensures
        r == is_chart_extension_spec(ext@),
{
    let cs = chars_of(ext);
    let up = upper_chars(cs.as_slice());
    let bms = ['B', 'M', 'S'];
    let bml = ['B', 'M', 'L'];
    let bme = ['B', 'M', 'E'];
    let pms = ['P', 'M', 'S'];
    assert(bms@ =~= seq!['B', 'M', 'S']);
    assert(bml@ =~= seq!['B', 'M', 'L']);
    assert(bme@ =~= seq!['B', 'M', 'E']);
    assert(pms@ =~= seq!['P', 'M', 'S']);
    chars_eq(up.as_slice(), &bms) || chars_eq(up.as_slice(), &bml) || chars_eq(up.as_slice(), &bme)
        || chars_eq(up.as_slice(), &pms)
}

/// Index of the last `'.'` in `name`, or -1 when there is none.
pub open spec fn last_dot(name: Seq<char>) -> int
    decreases name.len(),
{
    if name.len() == 0 {
        -1
    } else if name.last() == '.' {
        name.len() - 1
    } else {
        last_dot(name.drop_last())
    }
}

/// The extension of a file name as `Path::extension` documents it: none
/// when the name has no `'.'` or its only `'.'` is its first character,
/// otherwise the text after the last `'.'`.
pub open spec fn extension_of(name: Seq<char>) -> Option<Seq<char>> {
    let i = last_dot(name);
    if i > 0 {
        Some(name.subrange(i + 1, name.len() as int))
    } else {
        None
    }
}

fn find_last_dot(s: &[char]) -> (r: Option<usize>)
    ensures
        match r {
            Some(i) => i == last_dot(s@) && i < s@.len(),
            None => last_dot(s@) == -1,
        },
{
    let mut last: Option<usize> = None;
    let mut i: usize = 0;
    assert(s@.take(0) =~= Seq::<char>::empty());
    while i < s.len()
        invariant
            i <= s@.len(),
            match last {
                Some(j) => j == last_dot(s@.take(i as int)) && j < i,
                None => last_dot(s@.take(i as int)) == -1,
            },
        decreases s@.len() - i,
    {
        assert(s@.take(i + 1).drop_last() =~= s@.take(i as int));
        if s[i] == '.' {
            last = Some(i);
        }
        i = i + 1;
    }
    assert(s@.take(s@.len() as int) =~= s@);
    last
}

/// Whether a file, given by its name (the last component of its path), is
/// a chart: its extension is one of BMS, BML, BME, PMS in any case.
pub fn is_bms(file_name: &str) -> (r: bool)
    ensures
        r == match extension_of(file_name@) {
            Some(e) => is_chart_extension_spec(e),
            None => false,
        },
{
    let cs = chars_of(file_name);
    match find_last_dot(cs.as_slice()) {
        Some(i) => {
            if i == 0 {
                return false;
            }
            let n = cs.len();
            assert(i < n);
            let ext = copy_range(cs.as_slice(), i + 1, n);
            let e = string_from_chars(ext.as_slice());
            is_chart_extension(e.as_str())
        },
        None => false,
    }
}

/// What the player chose to play.
pub enum ChartChoice {
    File(PathBuf),
    Cancelled,
    BuiltIn,
}

/// The choice the command line settles on its own: the built-in chart when
/// asked for, else the given file; `None` when a song directory has to be
/// looked at.
pub fn direct_choice(built_in: bool, file: Option<PathBuf>) -> (r: Option<ChartChoice>)
    ensures
        built_in ==> r matches Some(ChartChoice::BuiltIn),
        !built_in ==> match file {
            Some(p) => r matches Some(ChartChoice::File(q)) && q == p,
            None => r is None,
        },
{
    if built_in {
        return Some(ChartChoice::BuiltIn);
    }
    match file {
        Some(p) => Some(ChartChoice::File(p)),
        None => None,
    }
}

/// The choice once a song directory was scanned: the built-in chart when it
/// held no chart, otherwise the chart the selector returned, or `Cancelled`
/// when the player left the selector.
pub fn choice_after_scan(charts_found: usize, selected: Option<PathBuf>) -> (r: ChartChoice)
    ensures
        charts_found == 0 ==> r is BuiltIn,
        charts_found > 0 ==> match selected {
            Some(p) => r matches ChartChoice::File(q) && q == p,
            None => r is Cancelled,
        },
{
    if charts_found == 0 {
        return ChartChoice::BuiltIn;
    }
    match selected {
        Some(p) => ChartChoice::File(p),
        None => ChartChoice::Cancelled,
    }
}

/// The places a song directory is looked for, in the order they are tried:
/// the directory named by `$TAPLINE_SONGS_DIR`, `./songs`,
/// `./tests/fixtures`, then `~/.tapline/songs`.
#[derive(Debug, Clone, Copy, PartialEq, Eq, Structural)]
pub enum SongsDir {
    FromEnv,
    Songs,
    Fixtures,
    Home,
}

/// The song directory to scan: the first place in the search order that
/// holds a directory (each flag says whether that place does), or none, in
/// which case the built-in chart plays.
pub fn pick_songs_dir(from_env: bool, songs: bool, fixtures: bool, home: bool) -> (r: Option<SongsDir>)
    ensures
        r == if from_env {
            Some(SongsDir::FromEnv)
        } else if songs {
            Some(SongsDir::Songs)
        } else if fixtures {
            Some(SongsDir::Fixtures)
        } else if home {
            Some(SongsDir::Home)
        } else {
            None
        },
{
    if from_env {
        Some(SongsDir::FromEnv)
    } else if songs {
        Some(SongsDir::Songs)
    } else if fixtures {
        Some(SongsDir::Fixtures)
    } else if home {
        Some(SongsDir::Home)
    } else {
        None
    }
}

/// Whether the game goes back to the selector after a song: only when the
/// chart was neither given on the command line nor the built-in one.
pub fn returns_to_selector(file_given: bool, built_in: bool) -> (r: bool)
    ensures
        r == (!file_given && !built_in),
{
    !file_given && !built_in
}

} // verus!

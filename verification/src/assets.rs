//! Where a chart's sound and image files may be found: the name the chart
//! gives, then the same stem under each extension the game can load.

use vstd::prelude::*;
use std::path::Path;
use crate::lines::string_views;
use crate::text::{chars_of, push_all, string_from_chars};

verus! {

/// What `Path::file_stem` gives for a file name, as text.
pub uninterp spec fn file_stem_of(name: Seq<char>) -> Option<Seq<char>>;

/// `Path::file_stem` of `name`, as text. The stem (the file name without
/// its final extension) is a function of the name alone, given the name
/// `file_stem_of`; what it is for each name is left to the standard library.
#[verifier::external_body]
fn file_stem_text(name: &str) -> (r: Option<String>)
    ensures
        match r {
            Some(s) => file_stem_of(name@) == Some(s@),
            None => file_stem_of(name@) is None,
        },
{
    Path::new(name).file_stem().and_then(|s| s.to_str()).map(|s| s.to_string())
}

/// Extensions tried for a sound file, in order.
pub open spec fn sound_exts() -> Seq<Seq<char>> {
    seq![seq!['w', 'a', 'v'], seq!['o', 'g', 'g'], seq!['m', 'p', '3'], seq!['f', 'l', 'a', 'c']]
}

/// Extensions tried for an image or video file, in order.
pub open spec fn image_exts() -> Seq<Seq<char>> {
    seq![
        seq!['p', 'n', 'g'],
        seq!['b', 'm', 'p'],
        seq!['j', 'p', 'g'],
        seq!['j', 'p', 'e', 'g'],
        seq!['g', 'i', 'f'],
        seq!['m', 'p', '4'],
        seq!['w', 'e', 'b', 'm'],
    ]
}

/// The names to look for, in order: the given name, then the stem with each
/// extension.
pub open spec fn candidate_names(name: Seq<char>, stem: Seq<char>, exts: Seq<Seq<char>>) -> Seq<Seq<char>> {
    seq![name] + exts.map_values(|e: Seq<char>| stem + seq!['.'] + e)
}

/// The stem a lookup uses: the file stem, or the whole name when it has none.
pub open spec fn lookup_stem(name: Seq<char>) -> Seq<char> {
    match file_stem_of(name) {
        Some(s) => s,
        None => name,
    }
}

proof fn lemma_candidates_push(name: Seq<char>, stem: Seq<char>, exts: Seq<Seq<char>>, e: Seq<char>)
    ensures
        candidate_names(name, stem, exts.push(e)) == candidate_names(name, stem, exts).push(stem + seq!['.'] + e),
{
    let f = |x: Seq<char>| stem + seq!['.'] + x;
    assert(exts.push(e).map_values(f) =~= exts.map_values(f).push(f(e)));
    assert(candidate_names(name, stem, exts.push(e)) =~= candidate_names(name, stem, exts).push(f(e)));
}

fn ext_table(images: bool) -> (r: Vec<Vec<char>>)
    ensures
        r@.map_values(|v: Vec<char>| v@) == if images { image_exts() } else { sound_exts() },
{
    let r = if images {
        vec![
            vec!['p', 'n', 'g'],
            vec!['b', 'm', 'p'],
            vec!['j', 'p', 'g'],
            vec!['j', 'p', 'e', 'g'],
            vec!['g', 'i', 'f'],
            vec!['m', 'p', '4'],
            vec!['w', 'e', 'b', 'm'],
        ]
    } else {
        vec![vec!['w', 'a', 'v'], vec!['o', 'g', 'g'], vec!['m', 'p', '3'], vec!['f', 'l', 'a', 'c']]
    };
    proof {
        let want = if images { image_exts() } else { sound_exts() };
        let got = r@.map_values(|v: Vec<char>| v@);
        assert(got.len() == want.len());
        assert forall|i: int| 0 <= i < want.len() implies got[i] =~= want[i] by {
            assert(got[i] == r@[i]@);
        }
        assert(got =~= want);
    }
    r
}

/// The names to look for given a name and its stem: the name itself, then
/// the stem with each sound extension (or, for `images`, each image and
/// video extension).
pub fn candidates_from_stem(name: &str, stem: &str, images: bool) -> (r: Vec<String>)
    ensures
        string_views(r@) == candidate_names(name@, stem@, if images { image_exts() } else { sound_exts() }),
{
    let exts = ext_table(images);
    let ghost want = if images { image_exts() } else { sound_exts() };
    let stem_chars = chars_of(stem);
    let mut out: Vec<String> = Vec::new();
    out.push(name.to_owned());
    let mut k: usize = 0;
    while k < exts.len()
        invariant
            k <= exts@.len(),
            exts@.map_values(|v: Vec<char>| v@) == want,
            stem_chars@ == stem@,
            string_views(out@) == candidate_names(name@, stem@, want.take(k as int)),
        decreases exts@.len() - k,
    {
        let mut v: Vec<char> = Vec::new();
        push_all(&mut v, stem_chars.as_slice());
        v.push('.');
        push_all(&mut v, exts[k].as_slice());
        let s = string_from_chars(v.as_slice());
        let ghost before = string_views(out@);
        out.push(s);
        proof {
            assert(want[k as int] == exts@[k as int]@);
            assert(want.take(k + 1) =~= want.take(k as int).push(want[k as int]));
            assert(string_views(out@) =~= before.push(s@));
            lemma_candidates_push(name@, stem@, want.take(k as int), want[k as int]);
            assert(v@ =~= stem@ + seq!['.'] + want[k as int]);
        }
        k = k + 1;
    }
    assert(want.take(exts@.len() as int) =~= want);
    out
}

/// Where a `#WAV` definition's file may be found, in the order to try:
/// the given name, then its stem as `.wav`, `.ogg`, `.mp3`, `.flac`.
pub fn sound_file_candidates(name: &str) -> (r: Vec<String>)
    ensures
        string_views(r@) == candidate_names(name@, lookup_stem(name@), sound_exts()),
{
    match file_stem_text(name) {
        Some(stem) => candidates_from_stem(name, stem.as_str(), false),
        None => candidates_from_stem(name, name, false),
    }
}

/// Where a `#BMP` definition's file may be found, in the order to try:
/// the given name, then its stem as `.png`, `.bmp`, `.jpg`, `.jpeg`,
/// `.gif`, `.mp4`, `.webm`.
pub fn image_file_candidates(name: &str) -> (r: Vec<String>)
    ensures
        string_views(r@) == candidate_names(name@, lookup_stem(name@), image_exts()),
{
    match file_stem_text(name) {
        Some(stem) => candidates_from_stem(name, stem.as_str(), true),
        None => candidates_from_stem(name, name, true),
    }
}

} // verus!

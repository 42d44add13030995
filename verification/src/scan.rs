//! The match scanner: slide a window of the sample fingerprint across each
//! candidate fingerprint and report the first offset whose edit distance
//! falls below the match threshold; plus the image-extension filter used to
//! pick candidate files.

use vstd::prelude::*;
use crate::distance::{lev, levenshtein};
use crate::fingerprint::TextBinSeq;
use crate::textops::{split_spec, split_chars, chars_of, string_from_chars, pieces_view,
    lemma_split_nonempty};
use vstd::slice::slice_subrange;

verus! {

/// A window qualifies as a match only when its distance is strictly below
/// this threshold.
pub const MATCH_DISTANCE: usize = 5;

/// Candidates whose fingerprint is shorter than this produce no report.
pub const MIN_CANDIDATE_LEN: usize = 16;

/// Compared window length: the sample length, clipped to the candidate.
pub open spec fn window_len(c: Seq<u8>, s: Seq<u8>) -> int {
    if c.len() <= s.len() {
        c.len() as int
    } else {
        s.len() as int
    }
}

/// Distance between the candidate window at `i` and the sample's leading
/// window, both of the clipped window length.
pub open spec fn window_distance(c: Seq<u8>, s: Seq<u8>, i: int) -> nat {
    lev(c.subrange(i, i + window_len(c, s)), s.subrange(0, window_len(c, s)))
}

/// Whether offset `i` qualifies: the bound uses the sample's full length,
/// so no window is ever examined for a candidate shorter than the sample,
/// while the compared window uses the clipped length.
pub open spec fn offset_matches(c: Seq<u8>, s: Seq<u8>, i: int) -> bool {
    &&& 0 <= i
    &&& i + s.len() <= c.len()
    &&& window_distance(c, s, i) < MATCH_DISTANCE
}

/// The first qualifying offset at or after `i`, if any.
pub open spec fn first_hit_from(c: Seq<u8>, s: Seq<u8>, i: int) -> Option<int>
    decreases c.len() + 1 - i,
{
    if i < 0 || i + s.len() > c.len() {
        None
    } else if window_distance(c, s, i) < MATCH_DISTANCE {
        Some(i)
    } else {
        first_hit_from(c, s, i + 1)
    }
}

/// The report for one candidate: no report for a fingerprint shorter than
/// the minimum length, otherwise the first qualifying offset, if any.
pub open spec fn candidate_report(c: Seq<u8>, s: Seq<u8>) -> Option<int> {
    if c.len() < MIN_CANDIDATE_LEN {
        None
    } else {
        first_hit_from(c, s, 0)
    }
}

/// `first_hit_from` yields the least qualifying offset at or after `i`,
/// and `None` exactly when no offset at or after `i` qualifies.
proof fn lemma_first_hit_props(c: Seq<u8>, s: Seq<u8>, i: int)
    requires
        0 <= i,
    ensures
        first_hit_from(c, s, i) matches Some(o) ==> i <= o && offset_matches(c, s, o) && forall|
            j: int,
        | i <= j < o ==> !offset_matches(c, s, j),
        first_hit_from(c, s, i) is None ==> forall|j: int| i <= j ==> !offset_matches(c, s, j),
    decreases if i <= c.len() + 1 { c.len() + 1 - i } else { 0 },
{
    if i + s.len() > c.len() {
        assert forall|j: int| i <= j implies !offset_matches(c, s, j) by {
            assert(j + s.len() >= i + s.len());
        }
    } else if window_distance(c, s, i) < MATCH_DISTANCE {
    } else {
        lemma_first_hit_props(c, s, i + 1);
    }
}

/// A candidate shorter than the minimum length produces no report.
pub proof fn lemma_short_candidate_no_report(c: Seq<u8>, s: Seq<u8>)
    ensures
        c.len() < MIN_CANDIDATE_LEN ==> candidate_report(c, s) is None,
{
}

/// A candidate whose fingerprint is shorter than the sample's produces no
/// report: no window fits, the very first bound check already fails.
pub proof fn lemma_shorter_than_sample_no_report(c: Seq<u8>, s: Seq<u8>)
    ensures
        c.len() < s.len() ==> candidate_report(c, s) is None,
{
}

/// The reported offset is the first qualifying one, not the offset of
/// minimum distance; `None` means no offset qualifies at all (for
/// candidates long enough to be examined).
pub proof fn lemma_report_is_first(c: Seq<u8>, s: Seq<u8>)
    ensures
        candidate_report(c, s) matches Some(o) ==> offset_matches(c, s, o) && forall|j: int|
            0 <= j < o ==> !offset_matches(c, s, j),
        candidate_report(c, s) is None && c.len() >= MIN_CANDIDATE_LEN ==> forall|j: int|
            !offset_matches(c, s, j),
{
    if c.len() >= MIN_CANDIDATE_LEN {
        lemma_first_hit_props(c, s, 0);
    }
}

/// Find the first qualifying offset of the sample fingerprint within a
/// candidate fingerprint, together with its distance.
pub fn find_first_match(cand: &Vec<u8>, sample: &Vec<u8>) -> (r: Option<(usize, usize)>)
    ensures
        (r is None) <==> (candidate_report(cand@, sample@) is None),
        r matches Some(p) ==> candidate_report(cand@, sample@) == Some(p.0 as int) && p.1
            == window_distance(cand@, sample@, p.0 as int) && offset_matches(
            cand@,
            sample@,
            p.0 as int,
        ) && forall|j: int| 0 <= j < p.0 ==> !offset_matches(cand@, sample@, j),
        r is None ==> cand@.len() < MIN_CANDIDATE_LEN || forall|j: int|
            !offset_matches(cand@, sample@, j),
{
    proof {
        lemma_report_is_first(cand@, sample@);
    }
    let cl: usize = cand.len();
    let sl: usize = sample.len();
    if cl < MIN_CANDIDATE_LEN {
        return None;
    }
    if sl > cl {
        proof {
            lemma_shorter_than_sample_no_report(cand@, sample@);
        }
        return None;
    }
    let m: usize = if cl <= sl {
        cl
    } else {
        sl
    };
    let mut i: usize = 0;
    while i <= cl - sl
        invariant
            cl == cand@.len(),
            sl == sample@.len(),
            sl <= cl,
            MIN_CANDIDATE_LEN <= cl,
            m == window_len(cand@, sample@),
            i <= cl - sl + 1,
            first_hit_from(cand@, sample@, 0) == first_hit_from(cand@, sample@, i as int),
            forall|j: int| 0 <= j < i ==> !offset_matches(cand@, sample@, j),
        decreases cl - i,
    {
        let w = slice_subrange(cand.as_slice(), i, i + m);
        let sw = slice_subrange(sample.as_slice(), 0, m);
        let d = levenshtein(w, sw);
        if d < MATCH_DISTANCE {
            proof {
                lemma_report_is_first(cand@, sample@);
            }
            return Some((i, d));
        }
        proof {
            assert(first_hit_from(cand@, sample@, i as int) == first_hit_from(
                cand@,
                sample@,
                i + 1,
            ));
        }
        i += 1;
    }
    proof {
        assert(i + sl > cl);
        assert(first_hit_from(cand@, sample@, i as int) is None);
        assert forall|j: int| !offset_matches(cand@, sample@, j) by {
            if 0 <= j < i {
            } else if j >= i {
                assert(j + sample@.len() > cand@.len());
            }
        }
    }
    None
}

/// One candidate document: its path and its fingerprint.
pub struct Candidate {
    pub path: String,
    pub fp: TextBinSeq,
}

/// A reported match: the candidate's path, the first qualifying offset,
/// and the distance at that offset.
pub struct MatchResult {
    pub path: String,
    pub offset: usize,
    pub distance: usize,
}

/// View of a candidate as its path and fingerprint symbols.
pub open spec fn cand_view(c: Candidate) -> (Seq<char>, Seq<u8>) {
    (c.path@, c.fp.bin@)
}

/// View of a report as its path, offset and distance.
pub open spec fn result_view(m: MatchResult) -> (Seq<char>, int, int) {
    (m.path@, m.offset as int, m.distance as int)
}

/// The reports produced by scanning candidates in order: at most one per
/// candidate, the first qualifying offset with its distance.
pub open spec fn scan_reports(s: Seq<u8>, cands: Seq<(Seq<char>, Seq<u8>)>) -> Seq<
    (Seq<char>, int, int),
>
    decreases cands.len(),
{
    if cands.len() == 0 {
        Seq::<(Seq<char>, int, int)>::empty()
    } else {
        let pre = scan_reports(s, cands.drop_last());
        let c = cands.last();
        match candidate_report(c.1, s) {
            Some(o) => pre.push((c.0, o, window_distance(c.1, s, o) as int)),
            None => pre,
        }
    }
}

/// The whole scan: an empty sample fingerprint terminates immediately with
/// no reports; otherwise each candidate contributes its report, if any.
pub open spec fn scan_spec(s: Seq<u8>, cands: Seq<(Seq<char>, Seq<u8>)>) -> Seq<
    (Seq<char>, int, int),
> {
    if s.len() == 0 {
        Seq::<(Seq<char>, int, int)>::empty()
    } else {
        scan_reports(s, cands)
    }
}

/// An empty sample produces no reports, whatever the candidates.
pub proof fn lemma_empty_sample_no_reports(s: Seq<u8>, cands: Seq<(Seq<char>, Seq<u8>)>)
    ensures
        s.len() == 0 ==> scan_spec(s, cands) == Seq::<(Seq<char>, int, int)>::empty(),
{
}

/// Scan every candidate fingerprint against the sample fingerprint, in
/// order, reporting for each at most its first qualifying offset.
pub fn scan_candidates(sample: &TextBinSeq, candidates: &Vec<Candidate>) -> (r: Vec<MatchResult>)
    ensures
        r@.map_values(|m: MatchResult| result_view(m)) == scan_spec(
            sample.bin@,
            candidates@.map_values(|c: Candidate| cand_view(c)),
        ),
        sample.bin@.len() == 0 ==> r@.len() == 0,
{
    let mut out: Vec<MatchResult> = Vec::new();
    if sample.bin.len() == 0 {
        return out;
    }
    let ghost cv = candidates@.map_values(|c: Candidate| cand_view(c));
    let mut k: usize = 0;
    while k < candidates.len()
        invariant
            k <= candidates@.len(),
            sample.bin@.len() > 0,
            cv == candidates@.map_values(|c: Candidate| cand_view(c)),
            out@.map_values(|m: MatchResult| result_view(m)) == scan_reports(
                sample.bin@,
                cv.take(k as int),
            ),
        decreases candidates@.len() - k,
    {
        let ghost out_before = out@;
        proof {
            assert(cv.take(k + 1).drop_last() =~= cv.take(k as int));
            assert(cv.take(k + 1).last() == cv[k as int]);
            assert(cv[k as int] == cand_view(candidates@[k as int]));
        }
        let cand = &candidates[k];
        match find_first_match(&cand.fp.bin, &sample.bin) {
            Some(p) => {
                let reported = MatchResult { path: cand.path.clone(), offset: p.0, distance: p.1 };
                out.push(reported);
                proof {
                    assert(out@.map_values(|m: MatchResult| result_view(m)) =~= out_before.map_values(
                        |m: MatchResult| result_view(m),
                    ).push(result_view(reported)));
                }
            },
            None => {},
        }
        proof {
            assert(out@.map_values(|m: MatchResult| result_view(m)) =~= scan_reports(
                sample.bin@,
                cv.take(k + 1),
            ));
        }
        k += 1;
    }
    proof {
        assert(cv.take(candidates@.len() as int) =~= cv);
    }
    out
}

/// The last non-empty piece of a split path, if any: trailing separators
/// contribute empty pieces, which are skipped.
pub open spec fn last_nonempty(pieces: Seq<Seq<char>>) -> Option<Seq<char>>
    decreases pieces.len(),
{
    if pieces.len() == 0 {
        None
    } else if pieces.last().len() > 0 {
        Some(pieces.last())
    } else {
        last_nonempty(pieces.drop_last())
    }
}

/// Textual extension of a path: the part of the final non-empty path
/// component after its last dot, absent when that component has no dot or
/// only a leading one, or when the path has no non-empty component.
pub open spec fn extension_of(p: Seq<char>) -> Option<Seq<char>> {
    match last_nonempty(split_spec(p, '/')) {
        None => None,
        Some(name) => {
            let dots = split_spec(name, '.');
            if dots.len() < 2 {
                None
            } else if dots.len() == 2 && dots[0].len() == 0 {
                None
            } else {
                Some(dots.last())
            }
        },
    }
}

/// Whether a path carries one of the fixed image extensions.
pub open spec fn is_image_path(p: Seq<char>) -> bool {
    match extension_of(p) {
        Some(e) => e == "jpg"@ || e == "jpeg"@ || e == "png"@,
        None => false,
    }
}

/// Whether a file path names an image by its extension.
pub fn is_image_file(path: &str) -> (r: bool)
    ensures
        r == is_image_path(path@),
{
    let path_chars = chars_of(path);
    let comps = split_chars(&path_chars, '/');
    let ghost pv = pieces_view(comps@);
    proof {
        lemma_split_nonempty(path@, '/');
        assert(pv.take(comps@.len() as int) =~= pv);
    }
    let mut idx: usize = comps.len();
    while idx > 0 && comps[idx - 1].len() == 0
        invariant
            idx <= comps@.len(),
            pv == pieces_view(comps@),
            last_nonempty(pv) == last_nonempty(pv.take(idx as int)),
        decreases idx,
    {
        proof {
            assert(pv[idx - 1] == comps@[idx - 1]@);
            assert(pv.take(idx as int).drop_last() =~= pv.take(idx - 1));
            assert(pv.take(idx as int).last() == pv[idx - 1]);
        }
        idx -= 1;
    }
    if idx == 0 {
        proof {
            assert(pv.take(0).len() == 0);
        }
        return false;
    }
    let name = &comps[idx - 1];
    proof {
        assert(pv.take(idx as int).last() == pv[idx - 1]);
        assert(pv[idx - 1] == name@);
        assert(last_nonempty(pv) == Some(name@));
    }
    let dots = split_chars(name, '.');
    proof {
        lemma_split_nonempty(name@, '.');
    }
    if dots.len() < 2 {
        return false;
    }
    if dots.len() == 2 && dots[0].len() == 0 {
        proof {
            assert(pieces_view(dots@)[0] == dots@[0]@);
        }
        return false;
    }
    let ext = &dots[dots.len() - 1];
    proof {
        assert(pieces_view(dots@)[dots@.len() - 1] == ext@);
    }
    let ext_string = string_from_chars(ext);
    ext_string == "jpg".to_owned() || ext_string == "jpeg".to_owned() || ext_string
        == "png".to_owned()
}

} // verus!

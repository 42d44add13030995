//! Text normalization: strip a fixed denylist of recognition-noise
//! patterns, keep only lines whose detected language is allowed, strip
//! stray punctuation from tokens, and collapse whitespace runs.

use vstd::prelude::*;
use crate::textops::{split_spec, join_spec, split_chars, join_chars, chars_of, string_from_chars,
    pieces_view};

verus! {

/// The text with every substring matching the fixed noise denylist removed:
/// doubled-vowel artifacts, localized weekday/date headers, short junk
/// tokens and repeated two-character pairs.  The result depends on the text
/// alone.
pub uninterp spec fn noise_stripped(s: Seq<char>) -> Seq<char>;

/// Relies on `regex::Regex::replace_all` with the fixed noise pattern and an
/// empty replacement: every match is removed, and the result is a function
/// of the text alone.  On an empty haystack there is nothing to match and
/// nothing to keep, so the result is empty.
#[verifier::external_body]
fn strip_noise(text: &str) -> (r: String)
    ensures
        r@ == noise_stripped(text@),
        text@.len() == 0 ==> r@.len() == 0,
{
    let re = regex::Regex::new(
        "\\b([aeueo]{2}|(Senin|Selasa|Rabu|Kamis|Jum'at|Sabtu|Minggu),? \\d\\d? .*|elo|[=\",\\.,aeueo_-]{2}|([a-zA-Z0-9]{2} [a-zA-Z0-9]{2})+\n         )\\b",
    ).unwrap();
    re.replace_all(text, "").to_string()
}

/// A token with a single leading quote/bracket/punctuation character,
/// repeated trailing dots or exclamation marks, and a single trailing
/// quote/bracket/punctuation character stripped.  The result depends on the
/// token alone.
pub uninterp spec fn token_normalized(s: Seq<char>) -> Seq<char>;

/// Relies on `regex::Regex::replace_all` with the fixed token pattern and
/// the replacement `$1`: each match is replaced by its alphanumeric core,
/// and the result is a function of the token alone.  On an empty token the
/// only match is empty with an empty core, so the result is empty.
#[verifier::external_body]
fn normalize_token(w: &str) -> (r: String)
    ensures
        r@ == token_normalized(w@),
        w@.len() == 0 ==> r@.len() == 0,
{
    let re = regex::Regex::new(
        "[\\('\",.]?([a-zA-Z0-9]*)(\\.+)?(!+)?[\u{201d}\\)',.]?",
    ).unwrap();
    re.replace_all(w, "$1").to_string()
}

/// The text with every run of two or more whitespace characters collapsed
/// into a single space.  The result depends on the text alone.
pub uninterp spec fn spaces_collapsed(s: Seq<char>) -> Seq<char>;

/// Relies on `regex::Regex::replace_all` with the fixed whitespace-run
/// pattern and a single-space replacement.  An empty haystack stays empty.
/// A leftmost match of the pattern starts right after a non-whitespace
/// character (an earlier start would itself match) and its greedy tail
/// consumes the whole whitespace run, so after replacement no two space
/// characters are ever adjacent.
#[verifier::external_body]
fn collapse_spaces(text: &str) -> (r: String)
    ensures
        r@ == spaces_collapsed(text@),
        text@.len() == 0 ==> r@.len() == 0,
        forall|k: int| 0 <= k && k + 1 < r@.len() ==> !((#[trigger] r@[k]) == ' ' && r@[k + 1] == ' '),
{
    let re = regex::Regex::new("\\s\\s+").unwrap();
    re.replace_all(text, " ").to_string()
}

/// The language code detected for a line, if any.  The result depends on
/// the line alone.
pub uninterp spec fn detected_lang(s: Seq<char>) -> Option<Seq<char>>;

/// Relies on `whatlang::detect` and `Lang::code`: detection is a function
/// of the line alone, and `code` renders the detected language as its
/// three-letter code.
#[verifier::external_body]
fn detect_lang_code(line: &str) -> (r: Option<String>)
    ensures
        r matches Some(c) ==> detected_lang(line@) == Some(c@),
        r is None ==> detected_lang(line@) is None,
{
    whatlang::detect(line).map(|info| info.lang().code().to_string())
}

/// A line is kept only when a language was detected for it and that
/// language is the target one or one of the two adjacent languages kept to
/// tolerate classifier error on short or noisy lines.
pub open spec fn lang_allowed(line: Seq<char>) -> bool {
    match detected_lang(line) {
        Some(c) => c == "ind"@ || c == "ilo"@ || c == "pol"@,
        None => false,
    }
}

/// Each token of a line normalized, the tokens rejoined with single spaces.
pub open spec fn norm_tokens(tokens: Seq<Seq<char>>) -> Seq<Seq<char>>
    decreases tokens.len(),
{
    if tokens.len() == 0 {
        Seq::<Seq<char>>::empty()
    } else {
        norm_tokens(tokens.drop_last()).push(token_normalized(tokens.last()))
    }
}

/// A line with each of its tokens normalized.
pub open spec fn normalized_line(line: Seq<char>) -> Seq<char> {
    join_spec(norm_tokens(split_spec(line, ' ')), ' ')
}

/// The lines whose detected language is allowed, each with its tokens
/// normalized, in source order.
pub open spec fn kept_lines(lines: Seq<Seq<char>>) -> Seq<Seq<char>>
    decreases lines.len(),
{
    if lines.len() == 0 {
        Seq::<Seq<char>>::empty()
    } else if lang_allowed(lines.last()) {
        kept_lines(lines.drop_last()).push(normalized_line(lines.last()))
    } else {
        kept_lines(lines.drop_last())
    }
}

/// The whole normalization pipeline: strip noise, keep allowed-language
/// lines with their tokens normalized, rejoin, and collapse whitespace.
pub open spec fn cleanup_spec(text: Seq<char>) -> Seq<char> {
    spaces_collapsed(join_spec(kept_lines(split_spec(noise_stripped(text), '\n')), '\n'))
}

/// Normalize recognized text: remove noise-pattern matches, drop lines
/// without an allowed detected language, strip stray punctuation from each
/// token, and collapse whitespace runs.  Empty text normalizes to empty
/// text, and the result never holds two adjacent space characters.
pub fn cleanup_text(text: &str) -> (r: String)
    ensures
        r@ == cleanup_spec(text@),
        text@.len() == 0 ==> r@.len() == 0,
        forall|k: int| 0 <= k && k + 1 < r@.len() ==> !((#[trigger] r@[k]) == ' ' && r@[k + 1] == ' '),
{
    let stripped = strip_noise(text);
    let stripped_chars = chars_of(stripped.as_str());
    let lines = split_chars(&stripped_chars, '\n');
    let ghost lv = pieces_view(lines@);
    proof {
        if text@.len() == 0 {
            assert(lv =~= seq![Seq::<char>::empty()]);
        }
    }
    let mut kept: Vec<Vec<char>> = Vec::new();
    let mut li: usize = 0;
    while li < lines.len()
        invariant
            li <= lines@.len(),
            lv == pieces_view(lines@),
            lv == split_spec(noise_stripped(text@), '\n'),
            pieces_view(kept@) == kept_lines(lv.take(li as int)),
            kept@.len() <= li,
            text@.len() == 0 ==> lv =~= seq![Seq::<char>::empty()],
            text@.len() == 0 ==> forall|j: int| 0 <= j < kept@.len() ==> kept@[j]@.len() == 0,
        decreases lines@.len() - li,
    {
        let ghost kept_before = kept@;
        proof {
            assert(lv.take(li + 1).drop_last() =~= lv.take(li as int));
            assert(lv.take(li + 1).last() == lv[li as int]);
        }
        let line = &lines[li];
        let line_string = string_from_chars(line);
        let code = detect_lang_code(line_string.as_str());
        let allowed: bool = match code {
            Some(c) => {
                c == "ind".to_owned() || c == "ilo".to_owned() || c == "pol".to_owned()
            },
            None => false,
        };
        if allowed {
            let tokens = split_chars(line, ' ');
            let ghost tv = pieces_view(tokens@);
            proof {
                if line@.len() == 0 {
                    assert(tv =~= seq![Seq::<char>::empty()]);
                }
            }
            let mut normed: Vec<Vec<char>> = Vec::new();
            let mut ti: usize = 0;
            while ti < tokens.len()
                invariant
                    ti <= tokens@.len(),
                    tv == pieces_view(tokens@),
                    line@.len() == 0 ==> tv =~= seq![Seq::<char>::empty()],
                    pieces_view(normed@) == norm_tokens(tv.take(ti as int)),
                    line@.len() == 0 ==> forall|j: int|
                        0 <= j < normed@.len() ==> normed@[j]@.len() == 0,
                decreases tokens@.len() - ti,
            {
                let ghost normed_before = normed@;
                proof {
                    assert(tv.take(ti + 1).drop_last() =~= tv.take(ti as int));
                    assert(tv.take(ti + 1).last() == tv[ti as int]);
                }
                let token_string = string_from_chars(&tokens[ti]);
                let nt = normalize_token(token_string.as_str());
                let nt_chars = chars_of(nt.as_str());
                normed.push(nt_chars);
                proof {
                    assert(pieces_view(normed@) =~= pieces_view(normed_before).push(
                        token_normalized(tv[ti as int]),
                    ));
                }
                ti += 1;
            }
            proof {
                assert(tv.take(tokens@.len() as int) =~= tv);
            }
            let joined = join_chars(&normed, ' ');
            proof {
                if line@.len() == 0 {
                    assert(tv.drop_last() =~= Seq::<Seq<char>>::empty());
                    assert(norm_tokens(Seq::<Seq<char>>::empty()) =~= Seq::<Seq<char>>::empty());
                    assert(norm_tokens(tv).len() == 1);
                    assert(pieces_view(normed@).len() == 1);
                    assert(joined@ == pieces_view(normed@)[0]);
                    assert(joined@.len() == 0);
                }
            }
            kept.push(joined);
            proof {
                assert(pieces_view(kept@) =~= pieces_view(kept_before).push(normalized_line(
                    lv[li as int],
                )));
            }
        }
        proof {
            assert(pieces_view(kept@) =~= kept_lines(lv.take(li + 1)));
        }
        li += 1;
    }
    proof {
        assert(lv.take(lines@.len() as int) =~= lv);
    }
    let rejoined = join_chars(&kept, '\n');
    proof {
        if text@.len() == 0 {
            assert(kept@.len() <= 1);
            if kept@.len() == 1 {
                assert(rejoined@ == pieces_view(kept@)[0]);
                assert(pieces_view(kept@)[0] == kept@[0]@);
            } else {
                assert(pieces_view(kept@).len() == 0);
            }
            assert(rejoined@.len() == 0);
        }
    }
    let rejoined_string = string_from_chars(&rejoined);
    collapse_spaces(rejoined_string.as_str())
}

} // verus!

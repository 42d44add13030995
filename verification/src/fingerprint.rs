//! Fingerprint encoding: classify each character of an admitted line into a
//! small symbol code, gate lines by a dictionary-hit accumulator and by a
//! positional bit signature, and collect the retained lines' symbols.

use vstd::prelude::*;
use crate::textops::{split_spec, split_chars, string_from_chars, chars_of, pieces_view};

verus! {

/// A line is admitted for encoding only if its dictionary-hit accumulator
/// exceeds this value.
pub const ADMISSION_THRESHOLD: u64 = 2;

/// An encoded line is retained only if its symbol signature exceeds this
/// value.
pub const SIGNATURE_THRESHOLD: u64 = 100;

/// Number of leading positions that contribute to a signature accumulator.
pub const SIGNATURE_LIMIT: usize = 64;

/// Symbol code of one character: lowercase vowel or space is 0, uppercase
/// vowel 1, other lowercase letter 2, other uppercase letter 3, digit 4,
/// anything else — every non-ASCII character included — 0.
pub open spec fn classify_spec(c: char) -> u8 {
    let b = c as u32;
    if b == 97 || b == 101 || b == 105 || b == 117 || b == 111 || b == 32 {
        0u8
    } else if b == 65 || b == 69 || b == 85 || b == 73 || b == 79 {
        1u8
    } else if 97 <= b && b <= 122 {
        2u8
    } else if 65 <= b && b <= 90 {
        3u8
    } else if 48 <= b && b <= 57 {
        4u8
    } else {
        0u8
    }
}

/// Symbol code of one character.
pub fn classify(c: char) -> (r: u8)
    ensures
        r == classify_spec(c),
{
    let b: u32 = c as u32;
    if b == 97 || b == 101 || b == 105 || b == 117 || b == 111 || b == 32 {
        0u8
    } else if b == 65 || b == 69 || b == 85 || b == 73 || b == 79 {
        1u8
    } else if 97 <= b && b <= 122 {
        2u8
    } else if 65 <= b && b <= 90 {
        3u8
    } else if 48 <= b && b <= 57 {
        4u8
    } else {
        0u8
    }
}

/// Symbol codes of every character of a line, in order.
pub open spec fn line_symbols_spec(line: Seq<char>) -> Seq<u8> {
    line.map_values(|c: char| classify_spec(c))
}

/// Symbol codes of every character of a line, in order.
pub fn line_symbols(line: &Vec<char>) -> (r: Vec<u8>)
    ensures
        r@ == line_symbols_spec(line@),
{
    let mut out: Vec<u8> = Vec::new();
    let mut i: usize = 0;
    while i < line.len()
        invariant
            i <= line@.len(),
            out@ == line_symbols_spec(line@.take(i as int)),
        decreases line@.len() - i,
    {
        out.push(classify(line[i]));
        proof {
            assert(line@.take(i + 1).map_values(|c: char| classify_spec(c)) =~= line@.take(
                i as int,
            ).map_values(|c: char| classify_spec(c)).push(classify_spec(line@[i as int])));
        }
        i += 1;
    }
    proof {
        assert(line@.take(line@.len() as int) =~= line@);
    }
    out
}

/// Positional bit accumulator over the first `n` values: the OR of each
/// value shifted left by its position.  A lossy positional feature hash,
/// not a count.
pub open spec fn sig_upto(vals: Seq<u8>, n: int) -> u64
    decreases n,
{
    if n <= 0 {
        0u64
    } else {
        sig_upto(vals, n - 1) | ((vals[n - 1] as u64) << ((n - 1) as u64))
    }
}

/// Signature of a value sequence: the positional bit accumulator over its
/// leading positions, at most `SIGNATURE_LIMIT` of them.
pub open spec fn signature_spec(vals: Seq<u8>) -> u64 {
    sig_upto(vals, if vals.len() <= SIGNATURE_LIMIT { vals.len() as int } else { SIGNATURE_LIMIT as int })
}

/// Signature of a value sequence.
pub fn signature(vals: &Vec<u8>) -> (r: u64)
    ensures
        r == signature_spec(vals@),
{
    let n: usize = if vals.len() <= SIGNATURE_LIMIT {
        vals.len()
    } else {
        SIGNATURE_LIMIT
    };
    let mut acc: u64 = 0;
    let mut i: usize = 0;
    while i < n
        invariant
            i <= n,
            n <= SIGNATURE_LIMIT,
            n <= vals@.len(),
            acc == sig_upto(vals@, i as int),
        decreases n - i,
    {
        acc = acc | ((vals[i] as u64) << (i as u64));
        i += 1;
    }
    acc
}

/// A signature over values that are all zero is zero.
pub proof fn lemma_zero_signature(vals: Seq<u8>, n: int)
    requires
        forall|k: int| 0 <= k < vals.len() ==> vals[k] == 0,
        n <= vals.len(),
    ensures
        sig_upto(vals, n) == 0,
    decreases n,
{
    if n > 0 {
        lemma_zero_signature(vals, n - 1);
        let s = ((n - 1) as u64);
        assert((0u64 << s) == 0u64) by (bit_vector);
        assert((0u64 | 0u64) == 0u64) by (bit_vector);
    }
}

/// A line composed only of lowercase vowels and spaces encodes entirely as
/// zero symbols, so its signature accumulator is zero — never above the
/// signature threshold — and the line is never retained.
pub proof fn lemma_vowel_space_line_not_retained(line: Seq<char>, words: Seq<Seq<u8>>)
    requires
        forall|k: int|
            0 <= k < line.len() ==> (line[k] == 'a' || line[k] == 'e' || line[k] == 'i' || line[k]
                == 'u' || line[k] == 'o' || line[k] == ' '),
    ensures
        signature_spec(line_symbols_spec(line)) == 0,
        !line_retained(line, words),
{
    let syms = line_symbols_spec(line);
    assert forall|k: int| 0 <= k < syms.len() implies syms[k] == 0 by {
        assert(syms[k] == classify_spec(line[k]));
    }
    lemma_zero_signature(
        syms,
        if syms.len() <= SIGNATURE_LIMIT {
            syms.len() as int
        } else {
            SIGNATURE_LIMIT as int
        },
    );
}

/// The reference word list: one entry per word, each held as its exact
/// bytes, matched byte for byte.
pub struct WordList {
    pub entries: Vec<Vec<u8>>,
}

/// View of a word list as a sequence of byte sequences.
pub open spec fn word_list_view(wl: &WordList) -> Seq<Seq<u8>> {
    wl.entries@.map_values(|e: Vec<u8>| e@)
}

/// Whether a word occurs in the list.
pub open spec fn word_listed(words: Seq<Seq<u8>>, w: Seq<u8>) -> bool {
    exists|k: int| 0 <= k < words.len() && words[k] == w
}

/// Byte-for-byte equality of two byte vectors.
fn bytes_eq(a: &Vec<u8>, b: &Vec<u8>) -> (r: bool)
    ensures
        r == (a@ == b@),
{
    if a.len() != b.len() {
        return false;
    }
    let mut i: usize = 0;
    while i < a.len()
        invariant
            i <= a@.len(),
            a@.len() == b@.len(),
            forall|k: int| 0 <= k < i ==> a@[k] == b@[k],
        decreases a@.len() - i,
    {
        if a[i] != b[i] {
            return false;
        }
        i += 1;
    }
    proof {
        assert(a@ =~= b@);
    }
    true
}

impl WordList {
    /// Build a word list from its entries.
    pub fn new(entries: Vec<Vec<u8>>) -> (r: WordList)
        ensures
            word_list_view(&r) == entries@.map_values(|e: Vec<u8>| e@),
    {
        WordList { entries }
    }

    /// Whether `w` occurs in the list, byte for byte.
    pub fn contains(&self, w: &Vec<u8>) -> (r: bool)
        ensures
            r == word_listed(word_list_view(self), w@),
    {
        let mut k: usize = 0;
        while k < self.entries.len()
            invariant
                k <= self.entries@.len(),
                forall|j: int| 0 <= j < k ==> word_list_view(self)[j] != w@,
            decreases self.entries@.len() - k,
        {
            if bytes_eq(&self.entries[k], w) {
                assert(word_list_view(self)[k as int] == w@);
                return true;
            }
            k += 1;
        }
        false
    }
}

/// Lowercase form of a token as bytes: the result depends on the token's
/// characters alone.
pub uninterp spec fn lower_bytes_of(s: Seq<char>) -> Seq<u8>;

/// Relies on `str::to_lowercase`: the lowercased text is a function of the
/// characters alone; `String::into_bytes` hands back its UTF-8 bytes.
#[verifier::external_body]
fn lower_bytes(s: &str) -> (r: Vec<u8>)
    ensures
        r@ == lower_bytes_of(s@),
{
    s.to_lowercase().into_bytes()
}

/// Dictionary hits of a line's tokens: one value per non-empty token, in
/// order, 1 where the lowercased token is listed and 0 otherwise.
pub open spec fn token_hits(tokens: Seq<Seq<char>>, words: Seq<Seq<u8>>) -> Seq<u8>
    decreases tokens.len(),
{
    if tokens.len() == 0 {
        Seq::<u8>::empty()
    } else {
        let pre = token_hits(tokens.drop_last(), words);
        let t = tokens.last();
        if t.len() == 0 {
            pre
        } else if word_listed(words, lower_bytes_of(t)) {
            pre.push(1u8)
        } else {
            pre.push(0u8)
        }
    }
}

/// A line is admitted for character encoding only if the positional
/// accumulator of its dictionary hits exceeds the admission threshold.
pub open spec fn line_admitted(line: Seq<char>, words: Seq<Seq<u8>>) -> bool {
    signature_spec(token_hits(split_spec(line, ' '), words)) > ADMISSION_THRESHOLD
}

/// A line is retained in the fingerprint only if it is admitted and the
/// signature of its symbol buffer exceeds the signature threshold.
pub open spec fn line_retained(line: Seq<char>, words: Seq<Seq<u8>>) -> bool {
    line_admitted(line, words) && signature_spec(line_symbols_spec(line)) > SIGNATURE_THRESHOLD
}

/// Concatenated symbols of the retained lines, in line order.
pub open spec fn encode_bin(lines: Seq<Seq<char>>, words: Seq<Seq<u8>>) -> Seq<u8>
    decreases lines.len(),
{
    if lines.len() == 0 {
        Seq::<u8>::empty()
    } else {
        encode_bin(lines.drop_last(), words) + if line_retained(lines.last(), words) {
            line_symbols_spec(lines.last())
        } else {
            Seq::<u8>::empty()
        }
    }
}

/// The retained lines themselves, in line order.
pub open spec fn encode_texts(lines: Seq<Seq<char>>, words: Seq<Seq<u8>>) -> Seq<Seq<char>>
    decreases lines.len(),
{
    if lines.len() == 0 {
        Seq::<Seq<char>>::empty()
    } else {
        encode_texts(lines.drop_last(), words) + if line_retained(lines.last(), words) {
            seq![lines.last()]
        } else {
            Seq::<Seq<char>>::empty()
        }
    }
}

/// Fingerprint symbols of a whole text: its lines are gated and encoded
/// independently and the retained lines' symbols concatenated.
pub open spec fn fingerprint_bin(text: Seq<char>, words: Seq<Seq<u8>>) -> Seq<u8> {
    encode_bin(split_spec(text, '\n'), words)
}

/// Retained lines of a whole text.
pub open spec fn fingerprint_texts(text: Seq<char>, words: Seq<Seq<u8>>) -> Seq<Seq<char>> {
    encode_texts(split_spec(text, '\n'), words)
}

/// A document fingerprint: the retained source lines and the concatenated
/// symbol codes of those lines.
pub struct TextBinSeq {
    pub texts: Vec<String>,
    pub bin: Vec<u8>,
}

/// View of the retained lines as character sequences.
pub open spec fn texts_view(texts: Seq<String>) -> Seq<Seq<char>> {
    texts.map_values(|s: String| s@)
}

/// Every symbol code is at most 4.
pub proof fn lemma_symbols_in_range(lines: Seq<Seq<char>>, words: Seq<Seq<u8>>)
    ensures
        forall|k: int| 0 <= k < encode_bin(lines, words).len() ==> encode_bin(lines, words)[k] <= 4,
    decreases lines.len(),
{
    if lines.len() > 0 {
        lemma_symbols_in_range(lines.drop_last(), words);
        let pre = encode_bin(lines.drop_last(), words);
        let whole = encode_bin(lines, words);
        assert forall|k: int| 0 <= k < whole.len() implies whole[k] <= 4 by {
            if pre.len() <= k {
                let tail = line_symbols_spec(lines.last());
                assert(whole[k] == tail[k - pre.len()]);
                assert(tail[k - pre.len()] == classify_spec(lines.last()[k - pre.len()]));
            }
        }
    }
}

/// Encoding is deterministic: identical normalized text and an identical
/// word list always yield identical fingerprint symbols and identical
/// retained lines.
pub proof fn lemma_encode_deterministic(
    t1: Seq<char>,
    t2: Seq<char>,
    w1: Seq<Seq<u8>>,
    w2: Seq<Seq<u8>>,
)
    requires
        t1 == t2,
        w1 == w2,
    ensures
        fingerprint_bin(t1, w1) == fingerprint_bin(t2, w2),
        fingerprint_texts(t1, w1) == fingerprint_texts(t2, w2),
{
}

/// Encode normalized text into a fingerprint, gated per line by the word
/// list: line by line, admission by dictionary hits, character
/// classification, and the signature test for retention.
pub fn text_to_bin(text: &str, words: &WordList) -> (r: TextBinSeq)
    ensures
        r.bin@ == fingerprint_bin(text@, word_list_view(words)),
        texts_view(r.texts@) == fingerprint_texts(text@, word_list_view(words)),
        forall|k: int| 0 <= k < r.bin@.len() ==> r.bin@[k] <= 4,
{
    let ghost wv = word_list_view(words);
    let text_chars = chars_of(text);
    let lines = split_chars(&text_chars, '\n');
    let ghost lv = pieces_view(lines@);
    let mut texts: Vec<String> = Vec::new();
    let mut bin: Vec<u8> = Vec::new();
    let mut li: usize = 0;
    while li < lines.len()
        invariant
            li <= lines@.len(),
            lv == pieces_view(lines@),
            wv == word_list_view(words),
            lv == split_spec(text@, '\n'),
            bin@ == encode_bin(lv.take(li as int), wv),
            texts_view(texts@) == encode_texts(lv.take(li as int), wv),
        decreases lines@.len() - li,
    {
        let line = &lines[li];
        let tokens = split_chars(line, ' ');
        let ghost tv = pieces_view(tokens@);
        let mut hits: Vec<u8> = Vec::new();
        let mut ti: usize = 0;
        while ti < tokens.len()
            invariant
                ti <= tokens@.len(),
                tv == pieces_view(tokens@),
                wv == word_list_view(words),
                hits@ == token_hits(tv.take(ti as int), wv),
            decreases tokens@.len() - ti,
        {
            proof {
                assert(tv.take(ti + 1).drop_last() =~= tv.take(ti as int));
                assert(tv.take(ti + 1).last() == tv[ti as int]);
            }
            if tokens[ti].len() > 0 {
                let ts = string_from_chars(&tokens[ti]);
                let wb = lower_bytes(ts.as_str());
                if words.contains(&wb) {
                    hits.push(1u8);
                } else {
                    hits.push(0u8);
                }
            }
            ti += 1;
        }
        proof {
            assert(tv.take(tokens@.len() as int) =~= tv);
        }
        let wth = signature(&hits);
        proof {
            assert(lv.take(li + 1).drop_last() =~= lv.take(li as int));
            assert(lv.take(li + 1).last() == lv[li as int]);
        }
        if wth > ADMISSION_THRESHOLD {
            let mut syms = line_symbols(line);
            let th = signature(&syms);
            if th > SIGNATURE_THRESHOLD {
                let ghost texts_before = texts@;
                let line_string = string_from_chars(line);
                texts.push(line_string);
                bin.append(&mut syms);
                proof {
                    assert(texts_view(texts@) =~= texts_view(texts_before).push(lv[li as int]));
                }
            }
        }
        proof {
            assert(bin@ =~= encode_bin(lv.take(li + 1), wv));
            assert(texts_view(texts@) =~= encode_texts(lv.take(li + 1), wv));
        }
        li += 1;
    }
    proof {
        assert(lv.take(lines@.len() as int) =~= lv);
        lemma_symbols_in_range(lv, wv);
    }
    TextBinSeq { texts, bin }
}

} // verus!

//! Edit distance between symbol sequences, with a linear-space
//! dynamic-programming implementation, and a population-count distance
//! on machine words.

use vstd::prelude::*;

verus! {

/// Cost of aligning one symbol against another: substitution is free for
/// equal symbols and costs one edit otherwise.
pub open spec fn edit_cost(x: u8, y: u8) -> nat {
    if x == y {
        0
    } else {
        1
    }
}

/// Minimum of three values.
pub open spec fn min3(a: int, b: int, c: int) -> int {
    if a <= b && a <= c {
        a
    } else if b <= c {
        b
    } else {
        c
    }
}

/// Levenshtein edit distance: the least number of insertions, deletions
/// and unit-cost substitutions turning `a` into `b`.
pub open spec fn lev(a: Seq<u8>, b: Seq<u8>) -> nat
    decreases a.len() + b.len(),
{
    if a.len() == 0 {
        b.len()
    } else if b.len() == 0 {
        a.len()
    } else {
        let del = lev(a.drop_last(), b) + 1;
        let ins = lev(a, b.drop_last()) + 1;
        let sub = lev(a.drop_last(), b.drop_last()) + edit_cost(a.last(), b.last());
        min3(del as int, ins as int, sub as int) as nat
    }
}

/// An empty sequence is at distance `len` from any sequence of length `len`.
pub proof fn lemma_lev_empty(a: Seq<u8>, b: Seq<u8>)
    ensures
        a.len() == 0 ==> lev(a, b) == b.len(),
        b.len() == 0 ==> lev(a, b) == a.len(),
{
}

/// The distance never exceeds the longer of the two lengths.
pub proof fn lemma_lev_le_max(a: Seq<u8>, b: Seq<u8>)
    ensures
        lev(a, b) <= a.len() || lev(a, b) <= b.len(),
        lev(a, b) <= if a.len() >= b.len() { a.len() } else { b.len() },
    decreases a.len() + b.len(),
{
    if a.len() == 0 || b.len() == 0 {
    } else {
        lemma_lev_le_max(a.drop_last(), b.drop_last());
    }
}

/// The distance is at least the difference of the lengths.
pub proof fn lemma_lev_ge_diff(a: Seq<u8>, b: Seq<u8>)
    ensures
        lev(a, b) + a.len() >= b.len(),
        lev(a, b) + b.len() >= a.len(),
    decreases a.len() + b.len(),
{
    if a.len() == 0 || b.len() == 0 {
    } else {
        lemma_lev_ge_diff(a.drop_last(), b);
        lemma_lev_ge_diff(a, b.drop_last());
        lemma_lev_ge_diff(a.drop_last(), b.drop_last());
    }
}

/// Every sequence is at distance zero from itself.
pub proof fn lemma_lev_self(a: Seq<u8>)
    ensures
        lev(a, a) == 0,
    decreases a.len(),
{
    if a.len() > 0 {
        lemma_lev_self(a.drop_last());
    }
}

/// The distance is symmetric in its arguments.
pub proof fn lemma_lev_symmetric(a: Seq<u8>, b: Seq<u8>)
    ensures
        lev(a, b) == lev(b, a),
    decreases a.len() + b.len(),
{
    if a.len() == 0 || b.len() == 0 {
    } else {
        lemma_lev_symmetric(a.drop_last(), b);
        lemma_lev_symmetric(a, b.drop_last());
        lemma_lev_symmetric(a.drop_last(), b.drop_last());
    }
}

/// Triangle inequality: going through an intermediate sequence never
/// shortens the distance.
pub proof fn lemma_lev_triangle(a: Seq<u8>, b: Seq<u8>, c: Seq<u8>)
    ensures
        lev(a, c) <= lev(a, b) + lev(b, c),
    decreases a.len() + b.len() + c.len(),
{
    if b.len() == 0 {
        lemma_lev_ge_diff(a, c);
        lemma_lev_le_max(a, c);
        lemma_lev_le_sum(a, c);
    } else if a.len() == 0 {
        lemma_lev_ge_diff(b, c);
    } else if c.len() == 0 {
        lemma_lev_ge_diff(a, b);
    } else {
        let ap = a.drop_last();
        let bp = b.drop_last();
        let cp = c.drop_last();
        if lev(a, b) == lev(ap, b) + 1 {
            lemma_lev_triangle(ap, b, c);
        } else if lev(b, c) == lev(b, cp) + 1 {
            lemma_lev_triangle(a, b, cp);
        } else if lev(a, b) == lev(a, bp) + 1 && lev(b, c) == lev(bp, c) + 1 {
            lemma_lev_triangle(a, bp, c);
        } else if lev(a, b) == lev(a, bp) + 1 {
            lemma_lev_triangle(a, bp, cp);
        } else if lev(b, c) == lev(bp, c) + 1 {
            lemma_lev_triangle(ap, bp, c);
        } else {
            lemma_lev_triangle(ap, bp, cp);
        }
    }
}

/// The distance never exceeds the sum of the two lengths.
pub proof fn lemma_lev_le_sum(a: Seq<u8>, b: Seq<u8>)
    ensures
        lev(a, b) <= a.len() + b.len(),
{
    lemma_lev_le_max(a, b);
}

/// One step of the dynamic-programming recurrence, phrased over prefixes.
proof fn lemma_lev_step(a: Seq<u8>, b: Seq<u8>, ia: int, ib: int)
    requires
        0 <= ia < a.len(),
        0 <= ib < b.len(),
    ensures
        lev(a.take(ia + 1), b.take(ib + 1)) == min3(
            lev(a.take(ia), b.take(ib + 1)) + 1 as int,
            lev(a.take(ia + 1), b.take(ib)) + 1 as int,
            lev(a.take(ia), b.take(ib)) + edit_cost(a[ia], b[ib]) as int,
        ),
{
    let x = a.take(ia + 1);
    let y = b.take(ib + 1);
    assert(x.drop_last() =~= a.take(ia));
    assert(y.drop_last() =~= b.take(ib));
    assert(x.last() == a[ia]);
    assert(y.last() == b[ib]);
}

/// Levenshtein edit distance between two symbol sequences, computed with a
/// single reusable row of length `|a|`.
pub fn levenshtein(a: &[u8], b: &[u8]) -> (r: usize)
    ensures
        r == lev(a@, b@),
{
    let la: usize = a.len();
    let lb: usize = b.len();
    if la == 0 {
        return lb;
    }
    if lb == 0 {
        return la;
    }
    let mut cache: Vec<usize> = Vec::new();
    let mut i: usize = 0;
    while i < la
        invariant
            i <= la,
            la == a@.len(),
            cache@.len() == i,
            forall|k: int| 0 <= k < i ==> cache@[k] == k + 1,
        decreases la - i,
    {
        cache.push(i + 1);
        i += 1;
    }
    proof {
        assert forall|k: int| 0 <= k < la implies cache@[k] == lev(
            a@.take(k + 1),
            b@.take(0),
        ) by {
            assert(b@.take(0).len() == 0);
            assert(a@.take(k + 1).len() == k + 1);
        }
    }
    let mut result: usize = 0;
    let mut ib: usize = 0;
    while ib < lb
        invariant
            ib <= lb,
            la == a@.len(),
            lb == b@.len(),
            0 < la,
            0 < lb,
            cache@.len() == la,
            forall|k: int| 0 <= k < la ==> cache@[k] == lev(a@.take(k + 1), b@.take(ib as int)),
            ib > 0 ==> result == lev(a@, b@.take(ib as int)),
        decreases lb - ib,
    {
        let mut prev_diag: usize = ib;
        result = ib + 1;
        proof {
            assert(a@.take(0).len() == 0);
            assert(b@.take(ib as int).len() == ib);
            assert(b@.take(ib + 1).len() == ib + 1);
        }
        let mut ia: usize = 0;
        while ia < la
            invariant
                ia <= la,
                ib < lb,
                la == a@.len(),
                lb == b@.len(),
                cache@.len() == la,
                prev_diag == lev(a@.take(ia as int), b@.take(ib as int)),
                result == lev(a@.take(ia as int), b@.take(ib + 1)),
                forall|k: int| ia <= k < la ==> cache@[k] == lev(a@.take(k + 1), b@.take(ib as int)),
                forall|k: int| 0 <= k < ia ==> cache@[k] == lev(a@.take(k + 1), b@.take(ib + 1)),
            decreases la - ia,
        {
            proof {
                lemma_lev_le_max(a@.take(ia as int), b@.take(ib as int));
            }
            let sub: usize = if a[ia] == b[ib] {
                prev_diag
            } else {
                prev_diag + 1
            };
            let up: usize = cache[ia];
            let left: usize = result;
            let mut next: usize = sub;
            if up < next {
                next = up + 1;
            }
            if left < next {
                next = left + 1;
            }
            proof {
                assert(next == min3(left + 1, up + 1, sub as int));
                lemma_lev_step(a@, b@, ia as int, ib as int);
            }
            prev_diag = up;
            result = next;
            cache.set(ia, next);
            ia += 1;
        }
        proof {
            assert(a@.take(la as int) =~= a@);
        }
        ib += 1;
    }
    proof {
        assert(b@.take(lb as int) =~= b@);
    }
    result
}

/// Number of set bits, defined by repeatedly clearing the lowest one.
pub open spec fn pop_bits(x: u64) -> nat
    decreases x,
    via pop_bits_decreases
{
    if x == 0 {
        0
    } else {
        (1 + pop_bits((x & (x - 1) as u64))) as nat
    }
}

#[via_fn]
proof fn pop_bits_decreases(x: u64) {
    if x != 0 {
        assert((x & (x - 1) as u64) < x) by (bit_vector)
            requires
                x != 0,
        ;
    }
}

/// `pop_bits` never exceeds its argument.
proof fn lemma_pop_bits_le(x: u64)
    ensures
        pop_bits(x) <= x,
    decreases x,
{
    if x != 0 {
        assert((x & (x - 1) as u64) < x) by (bit_vector)
            requires
                x != 0,
        ;
        lemma_pop_bits_le((x & (x - 1) as u64));
    }
}

/// Number of bit positions where `a` and `b` differ.
pub fn hamming_distance(a: u64, b: u64) -> (h: u64)
    ensures
        h == pop_bits(a ^ b),
{
    let mut h: u64 = 0;
    let mut d: u64 = a ^ b;
    proof {
        lemma_pop_bits_le(a ^ b);
    }
    while d > 0
        invariant
            h + pop_bits(d) == pop_bits(a ^ b),
            pop_bits(a ^ b) <= u64::MAX,
        decreases d,
    {
        h += 1;
        proof {
            assert((d & (d - 1) as u64) < d) by (bit_vector)
                requires
                    d != 0,
            ;
        }
        d = d & (d - 1);
    }
    h
}

} // verus!

//! The single-line compaction/merge algorithm and its mathematical model.
//!
//! A line is one full row or column, viewed with index 0 at the target edge.
//! Compaction slides every tile toward index 0 and merges equal adjacent
//! tiles at most once per resulting slot.  The model below states the result
//! directly: drop the empties, merge equal pairs greedily from the edge, pad
//! with empties.

use vstd::prelude::*;

verus! {

/// Sum of all values in a line or grid; empty cells hold 0 and add nothing.
pub open spec fn seq_sum(s: Seq<u32>) -> int
    decreases s.len(),
{
    if s.len() == 0 {
        0
    } else {
        s[0] + seq_sum(s.skip(1))
    }
}

/// The occupied cells of a line, in order: the empties are dropped.
pub open spec fn nonzeros(s: Seq<u32>) -> Seq<u32>
    decreases s.len(),
{
    if s.len() == 0 {
        Seq::empty()
    } else if s[0] == 0 {
        nonzeros(s.skip(1))
    } else {
        seq![s[0]] + nonzeros(s.skip(1))
    }
}

/// Greedy edge-first merging of a zero-free line: the two tiles nearest the
/// target edge merge when equal, and the merged slot is sealed for the rest
/// of the pass.
pub open spec fn merged(s: Seq<u32>) -> Seq<u32>
    decreases s.len(),
{
    if s.len() >= 2 && s[0] == s[1] {
        seq![(2 * s[0]) as u32] + merged(s.skip(2))
    } else if s.len() >= 1 {
        seq![s[0]] + merged(s.skip(1))
    } else {
        Seq::empty()
    }
}

/// The score of greedy merging: each merge gains the doubled value.
pub open spec fn merge_score(s: Seq<u32>) -> int
    decreases s.len(),
{
    if s.len() >= 2 && s[0] == s[1] {
        2 * s[0] + merge_score(s.skip(2))
    } else if s.len() >= 1 {
        merge_score(s.skip(1))
    } else {
        0
    }
}

/// The full result of compacting a line toward index 0: the merged occupied
/// cells, padded with empties to the line's length.
pub open spec fn slid(s: Seq<u32>) -> Seq<u32> {
    merged(nonzeros(s)) + Seq::new((s.len() - merged(nonzeros(s)).len()) as nat, |i: int| 0u32)
}

/// The score gained by compacting a line toward index 0.
pub open spec fn slide_score(s: Seq<u32>) -> int {
    merge_score(nonzeros(s))
}

pub proof fn lemma_seq_sum_nonneg(s: Seq<u32>)
    ensures
        seq_sum(s) >= 0,
    decreases s.len(),
{
    if s.len() > 0 {
        lemma_seq_sum_nonneg(s.skip(1));
    }
}

/// Replacing one value changes the sum by exactly the difference.
pub proof fn lemma_seq_sum_update(s: Seq<u32>, i: int, v: u32)
    requires
        0 <= i < s.len(),
    ensures
        seq_sum(s.update(i, v)) == seq_sum(s) - s[i] + v,
    decreases s.len(),
{
    let t = s.update(i, v);
    if i == 0 {
        assert(t.skip(1) =~= s.skip(1));
    } else {
        assert(t.skip(1) =~= s.skip(1).update(i - 1, v));
        lemma_seq_sum_update(s.skip(1), i - 1, v);
    }
}

/// Every single value is at most the whole sum.
pub proof fn lemma_seq_sum_elem(s: Seq<u32>, i: int)
    requires
        0 <= i < s.len(),
    ensures
        s[i] <= seq_sum(s),
    decreases s.len(),
{
    if i == 0 {
        lemma_seq_sum_nonneg(s.skip(1));
    } else {
        lemma_seq_sum_elem(s.skip(1), i - 1);
    }
}

/// Two values at distinct positions together are at most the whole sum.
pub proof fn lemma_seq_sum_two(s: Seq<u32>, a: int, b: int)
    requires
        0 <= a < s.len(),
        0 <= b < s.len(),
        a != b,
    ensures
        s[a] + s[b] <= seq_sum(s),
{
    let t = s.update(a, 0);
    lemma_seq_sum_update(s, a, 0);
    lemma_seq_sum_elem(t, b);
}

/// The sum splits at any cut point.
pub proof fn lemma_seq_sum_split(s: Seq<u32>, i: int)
    requires
        0 <= i <= s.len(),
    ensures
        seq_sum(s) == seq_sum(s.take(i)) + seq_sum(s.skip(i)),
    decreases i,
{
    if i == 0 {
        assert(s.take(0) =~= Seq::<u32>::empty());
        assert(s.skip(0) =~= s);
    } else {
        lemma_seq_sum_split(s.skip(1), i - 1);
        assert(s.skip(1).take(i - 1) =~= s.take(i).skip(1));
        assert(s.skip(1).skip(i - 1) =~= s.skip(i));
        assert(seq_sum(s.take(i)) == s[0] + seq_sum(s.take(i).skip(1)));
    }
}

pub proof fn lemma_nonzeros_len(s: Seq<u32>)
    ensures
        nonzeros(s).len() <= s.len(),
    decreases s.len(),
{
    if s.len() > 0 {
        lemma_nonzeros_len(s.skip(1));
    }
}

/// Dropping the empties keeps every occupied cell, so none is zero.
pub proof fn lemma_nonzeros_nonzero(s: Seq<u32>)
    ensures
        forall|q: int| 0 <= q < nonzeros(s).len() ==> nonzeros(s)[q] != 0,
    decreases s.len(),
{
    assert forall|q: int| 0 <= q < nonzeros(s).len() implies nonzeros(s)[q] != 0 by {
        lemma_nonzeros_nonzero_at(s, q);
    }
}

proof fn lemma_nonzeros_nonzero_at(s: Seq<u32>, q: int)
    requires
        0 <= q < nonzeros(s).len(),
    ensures
        nonzeros(s)[q] != 0,
    decreases s.len(),
{
    if s.len() > 0 {
        if s[0] == 0 {
            lemma_nonzeros_nonzero_at(s.skip(1), q);
        } else if q > 0 {
            lemma_nonzeros_nonzero_at(s.skip(1), q - 1);
            assert(nonzeros(s)[q] == nonzeros(s.skip(1))[q - 1]);
        }
    }
}

/// The sum of a one-cell line.
pub proof fn lemma_seq_sum_one(s: Seq<u32>)
    requires
        s.len() == 1,
    ensures
        seq_sum(s) == s[0],
{
    reveal_with_fuel(seq_sum, 2);
    assert(s.skip(1) =~= Seq::<u32>::empty());
}

/// The sum of a two-cell line.
pub proof fn lemma_seq_sum_pair(s: Seq<u32>)
    requires
        s.len() == 2,
    ensures
        seq_sum(s) == s[0] + s[1],
{
    assert(s.skip(1)[0] == s[1]);
    lemma_seq_sum_one(s.skip(1));
}

/// Dropping the empties does not change the sum.
pub proof fn lemma_nonzeros_sum(s: Seq<u32>)
    ensures
        seq_sum(nonzeros(s)) == seq_sum(s),
    decreases s.len(),
{
    if s.len() > 0 {
        lemma_nonzeros_sum(s.skip(1));
        if s[0] != 0 {
            assert((seq![s[0]] + nonzeros(s.skip(1))).skip(1) =~= nonzeros(s.skip(1)));
        }
    }
}

/// A run of empty cells contributes nothing to the occupied suffix.
pub proof fn lemma_nonzeros_skip_zeros(s: Seq<u32>, a: int, b: int)
    requires
        0 <= a <= b <= s.len(),
        forall|q: int| a <= q < b ==> s[q] == 0,
    ensures
        nonzeros(s.skip(a)) == nonzeros(s.skip(b)),
    decreases b - a,
{
    if a < b {
        assert(s.skip(a)[0] == s[a]);
        assert(s.skip(a).skip(1) =~= s.skip(a + 1));
        lemma_nonzeros_skip_zeros(s, a + 1, b);
    }
}

/// An occupied cell heads the occupied suffix that starts at it.
pub proof fn lemma_nonzeros_head(s: Seq<u32>, j: int)
    requires
        0 <= j < s.len(),
        s[j] != 0,
    ensures
        nonzeros(s.skip(j)) == seq![s[j]] + nonzeros(s.skip(j + 1)),
        nonzeros(s.skip(j)).len() >= 1,
        nonzeros(s.skip(j))[0] == s[j],
{
    assert(s.skip(j)[0] == s[j]);
    assert(s.skip(j).skip(1) =~= s.skip(j + 1));
}

/// Every occupied value in the compacted order is a value of the line.
pub proof fn lemma_nonzeros_member(s: Seq<u32>, q: int)
    requires
        0 <= q < nonzeros(s).len(),
    ensures
        exists|j: int| 0 <= j < s.len() && s[j] == nonzeros(s)[q] && s[j] != 0,
    decreases s.len(),
{
    if s.len() > 0 {
        if s[0] == 0 {
            lemma_nonzeros_member(s.skip(1), q);
            let j0 = choose|j: int|
                0 <= j < s.skip(1).len() && s.skip(1)[j] == nonzeros(s.skip(1))[q] && s.skip(1)[j]
                    != 0;
            assert(s[j0 + 1] == nonzeros(s)[q] && s[j0 + 1] != 0);
        } else {
            if q == 0 {
                assert(s[0] == nonzeros(s)[0] && s[0] != 0);
            } else {
                lemma_nonzeros_member(s.skip(1), q - 1);
                let j0 = choose|j: int|
                    0 <= j < s.skip(1).len() && s.skip(1)[j] == nonzeros(s.skip(1))[q - 1] && s.skip(
                        1,
                    )[j] != 0;
                assert(s[j0 + 1] == nonzeros(s)[q] && s[j0 + 1] != 0);
            }
        }
    }
}

pub proof fn lemma_merged_len(s: Seq<u32>)
    ensures
        merged(s).len() <= s.len(),
        s.len() > 0 ==> merged(s).len() >= 1,
    decreases s.len(),
{
    if s.len() >= 2 && s[0] == s[1] {
        lemma_merged_len(s.skip(2));
    } else if s.len() >= 1 {
        lemma_merged_len(s.skip(1));
    }
}

/// Merging conserves the total mass: two equal tiles become one holding
/// their sum.  Needs the mass to fit `u32`, so the doubled value is exact.
pub proof fn lemma_merged_sum(s: Seq<u32>)
    requires
        seq_sum(s) <= u32::MAX,
    ensures
        seq_sum(merged(s)) == seq_sum(s),
    decreases s.len(),
{
    if s.len() >= 2 && s[0] == s[1] {
        lemma_seq_sum_split(s, 2);
        assert(seq_sum(s.take(2)) == s[0] + s[1]) by {
            assert(s.take(2)[0] == s[0] && s.take(2)[1] == s[1]);
            lemma_seq_sum_pair(s.take(2));
        }
        lemma_seq_sum_nonneg(s.skip(2));
        lemma_merged_sum(s.skip(2));
        let h = (2 * s[0]) as u32;
        assert(h == 2 * s[0]);
        assert((seq![h] + merged(s.skip(2))).skip(1) =~= merged(s.skip(2)));
    } else if s.len() >= 1 {
        lemma_seq_sum_split(s, 1);
        assert(seq_sum(s.take(1)) == s[0]) by {
            assert(s.take(1)[0] == s[0]);
            assert(s.take(1).skip(1) =~= Seq::<u32>::empty());
        }
        lemma_seq_sum_nonneg(s.skip(1));
        lemma_merged_sum(s.skip(1));
        assert((seq![s[0]] + merged(s.skip(1))).skip(1) =~= merged(s.skip(1)));
    }
}

/// The score of a pass is non-negative and never exceeds the line's mass.
pub proof fn lemma_merge_score_bounds(s: Seq<u32>)
    ensures
        0 <= merge_score(s),
        merge_score(s) <= seq_sum(s),
    decreases s.len(),
{
    if s.len() >= 2 && s[0] == s[1] {
        lemma_seq_sum_split(s, 2);
        assert(seq_sum(s.take(2)) == s[0] + s[1]) by {
            assert(s.take(2)[0] == s[0] && s.take(2)[1] == s[1]);
            lemma_seq_sum_pair(s.take(2));
        }
        lemma_merge_score_bounds(s.skip(2));
    } else if s.len() >= 1 {
        lemma_seq_sum_split(s, 1);
        lemma_seq_sum_nonneg(s.take(1));
        lemma_merge_score_bounds(s.skip(1));
    }
}

/// Every merged value is a tile of the zero-free input, or the double of
/// one: no tile is multiplied by more than 2x in a single pass.
pub proof fn lemma_merged_member(s: Seq<u32>, q: int)
    requires
        seq_sum(s) <= u32::MAX,
        0 <= q < merged(s).len(),
    ensures
        exists|j: int|
            0 <= j < s.len() && (merged(s)[q] == s[j] || merged(s)[q] == 2 * s[j]),
    decreases s.len(),
{
    lemma_seq_sum_nonneg(s);
    if s.len() >= 2 && s[0] == s[1] {
        lemma_seq_sum_split(s, 2);
        assert(seq_sum(s.take(2)) == s[0] + s[1]) by {
            assert(s.take(2)[0] == s[0] && s.take(2)[1] == s[1]);
            lemma_seq_sum_pair(s.take(2));
        }
        lemma_seq_sum_nonneg(s.skip(2));
        if q == 0 {
            assert(merged(s)[0] == 2 * s[0]);
        } else {
            lemma_merged_member(s.skip(2), q - 1);
            let j0 = choose|j: int|
                0 <= j < s.skip(2).len() && (merged(s.skip(2))[q - 1] == s.skip(2)[j] || merged(
                    s.skip(2),
                )[q - 1] == 2 * s.skip(2)[j]);
            assert(s[j0 + 2] == s.skip(2)[j0]);
            assert(merged(s)[q] == merged(s.skip(2))[q - 1]);
        }
    } else if s.len() >= 1 {
        lemma_seq_sum_split(s, 1);
        lemma_seq_sum_nonneg(s.skip(1));
        lemma_seq_sum_nonneg(s.take(1));
        if q == 0 {
            assert(merged(s)[0] == s[0]);
        } else {
            lemma_merged_member(s.skip(1), q - 1);
            let j0 = choose|j: int|
                0 <= j < s.skip(1).len() && (merged(s.skip(1))[q - 1] == s.skip(1)[j] || merged(
                    s.skip(1),
                )[q - 1] == 2 * s.skip(1)[j]);
            assert(s[j0 + 1] == s.skip(1)[j0]);
            assert(merged(s)[q] == merged(s.skip(1))[q - 1]);
        }
    }
}

/// Merge-once invariant at line level: every occupied cell of a compacted
/// line is an occupied cell of the input line, or exactly the double of one.
pub proof fn lemma_merge_once(s: Seq<u32>, q: int)
    requires
        seq_sum(s) <= u32::MAX,
        0 <= q < slid(s).len(),
        slid(s)[q] != 0,
    ensures
        exists|j: int|
            0 <= j < s.len() && s[j] != 0 && (slid(s)[q] == s[j] || slid(s)[q] == 2 * s[j]),
{
    let s0 = nonzeros(s);
    lemma_nonzeros_sum(s);
    lemma_nonzeros_nonzero(s);
    if q < merged(s0).len() {
        lemma_merged_member(s0, q);
        let j0 = choose|j: int|
            0 <= j < s0.len() && (merged(s0)[q] == s0[j] || merged(s0)[q] == 2 * s0[j]);
        lemma_nonzeros_member(s, j0);
        let j1 = choose|j: int| 0 <= j < s.len() && s[j] == s0[j0] && s[j] != 0;
        assert(slid(s)[q] == merged(s0)[q]);
        assert(slid(s)[q] == s[j1] || slid(s)[q] == 2 * s[j1]);
    } else {
        assert(slid(s)[q] == 0);
    }
}

/// Compacting never changes a line's length: merging shortens the occupied
/// part and the padding fills the rest.
pub proof fn lemma_slid_len(s: Seq<u32>)
    ensures
        slid(s).len() == s.len(),
{
    lemma_nonzeros_len(s);
    lemma_merged_len(nonzeros(s));
}

/// The score of one line's pass is non-negative and bounded by the line's
/// mass.
pub proof fn lemma_slide_score_bounds(s: Seq<u32>)
    ensures
        0 <= slide_score(s),
        slide_score(s) <= seq_sum(s),
{
    lemma_merge_score_bounds(nonzeros(s));
    lemma_nonzeros_sum(s);
}

/// Compacts one line in place toward index 0 with a two-index scan, exactly
/// as one swipe treats each row or column: for each destination slot, scan
/// the farther cells; an empty source is skipped, a source equal to the
/// occupied destination merges into it once and seals the slot, a differing
/// source blocks the slot.  Returns the score gained.
#[verifier::loop_isolation(false)]
#[verifier::rlimit(100)]
pub fn compact_line(line: &mut Vec<u32>) -> (score: u32)
    requires
        seq_sum(old(line)@) <= u32::MAX,
    ensures
        final(line)@ == slid(old(line)@),
        final(line)@.len() == old(line)@.len(),
        score == slide_score(old(line)@),
        seq_sum(final(line)@) == seq_sum(old(line)@),
{
    let ghost orig = line@;
    let ghost s0 = nonzeros(orig);
    let ghost m = merged(s0);
    let ghost pp = slid(orig);
    let n = line.len();
    proof {
        lemma_seq_sum_nonneg(orig);
        lemma_nonzeros_len(orig);
        lemma_nonzeros_sum(orig);
        lemma_nonzeros_nonzero(orig);
        lemma_merged_len(s0);
        lemma_merged_sum(s0);
        lemma_merge_score_bounds(s0);
        assert(pp.len() == n);
        assert(forall|p: int| 0 <= p < m.len() ==> pp[p] == m[p]);
        assert(forall|p: int| m.len() <= p < n ==> pp[p] == 0);
    }
    let mut score: u32 = 0;
    let ghost mut k: int = 0;
    proof {
        assert(orig.skip(0) =~= orig);
        assert(s0.skip(0) =~= s0);
    }
    let mut i: usize = 0;
    while i < n
        invariant
            0 <= i <= n,
            line@.len() == n,
            0 <= k <= s0.len(),
            forall|p: int| 0 <= p < i ==> line@[p] == pp[p],
            nonzeros(line@.skip(i as int)) == s0.skip(k),
            i <= m.len() ==> merged(s0.skip(k)) == m.skip(i as int),
            i > m.len() ==> k == s0.len(),
            score == merge_score(s0) - merge_score(s0.skip(k)),
            seq_sum(line@) == seq_sum(orig),
        decreases n - i,
    {
        proof {
            assert(line@.skip(i as int)[0] == line@[i as int]);
            assert(line@.skip(i as int).skip(1) =~= line@.skip(i + 1));
            if line@[i as int] != 0 {
                lemma_nonzeros_head(line@, i as int);
                assert(s0.skip(k)[0] == s0[k]);
                assert(s0.skip(k).skip(1) =~= s0.skip(k + 1));
                assert(nonzeros(line@.skip(i + 1)) =~= s0.skip(k + 1));
            } else {
                assert(nonzeros(line@.skip(i as int)) == nonzeros(line@.skip(i + 1)));
            }
        }
        let mut j = i + 1;
        let mut stop = false;
        while j < n && !stop
            invariant
                i < n,
                i + 1 <= j <= n,
                line@.len() == n,
                0 <= k <= s0.len(),
                seq_sum(line@) == seq_sum(orig),
                score == merge_score(s0) - merge_score(s0.skip(k)),
                !stop ==> forall|p: int| 0 <= p < i ==> line@[p] == pp[p],
                !stop ==> forall|q: int| i < q < j ==> line@[q] == 0,
                !stop && line@[i as int] == 0 ==> nonzeros(line@.skip(j as int)) == s0.skip(k),
                !stop && line@[i as int] != 0 ==> k < s0.len() && line@[i as int] == s0[k]
                    && nonzeros(line@.skip(j as int)) == s0.skip(k + 1),
                !stop && i <= m.len() ==> merged(s0.skip(k)) == m.skip(i as int),
                !stop && i > m.len() ==> k == s0.len(),
                stop ==> forall|p: int| 0 <= p < i + 1 ==> line@[p] == pp[p],
                stop ==> nonzeros(line@.skip(i + 1)) == s0.skip(k),
                stop && i + 1 <= m.len() ==> merged(s0.skip(k)) == m.skip(i + 1),
                stop && i + 1 > m.len() ==> k == s0.len(),
            decreases n - j,
        {
            let v = line[j];
            if v != 0 {
                let ghost lpre = line@;
                let d = line[i];
                if d == 0 {
                    proof {
                        lemma_nonzeros_head(lpre, j as int);
                        assert(s0.skip(k)[0] == s0[k]);
                        assert(s0.skip(k).skip(1) =~= s0.skip(k + 1));
                        assert(s0[k] == v);
                    }
                    line.set(i, v);
                    line.set(j, 0);
                    proof {
                        lemma_seq_sum_update(lpre, i as int, v);
                        lemma_seq_sum_update(lpre.update(i as int, v), j as int, 0);
                        assert(line@.skip(j + 1) =~= lpre.skip(j + 1));
                        assert(nonzeros(line@.skip(j + 1)) == s0.skip(k + 1));
                    }
                } else if d == v {
                    proof {
                        lemma_nonzeros_head(lpre, j as int);
                        assert(s0.skip(k + 1)[0] == s0[k + 1]);
                        assert(k + 1 < s0.len());
                        assert(s0.skip(k + 1).skip(1) =~= s0.skip(k + 2));
                        assert(s0[k + 1] == v);
                        assert(i <= m.len());
                        lemma_seq_sum_two(lpre, i as int, j as int);
                        assert(2 * v <= seq_sum(orig));
                        // the merged slot: head of the remaining merge outputs
                        assert(s0.skip(k).len() >= 2);
                        assert(s0.skip(k)[0] == s0[k] && s0.skip(k)[1] == s0[k + 1]);
                        assert(s0.skip(k).skip(2) =~= s0.skip(k + 2));
                        assert(merged(s0.skip(k)) == seq![(2 * s0[k]) as u32] + merged(
                            s0.skip(k + 2),
                        ));
                        assert(merge_score(s0.skip(k)) == 2 * s0[k] + merge_score(s0.skip(k + 2)));
                        lemma_merge_score_bounds(s0.skip(k + 2));
                        assert(i < m.len()) by {
                            lemma_merged_len(s0.skip(k));
                            assert(m.skip(i as int).len() >= 1);
                        }
                        assert((2 * s0[k]) as u32 == 2 * s0[k]);
                        assert(m.skip(i as int)[0] == m[i as int]);
                        assert((seq![(2 * s0[k]) as u32] + merged(s0.skip(k + 2)))[0] == (2
                            * s0[k]) as u32);
                        assert(m[i as int] == (2 * s0[k]) as u32);
                        assert(score + 2 * v <= u32::MAX) by {
                            assert(score + 2 * v == merge_score(s0) - merge_score(s0.skip(k + 2)));
                            assert(merge_score(s0) <= seq_sum(s0));
                            assert(seq_sum(s0) == seq_sum(orig));
                        }
                        assert(merged(s0.skip(k)).skip(1) =~= merged(s0.skip(k + 2)));
                        assert(m.skip(i as int).skip(1) =~= m.skip(i + 1));
                        assert(merged(s0.skip(k + 2)) == m.skip(i + 1));
                    }
                    let nv = 2 * v;
                    score = score + nv;
                    line.set(i, nv);
                    line.set(j, 0);
                    stop = true;
                    proof {
                        k = k + 2;
                        lemma_seq_sum_update(lpre, i as int, nv);
                        lemma_seq_sum_update(lpre.update(i as int, nv), j as int, 0);
                        assert(line@[i as int] == m[i as int]);
                        assert(line@[i as int] == pp[i as int]);
                        assert(line@.skip(j + 1) =~= lpre.skip(j + 1));
                        assert(nonzeros(line@.skip(j + 1)) == s0.skip(k));
                        assert(forall|q: int| i < q < j + 1 ==> line@[q] == 0);
                        lemma_nonzeros_skip_zeros(line@, i + 1, j + 1);
                    }
                } else {
                    stop = true;
                    proof {
                        lemma_nonzeros_head(line@, j as int);
                        assert(s0.skip(k + 1)[0] == s0[k + 1]);
                        assert(k + 1 < s0.len());
                        assert(s0[k + 1] == v);
                        assert(i <= m.len());
                        assert(s0.skip(k).len() >= 2);
                        assert(s0.skip(k)[0] == s0[k] && s0.skip(k)[1] == s0[k + 1]);
                        assert(s0[k] != s0[k + 1]);
                        assert(s0.skip(k).skip(1) =~= s0.skip(k + 1));
                        assert(merged(s0.skip(k)) == seq![s0[k]] + merged(s0.skip(k + 1)));
                        assert(merge_score(s0.skip(k)) == merge_score(s0.skip(k + 1)));
                        assert(i < m.len()) by {
                            lemma_merged_len(s0.skip(k));
                            assert(m.skip(i as int).len() >= 1);
                        }
                        assert(m.skip(i as int)[0] == m[i as int]);
                        assert((seq![s0[k]] + merged(s0.skip(k + 1)))[0] == s0[k]);
                        assert(m[i as int] == s0[k]);
                        assert(line@[i as int] == pp[i as int]);
                        assert(merged(s0.skip(k)).skip(1) =~= merged(s0.skip(k + 1)));
                        assert(m.skip(i as int).skip(1) =~= m.skip(i + 1));
                        assert(merged(s0.skip(k + 1)) == m.skip(i + 1));
                        k = k + 1;
                        lemma_nonzeros_skip_zeros(line@, i + 1, j as int);
                    }
                }
            } else {
                proof {
                    assert(line@.skip(j as int)[0] == 0);
                    assert(line@.skip(j as int).skip(1) =~= line@.skip(j + 1));
                }
            }
            j = j + 1;
        }
        proof {
            if !stop {
                assert(j == n);
                assert(line@.skip(n as int) =~= Seq::<u32>::empty());
                if line@[i as int] == 0 {
                    // no source remains: the rest of the line is empty
                    assert(s0.skip(k).len() == 0);
                    assert(k == s0.len());
                    if i <= m.len() {
                        lemma_merged_len(s0.skip(k));
                        if i < m.len() {
                            assert(merged(s0.skip(k)).len() == 0);
                            assert(m.skip(i as int).len() >= 1);
                            assert(false);
                        }
                    }
                    assert(i >= m.len());
                    assert(line@[i as int] == pp[i as int]);
                    lemma_nonzeros_skip_zeros(line@, i + 1, n as int);
                    assert(nonzeros(line@.skip(i + 1)) == s0.skip(k));
                    if i + 1 <= m.len() {
                        assert(false);
                    }
                } else {
                    // a tile waits at the destination and nothing follows it
                    reveal_with_fuel(merged, 2);
                    reveal_with_fuel(merge_score, 2);
                    assert(s0.skip(k + 1).len() == 0);
                    assert(k + 1 == s0.len());
                    assert(i <= m.len());
                    assert(s0.skip(k) =~= seq![s0[k]]);
                    assert(seq![s0[k]].skip(1) =~= Seq::<u32>::empty());
                    assert(merged(s0.skip(k)) == seq![s0[k]]);
                    assert(merge_score(s0.skip(k)) == 0);
                    assert(m.skip(i as int) == seq![s0[k]]);
                    assert(m.len() == i + 1);
                    assert(m[i as int] == s0[k]);
                    assert(line@[i as int] == pp[i as int]);
                    lemma_nonzeros_skip_zeros(line@, i + 1, n as int);
                    k = k + 1;
                    assert(nonzeros(line@.skip(i + 1)) == s0.skip(k));
                    assert(merged(s0.skip(k)) =~= m.skip(i + 1));
                }
            }
        }
        i = i + 1;
    }
    proof {
        assert(line@ =~= pp);
        if m.len() == n {
            assert(m.skip(n as int).len() == 0);
            lemma_merged_len(s0.skip(k));
            if k < s0.len() {
                assert(merged(s0.skip(k)).len() >= 1);
                assert(false);
            }
        }
        assert(k == s0.len());
        assert(s0.skip(k) =~= Seq::<u32>::empty());
        assert(merge_score(s0.skip(k)) == 0);
    }
    score
}

/// A sequence of empty cells sums to nothing.
pub proof fn lemma_all_zero_sum(s: Seq<u32>)
    requires
        forall|p: int| 0 <= p < s.len() ==> s[p] == 0,
    ensures
        seq_sum(s) == 0,
    decreases s.len(),
{
    if s.len() > 0 {
        lemma_all_zero_sum(s.skip(1));
    }
}

} // verus!

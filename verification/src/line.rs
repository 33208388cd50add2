//! The line shift engine: merging and compacting a single 4-cell line of
//! ranks toward index 0, the primitive behind all four board shifts.

use vstd::prelude::*;

use crate::Score;

verus! {

broadcast use vstd::array::group_array_axioms;

/// A row or column of four ranks, the unit the shift primitive operates on.
pub type Line = [u8; 4];

/// The subsequence of non-empty ranks of a line, in order.
pub open spec fn nonzeros(s: Seq<u8>) -> Seq<u8>
    decreases s.len(),
{
    if s.len() == 0 {
        Seq::empty()
    } else if s[0] != 0 {
        seq![s[0]] + nonzeros(s.skip(1))
    } else {
        nonzeros(s.skip(1))
    }
}

/// Merge adjacent equal ranks of a gap-free line, left to right; a rank
/// produced by a merge is not merged again in the same shift.
pub open spec fn merged_ranks(s: Seq<u8>) -> Seq<u8>
    decreases s.len(),
{
    if s.len() <= 1 {
        s
    } else if s[0] == s[1] {
        seq![(s[0] + 1) as u8] + merged_ranks(s.skip(2))
    } else {
        seq![s[0]] + merged_ranks(s.skip(1))
    }
}

/// The nearest integer to a post-merge rank scaled by the merge factor
/// 6/5 (that is, 1.2); meaningful for `rank >= 0`.
pub open spec fn merge_bonus(rank: int) -> int {
    (6 * rank + 2) / 5
}

/// The score of the merges `merged_ranks` performs on a gap-free line:
/// every merge adds its post-merge rank, scaled by the merge factor and
/// rounded to the nearest integer, to the running score.
pub open spec fn merged_bonus_score(s: Seq<u8>) -> int
    decreases s.len(),
{
    if s.len() <= 1 {
        0
    } else if s[0] == s[1] {
        merge_bonus(s[0] + 1) + merged_bonus_score(s.skip(2))
    } else {
        merged_bonus_score(s.skip(1))
    }
}

/// The line that shifting leaves behind: merged non-empty ranks compacted
/// to the low end, empty cells after them.
pub open spec fn shifted_line(l: Seq<u8>) -> Seq<u8> {
    let m = merged_ranks(nonzeros(l));
    Seq::new(l.len(), |i: int| if i < m.len() { m[i] } else { 0u8 })
}

/// The merge score a shift of the line earns: the sum of the rounded
/// per-merge bonuses.
pub open spec fn line_score(l: Seq<u8>) -> int {
    merged_bonus_score(nonzeros(l))
}

/// The pending rank of a partial merge pass, as a sequence: empty while no
/// rank waits, a singleton otherwise.
spec fn pend_seq(pending: u8) -> Seq<u8> {
    if pending == 0 {
        Seq::empty()
    } else {
        seq![pending]
    }
}

/// A line has at most as many occupied cells as cells.
pub proof fn lemma_nonzeros_len(s: Seq<u8>)
    ensures
        nonzeros(s).len() <= s.len(),
    decreases s.len(),
{
    if s.len() > 0 {
        lemma_nonzeros_len(s.skip(1));
    }
}

/// The occupied cells of a line are non-empty and no larger than the
/// line's largest rank.
pub proof fn lemma_nonzeros_elems(s: Seq<u8>, k: int)
    requires
        forall|i: int| 0 <= i < s.len() ==> s[i] <= k,
    ensures
        forall|i: int|
            0 <= i < nonzeros(s).len() ==> 0 < #[trigger] nonzeros(s)[i] && nonzeros(s)[i] <= k,
    decreases s.len(),
{
    if s.len() > 0 {
        assert(forall|i: int| 0 <= i < s.skip(1).len() ==> s.skip(1)[i] == s[i + 1]);
        lemma_nonzeros_elems(s.skip(1), k);
        assert forall|i: int|
            0 <= i < nonzeros(s).len() implies 0 < #[trigger] nonzeros(s)[i] && nonzeros(s)[i]
            <= k by {
            if s[0] != 0 {
                if i == 0 {
                    assert(nonzeros(s)[0] == s[0]);
                } else {
                    assert(nonzeros(s)[i] == nonzeros(s.skip(1))[i - 1]);
                }
            } else {
                assert(nonzeros(s)[i] == nonzeros(s.skip(1))[i]);
            }
        }
    }
}

/// The merge score of a line is non-negative, and each merge consumes
/// two cells and earns at most the bonus of the largest post-merge
/// rank.
pub proof fn lemma_merged_bonus_score_bound(s: Seq<u8>)
    ensures
        0 <= merged_bonus_score(s) <= 154 * s.len(),
    decreases s.len(),
{
    if s.len() <= 1 {
    } else if s[0] == s[1] {
        lemma_merged_bonus_score_bound(s.skip(2));
        assert(6 * (s[0] + 1) + 2 <= 1538);
        vstd::arithmetic::div_mod::lemma_div_is_ordered(6 * (s[0] + 1) + 2, 1538, 5);
        assert(merge_bonus(s[0] + 1) >= 0);
    } else {
        lemma_merged_bonus_score_bound(s.skip(1));
    }
}

/// The merge score of one 4-cell line is non-negative and at most 616.
pub proof fn lemma_line_score_bound(l: Seq<u8>)
    requires
        l.len() == 4,
    ensures
        0 <= line_score(l) <= 616,
{
    lemma_nonzeros_len(l);
    lemma_merged_bonus_score_bound(nonzeros(l));
}

/// Merging raises no rank by more than one.
pub proof fn lemma_merged_ranks_le(s: Seq<u8>, k: int)
    requires
        0 <= k <= 254,
        forall|i: int| 0 <= i < s.len() ==> s[i] <= k,
    ensures
        forall|i: int| 0 <= i < merged_ranks(s).len() ==> merged_ranks(s)[i] <= k + 1,
    decreases s.len(),
{
    if s.len() <= 1 {
    } else if s[0] == s[1] {
        assert(forall|i: int| 0 <= i < s.skip(2).len() ==> s.skip(2)[i] == s[i + 2]);
        lemma_merged_ranks_le(s.skip(2), k);
        assert forall|i: int|
            0 <= i < merged_ranks(s).len() implies #[trigger] merged_ranks(s)[i] <= k + 1 by {
            if i == 0 {
                assert(merged_ranks(s)[0] == (s[0] + 1) as u8);
            } else {
                assert(merged_ranks(s)[i] == merged_ranks(s.skip(2))[i - 1]);
            }
        }
    } else {
        assert(forall|i: int| 0 <= i < s.skip(1).len() ==> s.skip(1)[i] == s[i + 1]);
        lemma_merged_ranks_le(s.skip(1), k);
        assert forall|i: int|
            0 <= i < merged_ranks(s).len() implies #[trigger] merged_ranks(s)[i] <= k + 1 by {
            if i == 0 {
                assert(merged_ranks(s)[0] == s[0]);
            } else {
                assert(merged_ranks(s)[i] == merged_ranks(s.skip(1))[i - 1]);
            }
        }
    }
}

/// A shift keeps the line's length and raises no rank by more than one.
pub proof fn lemma_shifted_line_le(l: Seq<u8>, k: int)
    requires
        0 <= k <= 254,
        forall|i: int| 0 <= i < l.len() ==> l[i] <= k,
    ensures
        shifted_line(l).len() == l.len(),
        forall|i: int| 0 <= i < shifted_line(l).len() ==> shifted_line(l)[i] <= k + 1,
{
    lemma_nonzeros_elems(l, k);
    lemma_merged_ranks_le(nonzeros(l), k);
}

/// Every occupied cell of the line lies before every empty cell, and no
/// two neighbouring occupied cells hold equal ranks: nothing can slide
/// and nothing can merge.
pub open spec fn line_settled(l: Seq<u8>) -> bool {
    &&& forall|i: int| 0 <= i < l.len() - 1 ==> (((#[trigger] l[i]) == 0) ==> l[i + 1] == 0)
    &&& forall|i: int| 0 <= i < l.len() - 1 ==> (((#[trigger] l[i]) != 0) ==> l[i] != l[i + 1])
}

/// A line of empty cells has no occupied cells.
proof fn lemma_nonzeros_all_zero(l: Seq<u8>)
    requires
        forall|i: int| 0 <= i < l.len() ==> l[i] == 0,
    ensures
        nonzeros(l) == Seq::<u8>::empty(),
    decreases l.len(),
{
    if l.len() > 0 {
        assert(forall|i: int| 0 <= i < l.skip(1).len() ==> l.skip(1)[i] == l[i + 1]);
        lemma_nonzeros_all_zero(l.skip(1));
    }
}

/// Once a settled line reaches an empty cell, only empty cells follow.
proof fn lemma_settled_zero_tail(l: Seq<u8>)
    requires
        line_settled(l),
        l.len() > 0,
        l[0] == 0,
    ensures
        forall|i: int| 0 <= i < l.len() ==> l[i] == 0,
    decreases l.len(),
{
    if l.len() > 1 {
        assert(forall|i: int| 0 <= i < l.skip(1).len() ==> l.skip(1)[i] == l[i + 1]);
        assert(line_settled(l.skip(1)));
        assert(l.skip(1)[0] == 0);
        lemma_settled_zero_tail(l.skip(1));
        assert forall|i: int| 0 <= i < l.len() implies l[i] == 0 by {
            if i > 0 {
                assert(l.skip(1)[i - 1] == 0);
            }
        }
    }
}

/// Merging changes nothing on a line whose neighbouring ranks all
/// differ.
proof fn lemma_merged_no_adjacent(s: Seq<u8>)
    requires
        forall|i: int| 0 <= i < s.len() - 1 ==> (#[trigger] s[i]) != s[i + 1],
    ensures
        merged_ranks(s) == s,
        merged_bonus_score(s) == 0,
    decreases s.len(),
{
    if s.len() > 1 {
        assert(forall|i: int| 0 <= i < s.skip(1).len() ==> s.skip(1)[i] == s[i + 1]);
        lemma_merged_no_adjacent(s.skip(1));
        assert(merged_ranks(s) =~= s);
    }
}

/// The occupied cells of a settled line are exactly its leading cells.
#[verifier::rlimit(100)]
proof fn lemma_settled_nonzeros_prefix(l: Seq<u8>)
    requires
        line_settled(l),
    ensures
        nonzeros(l).len() <= l.len(),
        nonzeros(l) == l.take(nonzeros(l).len() as int),
        forall|i: int| nonzeros(l).len() <= i < l.len() ==> l[i] == 0,
    decreases l.len(),
{
    lemma_nonzeros_len(l);
    if l.len() == 0 {
        assert(nonzeros(l) =~= l.take(0));
    } else if l[0] == 0 {
        lemma_settled_zero_tail(l);
        lemma_nonzeros_all_zero(l);
        assert(nonzeros(l) =~= l.take(0));
    } else {
        assert(forall|i: int| 0 <= i < l.skip(1).len() ==> l.skip(1)[i] == l[i + 1]);
        assert(line_settled(l.skip(1)));
        lemma_settled_nonzeros_prefix(l.skip(1));
        let m = nonzeros(l.skip(1)).len() as int;
        assert(nonzeros(l) == seq![l[0]] + nonzeros(l.skip(1)));
        assert(nonzeros(l) =~= l.take(m + 1));
        assert forall|i: int| nonzeros(l).len() <= i < l.len() implies l[i] == 0 by {
            assert(l.skip(1)[i - 1] == 0);
        }
    }
}

/// Merged ranks of occupied cells are occupied.
proof fn lemma_merged_ranks_pos(s: Seq<u8>)
    requires
        forall|i: int| 0 <= i < s.len() ==> (0 < (#[trigger] s[i]) && s[i] < 255),
    ensures
        forall|i: int| 0 <= i < merged_ranks(s).len() ==> #[trigger] merged_ranks(s)[i] != 0,
    decreases s.len(),
{
    if s.len() <= 1 {
    } else if s[0] == s[1] {
        assert(forall|i: int| 0 <= i < s.skip(2).len() ==> s.skip(2)[i] == s[i + 2]);
        lemma_merged_ranks_pos(s.skip(2));
        assert forall|i: int|
            0 <= i < merged_ranks(s).len() implies #[trigger] merged_ranks(s)[i] != 0 by {
            if i == 0 {
                assert(merged_ranks(s)[0] == (s[0] + 1) as u8);
            } else {
                assert(merged_ranks(s)[i] == merged_ranks(s.skip(2))[i - 1]);
            }
        }
    } else {
        assert(forall|i: int| 0 <= i < s.skip(1).len() ==> s.skip(1)[i] == s[i + 1]);
        lemma_merged_ranks_pos(s.skip(1));
        assert forall|i: int|
            0 <= i < merged_ranks(s).len() implies #[trigger] merged_ranks(s)[i] != 0 by {
            if i == 0 {
                assert(merged_ranks(s)[0] == s[0]);
            } else {
                assert(merged_ranks(s)[i] == merged_ranks(s.skip(1))[i - 1]);
            }
        }
    }
}

/// A settled line is a fixed point of the shift primitive: shifting it
/// moves nothing and earns no merge score.
pub proof fn lemma_shift_fixed_point(l: Seq<u8>)
    requires
        line_settled(l),
    ensures
        shifted_line(l) == l,
        line_score(l) == 0,
{
    lemma_settled_nonzeros_prefix(l);
    lemma_nonzeros_elems(l, 255);
    let nz = nonzeros(l);
    assert forall|i: int| 0 <= i < nz.len() - 1 implies (#[trigger] nz[i]) != nz[i + 1] by {
        assert(nz[i] == l[i] && nz[i + 1] == l[i + 1]);
        assert(nz[i] != 0);
    }
    lemma_merged_no_adjacent(nz);
    assert(shifted_line(l) =~= l);
}

/// Shifting twice in succession produces the same result as shifting
/// once, whenever the first shift leaves no two equal neighbouring
/// occupied cells: the compacted, merged line is then a fixed point of
/// the shift primitive. A line whose single shift still leaves two
/// equal neighbouring ranks merges them only on the next shift.
pub proof fn lemma_shift_idempotent(l: Seq<u8>)
    requires
        forall|i: int| 0 <= i < l.len() ==> l[i] < 255,
        forall|i: int|
            0 <= i < l.len() - 1 ==> (((#[trigger] shifted_line(l)[i]) != 0 ==> shifted_line(l)[i]
                != shifted_line(l)[i + 1])),
    ensures
        shifted_line(shifted_line(l)) == shifted_line(l),
        line_score(shifted_line(l)) == 0,
{
    lemma_nonzeros_elems(l, 254);
    lemma_nonzeros_len(l);
    lemma_merged_ranks_pos(nonzeros(l));
    let s = shifted_line(l);
    let m = merged_ranks(nonzeros(l));
    assert forall|i: int| 0 <= i < s.len() - 1 && (#[trigger] s[i]) == 0 implies s[i + 1] == 0 by {
        assert(i >= m.len());
    }
    assert(line_settled(s));
    lemma_shift_fixed_point(s);
}

/// Reverse a line and return the result as a copy.
pub fn reversed_line(line: &Line) -> (r: Line)
    ensures
        r@ == line@.reverse(),
{
    let r: Line = [line[3], line[2], line[1], line[0]];
    proof {
        assert(r@ =~= line@.reverse());
    }
    r
}

/// Clone a line.
pub fn clone_line(line: &Line) -> (r: Line)
    ensures
        r@ == line@,
{
    let r: Line = [line[0], line[1], line[2], line[3]];
    proof {
        assert(r@ =~= line@);
    }
    r
}

/// Shift a line towards lower indices, merging adjacent equal ranks, and
/// return the merge score obtained by this move.
pub fn shift_line(line: &mut Line) -> (score: Score)
    requires
        forall|i: int| 0 <= i < 4 ==> old(line)@[i] < 255,
    ensures
        final(line)@ == shifted_line(old(line)@),
        score == line_score(old(line)@),
        score >= 0,
{
    let ghost l: Seq<u8> = line@;
    let mut out: Line = [0, 0, 0, 0];
    let mut k: usize = 0;
    let mut pending: u8 = 0;
    let mut score: i64 = 0;
    let mut j: usize = 0;
    proof {
        assert(l.skip(0) =~= l);
        assert(out@.take(0) =~= Seq::<u8>::empty());
        assert(pend_seq(0u8) + nonzeros(l) =~= nonzeros(l));
        assert(Seq::<u8>::empty() + merged_ranks(nonzeros(l)) =~= merged_ranks(nonzeros(l)));
    }
    while j < 4
        invariant
            j <= 4,
            line@ == l,
            l.len() == 4,
            forall|i: int| 0 <= i < 4 ==> l[i] < 255,
            k + (if pending == 0 { 0int } else { 1int }) <= j,
            pending < 255,
            forall|t: int| k <= t < 4 ==> out@[t] == 0,
            merged_ranks(nonzeros(l)) == out@.take(k as int) + merged_ranks(
                pend_seq(pending) + nonzeros(l.skip(j as int)),
            ),
            merged_bonus_score(nonzeros(l)) == score + merged_bonus_score(
                pend_seq(pending) + nonzeros(l.skip(j as int)),
            ),
            0 <= score <= 307 * k,
        decreases 4 - j,
    {
        let v = line[j];
        proof {
            assert(l.skip(j as int)[0] == l[j as int]);
            assert(l.skip(j as int).skip(1) =~= l.skip(j as int + 1));
        }
        if v != 0 {
            let ghost f_next = nonzeros(l.skip(j as int + 1));
            proof {
                assert(nonzeros(l.skip(j as int)) =~= seq![v] + f_next);
            }
            if pending == v {
                let ghost out0 = out@;
                let ghost k0 = k as int;
                proof {
                    let s = pend_seq(pending) + nonzeros(l.skip(j as int));
                    assert(s =~= seq![v, v] + f_next);
                    assert(s[0] == s[1]);
                    assert(s.skip(2) =~= f_next);
                    assert(merged_ranks(s) == seq![(v + 1) as u8] + merged_ranks(f_next));
                    assert(merged_bonus_score(s) == merge_bonus(v + 1) + merged_bonus_score(f_next));
                    assert(6 * (v + 1) + 2 <= 1538);
                    vstd::arithmetic::div_mod::lemma_div_is_ordered(6 * (v + 1) + 2, 1538, 5);
                }
                out[k] = v + 1;
                score = score + (6 * ((v as i64) + 1) + 2) / 5;
                k = k + 1;
                pending = 0;
                proof {
                    assert(out@.take(k as int) =~= out0.take(k0) + seq![(v + 1) as u8]);
                    assert(pend_seq(0u8) + f_next =~= f_next);
                    assert(out0.take(k0) + (seq![(v + 1) as u8] + merged_ranks(f_next)) =~= (
                    out0.take(k0) + seq![(v + 1) as u8]) + merged_ranks(f_next));
                }
            } else if pending != 0 {
                let ghost out0 = out@;
                let ghost k0 = k as int;
                let p = pending;
                proof {
                    let s = pend_seq(pending) + nonzeros(l.skip(j as int));
                    assert(s =~= seq![p, v] + f_next);
                    assert(s[0] != s[1]);
                    assert(s.skip(1) =~= seq![v] + f_next);
                    assert(merged_ranks(s) == seq![p] + merged_ranks(seq![v] + f_next));
                    assert(merged_bonus_score(s) == merged_bonus_score(seq![v] + f_next));
                }
                out[k] = p;
                k = k + 1;
                pending = v;
                proof {
                    assert(out@.take(k as int) =~= out0.take(k0) + seq![p]);
                    assert(pend_seq(v) + f_next =~= seq![v] + f_next);
                    assert(out0.take(k0) + (seq![p] + merged_ranks(seq![v] + f_next)) =~= (out0.take(
                        k0,
                    ) + seq![p]) + merged_ranks(seq![v] + f_next));
                }
            } else {
                pending = v;
                proof {
                    assert(pend_seq(0u8) + nonzeros(l.skip(j as int)) =~= seq![v] + f_next);
                    assert(pend_seq(v) + f_next =~= seq![v] + f_next);
                }
            }
        } else {
            proof {
                assert(nonzeros(l.skip(j as int)) == nonzeros(l.skip(j as int + 1)));
            }
        }
        j = j + 1;
    }
    proof {
        assert(l.skip(4) =~= Seq::<u8>::empty());
        assert(pend_seq(pending) + nonzeros(l.skip(4)) =~= pend_seq(pending));
        assert(merged_ranks(pend_seq(pending)) == pend_seq(pending));
        assert(merged_bonus_score(pend_seq(pending)) == 0);
    }
    if pending != 0 {
        let ghost out0 = out@;
        let ghost k0 = k as int;
        out[k] = pending;
        proof {
            assert(out@.take(k0 + 1) =~= out0.take(k0) + seq![pending]);
        }
        k = k + 1;
    }
    proof {
        assert(merged_ranks(nonzeros(l)) =~= out@.take(k as int));
    }
    *line = out;
    proof {
        assert(line@ =~= shifted_line(l));
    }
    score
}

} // verus!

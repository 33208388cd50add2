//! The empty-cell enumerator: the ordered sequence of empty coordinates
//! of a board, visited row by row with the column varying fastest; the
//! search samples its chance-node children from this sequence.

use vstd::prelude::*;

use crate::board::Board;

verus! {

use vstd::arithmetic::div_mod::{lemma_fundamental_div_mod, lemma_fundamental_div_mod_converse};

/// The row-major position of a coordinate: the column varies fastest.
pub open spec fn flat(p: (usize, usize)) -> int {
    p.1 * 4 + p.0
}

/// The coordinate at row-major position `k`.
pub open spec fn coord(k: int) -> (usize, usize) {
    ((k % 4) as usize, (k / 4) as usize)
}

/// The rank at row-major position `k`.
pub open spec fn cell_at(b: Board, k: int) -> u8 {
    b.cell(coord(k).0 as int, coord(k).1 as int)
}

/// A coordinate within the board maps back to itself through its
/// row-major position.
pub proof fn lemma_coord_flat(p: (usize, usize))
    requires
        p.0 < 4,
        p.1 < 4,
    ensures
        coord(flat(p)) == p,
        0 <= flat(p) < 16,
{
    lemma_fundamental_div_mod_converse(flat(p), 4, p.1 as int, p.0 as int);
}

/// The empty coordinates among the first `k` row-major positions, in
/// order.
pub open spec fn empties_upto(b: Board, k: int) -> Seq<(usize, usize)>
    decreases k,
{
    if k <= 0 {
        Seq::empty()
    } else if cell_at(b, k - 1) == 0 {
        empties_upto(b, k - 1).push(coord(k - 1))
    } else {
        empties_upto(b, k - 1)
    }
}

/// The ordered sequence of all empty coordinates of the board.
pub open spec fn empties(b: Board) -> Seq<(usize, usize)> {
    empties_upto(b, 16)
}

/// Extending the scan over positions that hold a tile adds no
/// coordinate.
pub proof fn lemma_empties_upto_stable(b: Board, lo: int, hi: int)
    requires
        0 <= lo <= hi,
        forall|k: int| lo <= k < hi ==> cell_at(b, k) != 0,
    ensures
        empties_upto(b, hi) == empties_upto(b, lo),
    decreases hi - lo,
{
    if lo < hi {
        lemma_empties_upto_stable(b, lo, hi - 1);
    }
}

/// The enumeration visits every empty cell exactly once, in row-major
/// order, and no occupied cell: its entries lie on the board, are empty,
/// appear in strictly increasing row-major position (so none repeats),
/// and every empty coordinate of the scanned range appears.
pub proof fn lemma_empties_upto_props(b: Board, k: int)
    requires
        0 <= k <= 16,
    ensures
        empties_upto(b, k).len() <= k,
        forall|i: int|
            0 <= i < empties_upto(b, k).len() ==> {
                let p = #[trigger] empties_upto(b, k)[i];
                p.0 < 4 && p.1 < 4 && cell_at(b, flat(p)) == 0 && 0 <= flat(p) < k
            },
        forall|i: int, j: int|
            0 <= i < j < empties_upto(b, k).len() ==> flat(empties_upto(b, k)[i]) < flat(
                empties_upto(b, k)[j],
            ),
        forall|p: (usize, usize)|
            p.0 < 4 && p.1 < 4 && flat(p) < k && cell_at(b, flat(p)) == 0
                ==> #[trigger] empties_upto(b, k).contains(p),
    decreases k,
{
    if k > 0 {
        lemma_empties_upto_props(b, k - 1);
        let s0 = empties_upto(b, k - 1);
        let s = empties_upto(b, k);
        lemma_fundamental_div_mod(k - 1, 4);
        let q = coord(k - 1);
        assert(q.0 < 4 && q.1 < 4 && flat(q) == k - 1);
        if cell_at(b, k - 1) == 0 {
            assert(s == s0.push(q));
            assert forall|i: int|
                0 <= i < s.len() implies {
                let p = #[trigger] s[i];
                p.0 < 4 && p.1 < 4 && cell_at(b, flat(p)) == 0 && 0 <= flat(p) < k
            } by {
                if i < s0.len() {
                    assert(s[i] == s0[i]);
                } else {
                    assert(s[i] == q);
                }
            }
            assert forall|p: (usize, usize)|
                p.0 < 4 && p.1 < 4 && flat(p) < k && cell_at(b, flat(p)) == 0 implies #[trigger] s
                .contains(p) by {
                lemma_coord_flat(p);
                if flat(p) == k - 1 {
                    assert(p == q);
                    assert(s[s.len() - 1] == p);
                } else {
                    assert(s0.contains(p));
                    let i = choose|i: int| 0 <= i < s0.len() && s0[i] == p;
                    assert(s[i] == p);
                }
            }
        } else {
            assert(s == s0);
            assert forall|p: (usize, usize)|
                p.0 < 4 && p.1 < 4 && flat(p) < k && cell_at(b, flat(p)) == 0 implies #[trigger] s
                .contains(p) by {
                lemma_coord_flat(p);
                if flat(p) == k - 1 {
                    assert(cell_at(b, flat(p)) != 0);
                } else {
                    assert(s0.contains(p));
                }
            }
        }
    }
}

/// No coordinate repeats in the enumeration: the row-major positions of
/// its entries strictly increase.
pub proof fn lemma_empties_no_duplicates(b: Board)
    ensures
        empties(b).no_duplicates(),
{
    lemma_empties_upto_props(b, 16);
    let s = empties(b);
    assert forall|i: int, j: int|
        0 <= i < s.len() && 0 <= j < s.len() && i != j implies s[i] != s[j] by {
        if i < j {
            assert(flat(s[i]) < flat(s[j]));
        } else {
            assert(flat(s[j]) < flat(s[i]));
        }
    }
}

/// An iterator over the empty coordinates of a board, visiting column
/// 0..3 within row 0, then row 1, and so on; `last` remembers the most
/// recently visited position.
pub struct OptionsIterator<'a> {
    pub board: &'a Board,
    pub last: Option<(usize, usize)>,
}

/// The row-major position at which the iterator's scan resumes.
pub open spec fn cursor(last: Option<(usize, usize)>) -> int {
    match last {
        Option::None => 0,
        Option::Some(p) => flat(p) + 1,
    }
}

impl<'a> OptionsIterator<'a> {
    /// The remembered position lies on the board.
    pub open spec fn wf(self) -> bool {
        match self.last {
            Option::None => true,
            Option::Some(p) => p.0 < 4 && p.1 < 4,
        }
    }

    /// A fresh enumeration of the empty cells of `board`.
    pub fn new(board: &'a Board) -> (it: OptionsIterator<'a>)
        ensures
            it.board == board,
            it.last is None,
            it.wf(),
    {
        OptionsIterator { board, last: None }
    }

    /// The next empty coordinate at or after the scan position, or
    /// `None` when only occupied cells remain; the scan position then
    /// rests past the last cell, so every later call returns `None`
    /// again.
    pub fn next(&mut self) -> (r: Option<(usize, usize)>)
        requires
            old(self).wf(),
        ensures
            final(self).wf(),
            final(self).board == old(self).board,
            match r {
                Option::Some(p) => {
                    &&& p.0 < 4 && p.1 < 4
                    &&& cursor(old(self).last) <= flat(p) < 16
                    &&& cell_at(*old(self).board, flat(p)) == 0
                    &&& forall|k: int|
                        cursor(old(self).last) <= k < flat(p) ==> cell_at(*old(self).board, k) != 0
                    &&& final(self).last == Option::Some(p)
                },
                Option::None => {
                    &&& forall|k: int|
                        cursor(old(self).last) <= k < 16 ==> cell_at(*old(self).board, k) != 0
                    &&& cursor(final(self).last) == 16
                },
            },
    {
        loop
            invariant
                self.wf(),
                self.board == old(self).board,
                old(self).wf(),
                cursor(old(self).last) <= cursor(self.last) <= 16,
                forall|k: int|
                    cursor(old(self).last) <= k < cursor(self.last) ==> cell_at(
                        *old(self).board,
                        k,
                    ) != 0,
            decreases 16 - cursor(self.last),
        {
            let (nextx, nexty): (usize, usize) = match self.last {
                Option::None => (0, 0),
                Option::Some((x, y)) => {
                    if x == 3 {
                        if y < 3 {
                            (0, y + 1)
                        } else {
                            proof {
                                assert(y == 3);
                                assert(cursor(self.last) == 16);
                            }
                            return Option::None;
                        }
                    } else {
                        (x + 1, y)
                    }
                },
            };
            proof {
                assert(flat((nextx, nexty)) == cursor(self.last));
                lemma_coord_flat((nextx, nexty));
            }
            self.last = Option::Some((nextx, nexty));
            if self.board.cols[nextx][nexty] != 0 {
                proof {
                    assert(cell_at(*old(self).board, flat((nextx, nexty))) != 0);
                }
            } else {
                return Option::Some((nextx, nexty));
            }
        }
    }
}

/// All empty coordinates of the board, in row-major order.
pub fn collect_options(board: &Board) -> (v: Vec<(usize, usize)>)
    ensures
        v@ == empties(*board),
{
    let mut it = OptionsIterator::new(board);
    let mut v: Vec<(usize, usize)> = Vec::new();
    proof {
        assert(v@ =~= empties_upto(*board, 0));
    }
    loop
        invariant
            it.wf(),
            it.board == board,
            0 <= cursor(it.last) <= 16,
            v@ == empties_upto(*board, cursor(it.last)),
        decreases 16 - cursor(it.last),
    {
        let ghost c0 = cursor(it.last);
        match it.next() {
            Option::Some(p) => {
                proof {
                    lemma_empties_upto_stable(*board, c0, flat(p));
                    lemma_coord_flat(p);
                    assert(empties_upto(*board, flat(p) + 1) == empties_upto(*board, flat(p)).push(
                        p,
                    ));
                }
                v.push(p);
            },
            Option::None => {
                proof {
                    lemma_empties_upto_stable(*board, c0, 16);
                }
                return v;
            },
        }
    }
}

} // verus!

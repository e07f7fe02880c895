//! Nearest-neighbour search over the rows of a descriptor matrix.
//!
//! The index keeps a copy of every row. A query names a row and a range of
//! rows that may not answer; the answer is the nearest of the other rows, if
//! it is near enough. Of several rows at the same distance the one with the
//! lowest number is the nearest.

use vstd::prelude::*;
use crate::distance::{distance, hamming_within};
use crate::matrix::DescriptorMatrix;

verus! {

/// Row `t` may answer a query that masks the rows from `start` up to, not
/// including, `end`.
pub open spec fn candidate(rows: Seq<Seq<u8>>, start: int, end: int, t: int) -> bool {
    0 <= t < rows.len() && !(start <= t < end)
}

/// For row `r`, row `t` is at least as good an answer as row `u`: nearer, or
/// as near and not after it.
pub open spec fn preferred(rows: Seq<Seq<u8>>, r: int, t: int, u: int) -> bool {
    distance(rows[r], rows[t]) < distance(rows[r], rows[u]) || (distance(rows[r], rows[t])
        == distance(rows[r], rows[u]) && t <= u)
}

/// Row `t` is the answer to the query for row `r`: unmasked, within the
/// limit, and preferred to every other unmasked row.
pub open spec fn is_best_match(
    rows: Seq<Seq<u8>>,
    r: int,
    start: int,
    end: int,
    limit: u32,
    t: int,
) -> bool {
    &&& candidate(rows, start, end, t)
    &&& distance(rows[r], rows[t]) <= limit
    &&& forall|u: int| #[trigger] candidate(rows, start, end, u) ==> preferred(rows, r, t, u)
}

/// The answer to the query for row `r`, if there is one.
pub open spec fn best_match(rows: Seq<Seq<u8>>, r: int, start: int, end: int, limit: u32) -> Option<
    int,
> {
    if exists|t: int| is_best_match(rows, r, start, end, limit, t) {
        Some(choose|t: int| is_best_match(rows, r, start, end, limit, t))
    } else {
        None
    }
}

/// A query has one answer at most.
pub proof fn lemma_best_match_unique(
    rows: Seq<Seq<u8>>,
    r: int,
    start: int,
    end: int,
    limit: u32,
    t: int,
    u: int,
)
    requires
        is_best_match(rows, r, start, end, limit, t),
        is_best_match(rows, r, start, end, limit, u),
    ensures
        t == u,
{
    assert(candidate(rows, start, end, t));
    assert(candidate(rows, start, end, u));
}

/// No row is matched to a row of the masked range, so none to itself or to
/// another row of its own frame.
pub proof fn lemma_no_self_match(rows: Seq<Seq<u8>>, r: int, start: int, end: int, limit: u32)
    ensures
        best_match(rows, r, start, end, limit) matches Some(t) ==> 0 <= t < rows.len() && !(start
            <= t < end) && (start <= r < end ==> t != r) && distance(rows[r], rows[t]) <= limit,
{
}

/// When every row is masked, no row is matched.
pub proof fn lemma_all_masked(rows: Seq<Seq<u8>>, r: int, start: int, end: int, limit: u32)
    requires
        start <= 0,
        rows.len() <= end,
    ensures
        best_match(rows, r, start, end, limit) is None,
{
}

/// A copy of the rows of a descriptor matrix, ready for queries.
#[derive(Debug)]
pub struct SearchIndex {
    rows: Vec<Vec<u8>>,
    width: usize,
}

impl View for SearchIndex {
    type V = Seq<Seq<u8>>;

    closed spec fn view(&self) -> Seq<Seq<u8>> {
        Seq::new(self.rows@.len(), |i: int| self.rows@[i]@)
    }
}

impl SearchIndex {
    /// The length of a row.
    pub closed spec fn spec_width(&self) -> nat {
        self.width as nat
    }

    /// All rows have the length of a row.
    pub open spec fn wf(&self) -> bool {
        forall|i: int| 0 <= i < self@.len() ==> (#[trigger] self@[i]).len() == self.spec_width()
    }

    /// Builds the index over all rows of `matrix`.
    pub fn build(matrix: &DescriptorMatrix) -> (index: SearchIndex)
        ensures
            index@ == matrix@.rows,
            index.spec_width() == matrix@.width,
            index.wf(),
            matrix@.rectangular(),
    {
        let count: usize = matrix.nrows();
        let width: usize = matrix.ncols();
        let mut rows: Vec<Vec<u8>> = Vec::new();
        let mut r: usize = 0;
        while r < count
            invariant
                r <= count,
                count == matrix@.rows.len(),
                rows@.len() == r,
                forall|i: int| 0 <= i < r ==> (#[trigger] rows@[i])@ == matrix@.rows[i],
            decreases count - r,
        {
            match matrix.row(r) {
                Some(cells) => {
                    rows.push(cells);
                },
                None => {
                    vstd::pervasive::unreached::<()>();
                },
            }
            r += 1;
        }
        let index = SearchIndex { rows, width };
        assert(index@ =~= matrix@.rows);
        index
    }

    /// The length of a row.
    pub fn width(&self) -> (n: usize)
        ensures
            n == self.spec_width(),
    {
        self.width
    }

    /// The number of rows.
    pub fn len(&self) -> (n: usize)
        ensures
            n == self@.len(),
    {
        self.rows.len()
    }

    /// The nearest row to `row` outside the rows from `start` up to, not
    /// including, `end`, if its distance is at most `limit`. Among rows at
    /// the same distance the first wins.
    pub fn best_match(&self, row: usize, start: usize, end: usize, limit: u32) -> (found: Option<
        usize,
    >)
        requires
            self.wf(),
            row < self@.len(),
        ensures
            match found {
                Some(t) => best_match(self@, row as int, start as int, end as int, limit) == Some(
                    t as int,
                ),
                None => best_match(self@, row as int, start as int, end as int, limit) is None,
            },
    {
        let count: usize = self.rows.len();
        let mut best: Option<(usize, u32)> = None;
        let mut t: usize = 0;
        while t < count
            invariant
                t <= count,
                count == self@.len(),
                self.wf(),
                row < self@.len(),
                match best {
                    Some((bt, bd)) => {
                        &&& bt < t
                        &&& candidate(self@, start as int, end as int, bt as int)
                        &&& bd == distance(self@[row as int], self@[bt as int])
                        &&& bd <= limit
                        &&& forall|u: int|
                            0 <= u < t && #[trigger] candidate(self@, start as int, end as int, u)
                                ==> preferred(self@, row as int, bt as int, u)
                    },
                    None => forall|u: int|
                        0 <= u < t && #[trigger] candidate(self@, start as int, end as int, u)
                            ==> distance(self@[row as int], self@[u]) > limit,
                },
            decreases count - t,
        {
            if !(start <= t && t < end) {
                assert(self@[row as int] == self.rows@[row as int]@);
                assert(self@[t as int] == self.rows@[t as int]@);
                let d = hamming_within(self.rows[row].as_slice(), self.rows[t].as_slice(), limit);
                match d {
                    Some(dt) => {
                        match best {
                            Some((bt, bd)) => {
                                if dt < bd {
                                    best = Some((t, dt));
                                }
                            },
                            None => {
                                best = Some((t, dt));
                            },
                        }
                    },
                    None => {},
                }
            }
            t += 1;
        }
        match best {
            Some((bt, bd)) => {
                proof {
                    assert(is_best_match(
                        self@,
                        row as int,
                        start as int,
                        end as int,
                        limit,
                        bt as int,
                    ));
                    let c = choose|c: int|
                        is_best_match(self@, row as int, start as int, end as int, limit, c);
                    lemma_best_match_unique(
                        self@,
                        row as int,
                        start as int,
                        end as int,
                        limit,
                        bt as int,
                        c,
                    );
                }
                Some(bt)
            },
            None => None,
        }
    }
}

} // verus!

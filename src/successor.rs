use vstd::prelude::*;
use crate::board::{in_bounds, NQueens};

verus! {

/// The row taken by the `k`-th move of a queen that stands on row `o`: the rows other than
/// `o`, in ascending order.
pub open spec fn moved_row(o: usize, k: int) -> int {
    if k < o {
        k
    } else {
        k + 1
    }
}

/// The successors that move the queen of column `c`, its other rows in ascending order;
/// none when the column is empty.
pub open spec fn column_successors(q: Seq<Option<usize>>, c: int) -> Seq<Seq<Option<usize>>> {
    match q[c] {
        None => Seq::empty(),
        Some(o) => Seq::new(
            (q.len() - 1) as nat,
            |k: int| q.update(c, Some(moved_row(o, k) as usize)),
        ),
    }
}

/// The successors that move a queen of column `c` or of a later column, by column.
pub open spec fn successors_from(q: Seq<Option<usize>>, c: int) -> Seq<Seq<Option<usize>>>
    decreases q.len() - c,
{
    if c < 0 || c >= q.len() {
        Seq::empty()
    } else {
        column_successors(q, c) + successors_from(q, c + 1)
    }
}

/// Every board that moves one queen of `q` to another row of its column, grouped by column
/// in ascending order and, within a column, by row in ascending order.
pub open spec fn successors(q: Seq<Option<usize>>) -> Seq<Seq<Option<usize>>> {
    successors_from(q, 0)
}

/// The number of occupied columns among `c..`.
pub open spec fn occupied_from(q: Seq<Option<usize>>, c: int) -> nat
    decreases q.len() - c,
{
    if c < 0 || c >= q.len() {
        0
    } else {
        (if q[c] is Some { 1nat } else { 0nat }) + occupied_from(q, c + 1)
    }
}

/// The number of occupied columns of `q`.
pub open spec fn occupied(q: Seq<Option<usize>>) -> nat {
    occupied_from(q, 0)
}

/// The first row that a column may take after `col`, other than `orig`: the smallest row
/// `k < size`, not below `col + 1` (or `0` when `col` is `None`), with `k != orig`.
pub open spec fn next_row_spec(col: Option<usize>, orig: Option<usize>, size: usize) -> Option<usize> {
    match orig {
        None => None,
        Some(o) => {
            let start: int = match col {
                None => 0,
                Some(x) => x + 1,
            };
            let k: int = if start == o { start + 1 } else { start };
            if k < size {
                Some(k as usize)
            } else {
                None
            }
        },
    }
}

proof fn lemma_successors_from_len(q: Seq<Option<usize>>, c: int)
    requires
        0 <= c <= q.len(),
    ensures
        successors_from(q, c).len() == occupied_from(q, c) * (q.len() - 1),
    decreases q.len() - c,
{
    if c < q.len() {
        lemma_successors_from_len(q, c + 1);
        let m = (q.len() - 1) as int;
        let k = occupied_from(q, c + 1) as int;
        let b: int = if q[c] is Some { 1 } else { 0 };
        assert(column_successors(q, c).len() == b * m);
        assert(successors_from(q, c) == column_successors(q, c) + successors_from(q, c + 1));
        assert(occupied_from(q, c) == b + k);
        assert((b + k) * m == b * m + k * m) by (nonlinear_arith);
        assert(successors_from(q, c).len() == (b + k) * m);
    } else {
        assert(successors_from(q, c).len() == 0);
        assert(occupied_from(q, c) == 0);
        assert(0 * (q.len() - 1) == 0) by (nonlinear_arith);
    }
}

/// A board of size `n` with `k` occupied columns has exactly `k * (n - 1)` successors;
/// none when no column is occupied.
pub proof fn lemma_successor_count(q: Seq<Option<usize>>)
    ensures
        successors(q).len() == occupied(q) * (q.len() - 1),
        occupied(q) == 0 ==> successors(q).len() == 0,
{
    lemma_successors_from_len(q, 0);
    if occupied(q) == 0 {
        assert(0 * (q.len() - 1) == 0) by (nonlinear_arith);
    }
}

proof fn lemma_successors_from_elements(q: Seq<Option<usize>>, c: int)
    requires
        0 <= c <= q.len(),
        q.len() <= usize::MAX,
        in_bounds(q),
    ensures
        forall|k: int|
            0 <= k < successors_from(q, c).len() ==> {
                let s = #[trigger] successors_from(q, c)[k];
                &&& in_bounds(s)
                &&& s.len() == q.len()
                &&& exists|col: int|
                    c <= col < q.len() && q[col] is Some && s[col] is Some && s[col] != q[col]
                        && s == q.update(col, s[col])
            },
    decreases q.len() - c,
{
    if c < q.len() {
        lemma_successors_from_elements(q, c + 1);
        let cs = column_successors(q, c);
        let rest = successors_from(q, c + 1);
        assert forall|k: int| 0 <= k < successors_from(q, c).len() implies {
            let s = #[trigger] successors_from(q, c)[k];
            &&& in_bounds(s)
            &&& s.len() == q.len()
            &&& exists|col: int|
                c <= col < q.len() && q[col] is Some && s[col] is Some && s[col] != q[col] && s
                    == q.update(col, s[col])
        } by {
            if k < cs.len() {
                let o = q[c]->0;
                let s = cs[k];
                assert(successors_from(q, c)[k] == s);
                let x = Some(moved_row(o, k) as usize);
                assert(s == q.update(c, x));
                assert(s[c] == x);
                assert(s[c] != q[c]);
                assert(in_bounds(s));
            } else {
                assert(successors_from(q, c)[k] == rest[k - cs.len()]);
            }
        }
    }
}

/// Each successor of an in-bounds board is in bounds, has its size, and differs from it
/// in exactly one column, one that held a queen and still holds one.
pub proof fn lemma_successor_elements(q: Seq<Option<usize>>)
    requires
        in_bounds(q),
        q.len() <= usize::MAX,
    ensures
        forall|k: int|
            0 <= k < successors(q).len() ==> {
                let s = #[trigger] successors(q)[k];
                &&& in_bounds(s)
                &&& s.len() == q.len()
                &&& exists|col: int|
                    0 <= col < q.len() && q[col] is Some && s[col] is Some && s[col] != q[col]
                        && s == q.update(col, s[col])
            },
{
    lemma_successors_from_elements(q, 0);
}

/// The successors of a board still to be produced, one board after another, given the
/// column reached and the row its working copy holds.
pub open spec fn pending(
    orig: Seq<Option<usize>>,
    c: int,
    cur: Option<usize>,
) -> Seq<Seq<Option<usize>>> {
    if c >= orig.len() {
        Seq::empty()
    } else {
        let done: int = match (cur, orig[c]) {
            (Some(r), Some(o)) => if r < o { r + 1 } else { r as int },
            _ => 0,
        };
        column_successors(orig, c).skip(done) + successors_from(orig, c + 1)
    }
}

/// Produces, one by one, the successors of a board: the boards that move one of its queens
/// to another row of the same column. Empty columns stay empty.
pub struct NQueensSuccessorIter {
    original: NQueens,
    current_config: NQueens,
    current_column: usize,
}

impl NQueensSuccessorIter {
    /// The board whose successors are produced.
    pub closed spec fn original(&self) -> Seq<Option<usize>> {
        self.original@
    }

    /// The successors not produced yet, in the order in which they come.
    pub closed spec fn remaining(&self) -> Seq<Seq<Option<usize>>> {
        let c = self.current_column as int;
        let orig = self.original@;
        if c < orig.len() {
            pending(orig, c, self.current_config@[c])
        } else {
            Seq::empty()
        }
    }

    /// The working copy agrees with the original but in the column being varied, which is
    /// either not started or holds a row other than the original one.
    pub closed spec fn wf(&self) -> bool {
        let orig = self.original@;
        let cur = self.current_config@;
        let c = self.current_column as int;
        &&& self.original.wf()
        &&& self.current_config.wf()
        &&& cur.len() == orig.len()
        &&& 0 <= c <= orig.len()
        &&& forall|j: int| 0 <= j < orig.len() && j != c ==> #[trigger] cur[j] == orig[j]
        &&& c < orig.len() ==> (cur[c] matches Some(r) ==> orig[c] is Some && r != orig[c]->0)
    }

    /// Starts producing the successors of `original`.
    pub fn new(original: &NQueens) -> (r: NQueensSuccessorIter)
        requires
            original.wf(),
        ensures
            r.wf(),
            r.original() == original@,
            r.remaining() == successors(original@),
    {
        let mut current_config = original.clone();
        let current_column: usize = 0;
        if original.size() != 0 {
            current_config.unset(current_column);
        }
        let r = NQueensSuccessorIter {
            original: original.clone(),
            current_config,
            current_column,
        };
        proof {
            if original@.len() > 0 {
                assert(column_successors(original@, 0).skip(0) =~= column_successors(original@, 0));
            }
        }
        r
    }

    /// The next successor, or `None` once all have been produced.
    pub fn next(&mut self) -> (r: Option<NQueens>)
        requires
            old(self).wf(),
        ensures
            final(self).wf(),
            final(self).original() == old(self).original(),
            match r {
                None => old(self).remaining().len() == 0 && final(self).remaining().len() == 0,
                Some(b) => {
                    &&& old(self).remaining().len() > 0
                    &&& b@ == old(self).remaining()[0]
                    &&& b.wf()
                    &&& final(self).remaining() == old(self).remaining().skip(1)
                },
            },
    {
        let n = self.original.size();
        if n <= 1 {
            proof {
                let orig = self.original@;
                let c = self.current_column as int;
                lemma_successor_count(orig);
                if c < orig.len() {
                    lemma_successors_from_len(orig, c + 1);
                    assert((occupied_from(orig, c + 1) * (orig.len() - 1)) == 0) by (nonlinear_arith)
                        requires orig.len() - 1 == 0;
                }
            }
            return None;
        }
        let ghost todo = self.remaining();
        while self.current_column < n
            invariant
                self.wf(),
                n == self.original@.len(),
                n > 1,
                self.original() == old(self).original(),
                self.remaining() == todo,
                todo == old(self).remaining(),
            decreases n - self.current_column,
        {
            let c = self.current_column;
            let current_col = self.current_config.get_option(c);
            let orig_col = self.original.get_option(c);
            let next_col = next_column(current_col, orig_col, n);
            let ghost orig = self.original@;
            let ghost cs = column_successors(orig, c as int);
            if let Some(row) = next_col {
                let ghost done: int = match (current_col, orig_col) {
                    (Some(r), Some(o)) => if r < o { r + 1 } else { r as int },
                    _ => 0,
                };
                let _ = self.current_config.set(c, row);
                proof {
                    let o = orig_col->0;
                    assert(0 <= done < cs.len());
                    assert(row as int == moved_row(o, done));
                    assert(self.current_config@ =~= orig.update(c as int, Some(row)));
                    assert(todo[0] == cs[done]);
                    let nd: int = if row < o { row + 1 } else { row as int };
                    assert(nd == done + 1);
                    assert(cs.skip(nd) + successors_from(orig, c + 1) =~= todo.skip(1));
                }
                return Some(self.current_config.clone());
            } else {
                let _ = self.current_config.set_option(c, orig_col);
                self.current_column = c + 1;
                if self.current_column < n {
                    self.current_config.unset(self.current_column);
                }
                proof {
                    if c + 1 < n {
                        assert(column_successors(orig, c + 1).skip(0) =~= column_successors(orig, c + 1));
                    }
                }
            }
        }
        None
    }
}

impl NQueens {
    /// The successors of this board, produced one by one.
    pub fn successors_iter(&self) -> (r: NQueensSuccessorIter)
        requires
            self.wf(),
        ensures
            r.wf(),
            r.original() == self@,
            r.remaining() == successors(self@),
    {
        NQueensSuccessorIter::new(self)
    }
}

/// The row that a column being varied takes next: given its working row `col` (`None` when
/// not started) and its original row `orig`, the first row after `col` that differs from
/// `orig`, or `None` when there is none below `size` or the column is empty.
pub fn next_column(col: Option<usize>, orig: Option<usize>, size: usize) -> (r: Option<usize>)
    requires
        size > 0,
        col matches Some(x) ==> x < size,
        orig matches Some(o) ==> o < size,
    ensures
        r == next_row_spec(col, orig, size),
        r matches Some(k) ==> k < size && orig is Some && k != orig->0,
{
    match (col, orig) {
        (Some(row), Some(orow)) => {
            let mut next = row + 1;
            if next == orow {
                next = next + 1;
            }
            if next >= size {
                None
            } else {
                Some(next)
            }
        },
        (None, Some(orow)) => {
            if orow == 0 {
                if 1 < size {
                    Some(1)
                } else {
                    None
                }
            } else {
                Some(0)
            }
        },
        _ => None,
    }
}

} // verus!

use vstd::prelude::*;
use vstd::std_specs::iter::IteratorSpec;

verus! {

/// Error raised by board constructors and mutators.
#[derive(PartialEq, Eq, Debug, Clone, Copy, Structural)]
pub enum BoardError {
    /// A column or row index is not below the board's size.
    OutOfRange,
}

/// Every queen of `q` stands on a row inside the board.
pub open spec fn in_bounds(q: Seq<Option<usize>>) -> bool {
    forall|c: int| 0 <= c < q.len() && (#[trigger] q[c]) is Some ==> q[c]->0 < q.len()
}

/// Every column of `q` holds a queen.
pub open spec fn is_full(q: Seq<Option<usize>>) -> bool {
    forall|c: int| 0 <= c < q.len() ==> (#[trigger] q[c]) is Some
}

/// The queens of columns `i` and `j` (both occupied) share a row or a diagonal.
pub open spec fn attacks(q: Seq<Option<usize>>, i: int, j: int) -> bool {
    &&& q[i] is Some
    &&& q[j] is Some
    &&& {
        let ri = q[i]->0 as int;
        let rj = q[j]->0 as int;
        ri == rj || i + ri == j + rj || i - ri == j - rj
    }
}

/// No two occupied columns of `q` attack each other.
pub open spec fn no_attacks(q: Seq<Option<usize>>) -> bool {
    forall|i: int, j: int| 0 <= i < j < q.len() ==> !#[trigger] attacks(q, i, j)
}

/// `q` is a solution: a queen in every column and no attacking pair.
pub open spec fn valid_solution(q: Seq<Option<usize>>) -> bool {
    is_full(q) && no_attacks(q)
}

/// The number of columns `k` in `j..` whose queen attacks the queen of column `i`.
pub open spec fn col_conflicts(q: Seq<Option<usize>>, i: int, j: int) -> nat
    decreases q.len() - j,
{
    if j < 0 || j >= q.len() {
        0
    } else {
        (if attacks(q, i, j) { 1nat } else { 0nat }) + col_conflicts(q, i, j + 1)
    }
}

/// The number of attacking pairs `(a, b)` with `i <= a < b`.
pub open spec fn conflicts_from(q: Seq<Option<usize>>, i: int) -> nat
    decreases q.len() - i,
{
    if i < 0 || i >= q.len() {
        0
    } else {
        col_conflicts(q, i, i + 1) + conflicts_from(q, i + 1)
    }
}

/// The number of unordered pairs of occupied columns whose queens attack each other.
pub open spec fn conflict_count(q: Seq<Option<usize>>) -> nat {
    conflicts_from(q, 0)
}

/// The board whose column `i` holds a queen on row `rows[i]`.
pub open spec fn rows_board(rows: Seq<usize>) -> Seq<Option<usize>> {
    rows.map_values(|r: usize| Some(r))
}

proof fn lemma_col_conflicts_bound(q: Seq<Option<usize>>, i: int, j: int)
    requires
        0 <= j <= q.len(),
    ensures
        col_conflicts(q, i, j) <= q.len() - j,
    decreases q.len() - j,
{
    if j < q.len() {
        lemma_col_conflicts_bound(q, i, j + 1);
    }
}

proof fn lemma_conflicts_from_bound(q: Seq<Option<usize>>, i: int)
    requires
        0 <= i <= q.len(),
    ensures
        conflicts_from(q, i) <= (q.len() - i) * q.len(),
    decreases q.len() - i,
{
    if i < q.len() {
        lemma_col_conflicts_bound(q, i, i + 1);
        lemma_conflicts_from_bound(q, i + 1);
        let n = q.len() as int;
        assert((n - (i + 1)) * n + n == (n - i) * n) by (nonlinear_arith);
    }
}

/// A board of size `n` has at most `n * n` conflicts.
pub proof fn lemma_conflict_count_bound(q: Seq<Option<usize>>)
    ensures
        conflict_count(q) <= q.len() * q.len(),
{
    lemma_conflicts_from_bound(q, 0);
}

proof fn lemma_col_conflicts_zero(q: Seq<Option<usize>>, i: int, j: int)
    requires
        0 <= j <= q.len(),
    ensures
        col_conflicts(q, i, j) == 0 <==> forall|k: int| j <= k < q.len() ==> !#[trigger] attacks(q, i, k),
    decreases q.len() - j,
{
    if j < q.len() {
        lemma_col_conflicts_zero(q, i, j + 1);
    }
}

proof fn lemma_conflicts_from_zero(q: Seq<Option<usize>>, i: int)
    requires
        0 <= i <= q.len(),
    ensures
        conflicts_from(q, i) == 0 <==> forall|a: int, b: int|
            i <= a < b < q.len() ==> !#[trigger] attacks(q, a, b),
    decreases q.len() - i,
{
    if i < q.len() {
        lemma_col_conflicts_zero(q, i, i + 1);
        lemma_conflicts_from_zero(q, i + 1);
        if conflicts_from(q, i) == 0 {
            assert forall|a: int, b: int| i <= a < b < q.len() implies !#[trigger] attacks(q, a, b) by {
                if a > i {
                } else {
                    assert(!attacks(q, i, b));
                }
            }
        }
    }
}

/// A board has no conflict exactly when no two of its queens attack each other.
pub proof fn lemma_zero_conflicts_iff_no_attacks(q: Seq<Option<usize>>)
    ensures
        conflict_count(q) == 0 <==> no_attacks(q),
{
    lemma_conflicts_from_zero(q, 0);
}

/// Solutions are exactly the full boards without conflict: a solution counts no
/// conflict, and `is_valid` holds of a board only if it counts none.
pub proof fn lemma_valid_iff_full_without_conflicts(q: Seq<Option<usize>>)
    ensures
        valid_solution(q) <==> (is_full(q) && conflict_count(q) == 0),
        valid_solution(q) ==> conflict_count(q) == 0,
{
    lemma_zero_conflicts_iff_no_attacks(q);
}

proof fn lemma_col_conflicts_single(q: Seq<Option<usize>>, i: int, j: int, t: int)
    requires
        0 <= i < j < q.len(),
        i + 1 <= t <= q.len(),
        attacks(q, i, j),
        forall|b: int| i < b < q.len() && b != j ==> !#[trigger] attacks(q, i, b),
    ensures
        col_conflicts(q, i, t) == if t <= j { 1nat } else { 0nat },
    decreases q.len() - t,
{
    if t < q.len() {
        lemma_col_conflicts_single(q, i, j, t + 1);
    }
}

proof fn lemma_conflicts_from_single(q: Seq<Option<usize>>, i: int, j: int, a: int)
    requires
        0 <= i < j < q.len(),
        0 <= a <= q.len(),
        attacks(q, i, j),
        forall|x: int, y: int|
            0 <= x < y < q.len() && #[trigger] attacks(q, x, y) ==> x == i && y == j,
    ensures
        conflicts_from(q, a) == if a <= i { 1nat } else { 0nat },
    decreases q.len() - a,
{
    if a < q.len() {
        lemma_conflicts_from_single(q, i, j, a + 1);
        if a == i {
            lemma_col_conflicts_single(q, i, j, i + 1);
        } else {
            lemma_col_conflicts_zero(q, a, a + 1);
        }
    }
}

/// A board on which exactly one pair of queens attacks each other counts one conflict and
/// is no solution.
pub proof fn lemma_single_conflict(q: Seq<Option<usize>>, i: int, j: int)
    requires
        0 <= i < j < q.len(),
        attacks(q, i, j),
        forall|x: int, y: int|
            0 <= x < y < q.len() && #[trigger] attacks(q, x, y) ==> x == i && y == j,
    ensures
        conflict_count(q) == 1,
        !valid_solution(q),
{
    lemma_conflicts_from_single(q, i, j, 0);
}

proof fn lemma_col_conflicts_same_row(q: Seq<Option<usize>>, i: int, t: int)
    requires
        0 <= i < t <= q.len(),
        q.len() > 0,
        forall|c: int| 0 <= c < q.len() ==> #[trigger] q[c] == q[0],
        q[0] is Some,
    ensures
        col_conflicts(q, i, t) == q.len() - t,
    decreases q.len() - t,
{
    if t < q.len() {
        assert(q[i] == q[0] && q[t] == q[0]);
        lemma_col_conflicts_same_row(q, i, t + 1);
    }
}

proof fn lemma_conflicts_from_same_row(q: Seq<Option<usize>>, a: int)
    requires
        0 <= a <= q.len(),
        q.len() > 0,
        forall|c: int| 0 <= c < q.len() ==> #[trigger] q[c] == q[0],
        q[0] is Some,
    ensures
        2 * conflicts_from(q, a) == (q.len() - a) * (q.len() - a - 1),
    decreases q.len() - a,
{
    if a < q.len() {
        lemma_conflicts_from_same_row(q, a + 1);
        if a + 1 < q.len() {
            lemma_col_conflicts_same_row(q, a, a + 1);
        }
        let m = q.len() - a;
        assert(2 * (m - 1) + (m - 1) * (m - 2) == m * (m - 1)) by (nonlinear_arith);
        assert(2 * conflicts_from(q, a) == 2 * (m - 1) + 2 * conflicts_from(q, a + 1));
    } else {
        assert((q.len() - a) * (q.len() - a - 1) == 0) by (nonlinear_arith)
            requires
                q.len() - a == 0,
        ;
    }
}

/// On a full board whose queens all stand on one row, every pair of queens attacks each
/// other: a board of size `k` counts `k * (k - 1) / 2` conflicts.
pub proof fn lemma_same_row_conflicts(q: Seq<Option<usize>>)
    requires
        q.len() > 0,
        is_full(q),
        forall|c: int| 0 <= c < q.len() ==> #[trigger] q[c] == q[0],
    ensures
        2 * conflict_count(q) == q.len() * (q.len() - 1),
{
    lemma_conflicts_from_same_row(q, 0);
}

/// A chess board of queens, one optional queen per column.
#[derive(Debug)]
pub struct NQueens {
    queens: Vec<Option<usize>>,
}

impl View for NQueens {
    type V = Seq<Option<usize>>;

    closed spec fn view(&self) -> Seq<Option<usize>> {
        self.queens@
    }
}

impl Clone for NQueens {
    fn clone(&self) -> (r: Self)
        ensures
            r@ == self@,
    {
        let queens = self.queens.clone();
        proof {
            assert(queens@ =~= self.queens@);
        }
        NQueens { queens }
    }
}

impl NQueens {
    /// Every queen of the board stands inside it.
    pub open spec fn wf(&self) -> bool {
        in_bounds(self@)
    }

    /// Creates a new board of size `size` with no queen placed.
    pub fn new_empty(size: usize) -> (r: NQueens)
        ensures
            r.wf(),
            r@ == Seq::new(size as nat, |i: int| None::<usize>),
    {
        let mut queens: Vec<Option<usize>> = Vec::new();
        let mut i: usize = 0;
        while i < size
            invariant
                i <= size,
                queens@ == Seq::new(i as nat, |k: int| None::<usize>),
            decreases size - i,
        {
            queens.push(None);
            i = i + 1;
            proof {
                assert(queens@ =~= Seq::new(i as nat, |k: int| None::<usize>));
            }
        }
        let r = NQueens { queens };
        assert(r.wf());
        r
    }

    /// Creates a board with one queen per column, column `i` holding row `rows[i]`.
    /// Fails with `OutOfRange` when some row is not below the number of rows given.
    pub fn from_rows(rows: &[usize]) -> (r: Result<NQueens, BoardError>)
        ensures
            (forall|i: int| 0 <= i < rows@.len() ==> #[trigger] rows@[i] < rows@.len()) <==> r is Ok,
            r matches Ok(b) ==> b.wf() && b@ == rows_board(rows@),
            r matches Err(e) ==> e == BoardError::OutOfRange,
    {
        let n = rows.len();
        let mut queens: Vec<Option<usize>> = Vec::new();
        let mut i: usize = 0;
        while i < n
            invariant
                i <= n,
                n == rows@.len(),
                queens@ == rows_board(rows@.subrange(0, i as int)),
                forall|k: int| 0 <= k < i ==> #[trigger] rows@[k] < n,
            decreases n - i,
        {
            let row = rows[i];
            if row >= n {
                return Err(BoardError::OutOfRange);
            }
            queens.push(Some(row));
            i = i + 1;
            proof {
                assert(queens@ =~= rows_board(rows@.subrange(0, i as int)));
            }
        }
        proof {
            assert(rows@.subrange(0, n as int) =~= rows@);
        }
        Ok(NQueens { queens })
    }

    /// The size of the board: its number of columns, which is also its number of rows.
    pub fn size(&self) -> (r: usize)
        ensures
            r == self@.len(),
    {
        self.queens.len()
    }

    /// Whether a queen stands in the given column.
    pub fn is_set(&self, column: usize) -> (r: bool)
        requires
            column < self@.len(),
        ensures
            r == self@[column as int] is Some,
    {
        self.queens[column].is_some()
    }

    /// The row of the queen in the given column, which must hold one.
    pub fn get(&self, column: usize) -> (r: usize)
        requires
            column < self@.len(),
            self@[column as int] is Some,
        ensures
            self@[column as int] == Some(r),
    {
        match self.queens[column] {
            Some(row) => row,
            None => 0,
        }
    }

    /// A reference to the row of the queen in the given column, which must hold one.
    pub fn get_ref(&self, column: usize) -> (r: &usize)
        requires
            column < self@.len(),
            self@[column as int] is Some,
        ensures
            self@[column as int] == Some(*r),
    {
        self.queens[column].as_ref().unwrap()
    }

    /// The content of the given column: the row of its queen, or `None`.
    pub fn get_option(&self, column: usize) -> (r: Option<usize>)
        requires
            column < self@.len(),
        ensures
            r == self@[column as int],
    {
        self.queens[column]
    }

    /// A reference to the content of the given column.
    pub fn get_option_ref(&self, column: usize) -> (r: &Option<usize>)
        requires
            column < self@.len(),
        ensures
            *r == self@[column as int],
    {
        &self.queens[column]
    }

    /// Places the queen of `column` on `row`.
    /// Fails with `OutOfRange`, leaving the board as it was, when either is not below the size.
    pub fn set(&mut self, column: usize, row: usize) -> (r: Result<(), BoardError>)
        requires
            old(self).wf(),
        ensures
            final(self).wf(),
            (column < old(self)@.len() && row < old(self)@.len()) <==> r is Ok,
            r is Ok ==> final(self)@ == old(self)@.update(column as int, Some(row)),
            r matches Err(e) ==> e == BoardError::OutOfRange && final(self)@ == old(self)@,
    {
        if column >= self.queens.len() || row >= self.queens.len() {
            return Err(BoardError::OutOfRange);
        }
        self.queens.set(column, Some(row));
        Ok(())
    }

    /// Sets the content of `column`: a queen on the given row, or none.
    /// Fails with `OutOfRange`, leaving the board as it was, when the column or the row
    /// is not below the size.
    pub fn set_option(&mut self, column: usize, row: Option<usize>) -> (r: Result<(), BoardError>)
        requires
            old(self).wf(),
        ensures
            final(self).wf(),
            (column < old(self)@.len() && (row matches Some(x) ==> x < old(self)@.len()))
                <==> r is Ok,
            r is Ok ==> final(self)@ == old(self)@.update(column as int, row),
            r matches Err(e) ==> e == BoardError::OutOfRange && final(self)@ == old(self)@,
    {
        if column >= self.queens.len() {
            return Err(BoardError::OutOfRange);
        }
        if let Some(x) = row {
            if x >= self.queens.len() {
                return Err(BoardError::OutOfRange);
            }
        }
        self.queens.set(column, row);
        Ok(())
    }

    /// Removes the queen of the given column, if there is one.
    pub fn unset(&mut self, column: usize)
        requires
            old(self).wf(),
            column < old(self)@.len(),
        ensures
            final(self).wf(),
            final(self)@ == old(self)@.update(column as int, None),
    {
        self.queens.set(column, None);
    }

    /// An iterator over the columns of the board, in order.
    pub fn iter(&self) -> (r: std::slice::Iter<'_, Option<usize>>)
        ensures
            r.remaining() == self@.as_ref(),
    {
        self.queens.as_slice().iter()
    }

    /// Counts the unordered pairs of queens that attack each other, whatever lies between them.
    /// Empty columns take part in no pair.
    pub fn count_conflicts(&self) -> (r: u32)
        requires
            conflict_count(self@) <= u32::MAX,
        ensures
            r == conflict_count(self@),
    {
        let n = self.queens.len();
        let mut count: u32 = 0;
        let mut i: usize = 0;
        while i < n
            invariant
                n == self@.len(),
                i <= n,
                count + conflicts_from(self@, i as int) == conflict_count(self@),
                conflict_count(self@) <= u32::MAX,
            decreases n - i,
        {
            let mut j: usize = i + 1;
            while j < n
                invariant
                    n == self@.len(),
                    i < n,
                    i + 1 <= j <= n,
                    count + col_conflicts(self@, i as int, j as int) + conflicts_from(
                        self@,
                        i as int + 1,
                    ) == conflict_count(self@),
                    conflict_count(self@) <= u32::MAX,
                decreases n - j,
            {
                if self.attack_between(i, j) {
                    count = count + 1;
                }
                j = j + 1;
            }
            i = i + 1;
        }
        count
    }

    /// Creates a board of size `size` with a queen in every column, each on a row drawn
    /// uniformly at random, independently of the others.
    pub fn new_random(size: usize) -> (r: NQueens)
        ensures
            r.wf(),
            r@.len() == size,
            is_full(r@),
    {
        let mut queens: Vec<Option<usize>> = Vec::new();
        let mut i: usize = 0;
        while i < size
            invariant
                i <= size,
                queens@.len() == i,
                forall|k: int| 0 <= k < i ==> (#[trigger] queens@[k]) is Some && queens@[k]->0 < size,
            decreases size - i,
        {
            queens.push(Some(random_row(size)));
            i = i + 1;
        }
        NQueens { queens }
    }

    /// Places the queen of `column` on a row drawn uniformly at random.
    pub fn set_random(&mut self, column: usize)
        requires
            old(self).wf(),
            column < old(self)@.len(),
        ensures
            final(self).wf(),
            final(self)@[column as int] is Some,
            final(self)@ == old(self)@.update(column as int, final(self)@[column as int]),
    {
        let row = random_row(self.queens.len());
        self.queens.set(column, Some(row));
    }

    /// Whether the board is a solution: every column holds a queen, and no two queens share
    /// a row or a diagonal. The checks run in that order and stop at the first failure.
    pub fn is_valid(&self) -> (r: bool)
        ensures
            r == valid_solution(self@),
    {
        let n = self.queens.len();
        let mut c: usize = 0;
        while c < n
            invariant
                n == self@.len(),
                c <= n,
                forall|k: int| 0 <= k < c ==> (#[trigger] self@[k]) is Some,
            decreases n - c,
        {
            if self.queens[c].is_none() {
                return false;
            }
            c = c + 1;
        }
        assert(is_full(self@));
        let mut i: usize = 0;
        while i < n
            invariant
                n == self@.len(),
                i <= n,
                is_full(self@),
                forall|a: int, b: int|
                    0 <= a < i && a < b < n ==> #[trigger] self@[a]->0 != #[trigger] self@[b]->0,
            decreases n - i,
        {
            let mut j: usize = i + 1;
            while j < n
                invariant
                    n == self@.len(),
                    i < n,
                    i + 1 <= j <= n,
                    is_full(self@),
                    forall|a: int, b: int|
                        0 <= a < i && a < b < n ==> #[trigger] self@[a]->0 != #[trigger] self@[b]->0,
                    forall|b: int| i < b < j ==> self@[i as int]->0 != #[trigger] self@[b]->0,
                decreases n - j,
            {
                if self.get(i) == self.get(j) {
                    assert(attacks(self@, i as int, j as int));
                    return false;
                }
                j = j + 1;
            }
            i = i + 1;
        }
        let mut i: usize = 0;
        while i < n
            invariant
                n == self@.len(),
                i <= n,
                is_full(self@),
                forall|a: int, b: int|
                    0 <= a < b < n ==> #[trigger] self@[a]->0 != #[trigger] self@[b]->0,
                forall|a: int, b: int| 0 <= a < i && a < b < n ==> !#[trigger] attacks(self@, a, b),
            decreases n - i,
        {
            let mut j: usize = i + 1;
            while j < n
                invariant
                    n == self@.len(),
                    i < n,
                    i + 1 <= j <= n,
                    is_full(self@),
                    forall|a: int, b: int|
                        0 <= a < b < n ==> #[trigger] self@[a]->0 != #[trigger] self@[b]->0,
                    forall|a: int, b: int|
                        0 <= a < i && a < b < n ==> !#[trigger] attacks(self@, a, b),
                    forall|b: int| i < b < j ==> !#[trigger] attacks(self@, i as int, b),
                decreases n - j,
            {
                if self.attack_between(i, j) {
                    return false;
                }
                j = j + 1;
            }
            i = i + 1;
        }
        true
    }

    /// Whether columns `i < j` both hold a queen and those two queens attack each other.
    fn attack_between(&self, i: usize, j: usize) -> (r: bool)
        requires
            i < j < self@.len(),
        ensures
            r == attacks(self@, i as int, j as int),
    {
        match (self.queens[i], self.queens[j]) {
            (Some(ri), Some(rj)) => {
                let d = j - i;
                ri == rj || (ri >= rj && ri - rj == d) || (rj > ri && rj - ri == d)
            },
            _ => false,
        }
    }
}

impl<'a> IntoIterator for &'a NQueens {
    type Item = &'a Option<usize>;
    type IntoIter = std::slice::Iter<'a, Option<usize>>;

    /// Iterates over the columns of the board, in order.
    fn into_iter(self) -> (r: std::slice::Iter<'a, Option<usize>>)
        ensures
            r.remaining() == self@.as_ref(),
    {
        self.iter()
    }
}

/// Relies on rand's `Range::new(0, size)` sampled with `thread_rng()`: a row drawn
/// uniformly from `0..size`. `Range::new` panics on an empty range, hence `size > 0`.
#[verifier::external_body]
fn random_row(size: usize) -> (r: usize)
    requires
        size > 0,
    ensures
        r < size,
{
    let mut rng = rand::thread_rng();
    rand::distributions::IndependentSample::ind_sample(&rand::distributions::Range::new(0, size), &mut rng)
}

} // verus!

use vstd::prelude::*;
use rayon::iter::{IntoParallelIterator, ParallelIterator};
use crate::board::{
    conflict_count, in_bounds, is_full, lemma_conflict_count_bound,
    lemma_zero_conflicts_iff_no_attacks, no_attacks, rows_board, valid_solution, attacks, NQueens,
};
use crate::successor::{lemma_successor_count, lemma_successor_elements, occupied, occupied_from, successors};

verus! {

broadcast use vstd::seq_lib::group_to_multiset_ensures, vstd::seq_lib::group_filter_ensures, vstd::seq::Seq::lemma_filter_contains_rev;

/// Why hill climbing returned no board.
#[derive(PartialEq, Eq, Debug, Clone, Copy, Structural)]
pub enum GradientDescentErr {
    /// Boards of size 2 and 3 have no solution.
    NoSolutionsExist,
    /// The search stopped at a board that no successor improves.
    SolutionNotFound,
}

/// The board of `s` with the fewest conflicts; the first such one on a tie.
pub open spec fn best_in(s: Seq<Seq<Option<usize>>>) -> Seq<Option<usize>>
    decreases s.len(),
{
    if s.len() <= 1 {
        s[0]
    } else {
        let b = best_in(s.drop_last());
        if conflict_count(s.last()) < conflict_count(b) {
            s.last()
        } else {
            b
        }
    }
}

/// Greedy descent from `q`: stop with `q` when it has no conflict; else move to its best
/// successor when that has strictly fewer conflicts, and give up when it has not.
pub open spec fn climb(q: Seq<Option<usize>>) -> Result<Seq<Option<usize>>, GradientDescentErr>
    decreases conflict_count(q),
{
    if conflict_count(q) == 0 {
        Ok(q)
    } else {
        let s = successors(q);
        if s.len() == 0 {
            Err(GradientDescentErr::SolutionNotFound)
        } else {
            let m = best_in(s);
            if conflict_count(m) < conflict_count(q) {
                climb(m)
            } else {
                Err(GradientDescentErr::SolutionNotFound)
            }
        }
    }
}

/// `r` is what `climb` gives from `q`.
pub open spec fn climbs_to(q: Seq<Option<usize>>, r: Result<NQueens, GradientDescentErr>) -> bool {
    match r {
        Ok(b) => climb(q) == Ok::<Seq<Option<usize>>, GradientDescentErr>(b@),
        Err(e) => climb(q) == Err::<Seq<Option<usize>>, GradientDescentErr>(e),
    }
}

/// `p` lists each of the rows `0..n` once.
pub open spec fn is_permutation_of_range(p: Seq<usize>, n: nat) -> bool {
    p.to_multiset() == Seq::new(n, |i: int| i as usize).to_multiset()
}

proof fn lemma_best_in_member(s: Seq<Seq<Option<usize>>>)
    requires
        s.len() > 0,
    ensures
        exists|k: int| 0 <= k < s.len() && s[k] == best_in(s),
    decreases s.len(),
{
    if s.len() > 1 {
        lemma_best_in_member(s.drop_last());
        let k = choose|k: int| 0 <= k < s.drop_last().len() && s.drop_last()[k] == best_in(s.drop_last());
        assert(s[k] == s.drop_last()[k]);
        assert(s[s.len() - 1] == s.last());
    } else {
        assert(s[0] == best_in(s));
    }
}

proof fn lemma_occupied_positive(q: Seq<Option<usize>>, c: int, i: int)
    requires
        0 <= c <= i < q.len(),
        q[i] is Some,
    ensures
        occupied_from(q, c) >= 1,
    decreases i - c,
{
    if c < i {
        lemma_occupied_positive(q, c + 1, i);
    }
}

/// A board with a conflict has a successor.
proof fn lemma_conflict_has_successor(q: Seq<Option<usize>>)
    requires
        conflict_count(q) > 0,
    ensures
        successors(q).len() > 0,
{
    lemma_zero_conflicts_iff_no_attacks(q);
    let (i, j) = choose|i: int, j: int| 0 <= i < j < q.len() && attacks(q, i, j);
    lemma_occupied_positive(q, 0, i);
    lemma_successor_count(q);
    let k = occupied(q) as int;
    let m = q.len() - 1;
    assert(k * m >= 1) by (nonlinear_arith)
        requires
            k >= 1,
            m >= 1,
    ;
}

/// What `climb` reaches from an in-bounds board is an in-bounds board of the same size
/// without conflict, full when the start is full.
pub proof fn lemma_climb_result(q: Seq<Option<usize>>)
    requires
        in_bounds(q),
        q.len() <= usize::MAX,
    ensures
        climb(q) matches Ok(b) ==> {
            &&& conflict_count(b) == 0
            &&& in_bounds(b)
            &&& b.len() == q.len()
            &&& (is_full(q) ==> valid_solution(b))
        },
        climb(q) matches Err(e) ==> e == GradientDescentErr::SolutionNotFound,
    decreases conflict_count(q),
{
    if conflict_count(q) == 0 {
        lemma_zero_conflicts_iff_no_attacks(q);
    } else {
        let s = successors(q);
        if s.len() > 0 {
            let m = best_in(s);
            if conflict_count(m) < conflict_count(q) {
                lemma_best_in_member(s);
                lemma_successor_elements(q);
                let k = choose|k: int| 0 <= k < s.len() && s[k] == best_in(s);
                assert(s[k] == m);
                let col = choose|col: int|
                    0 <= col < q.len() && q[col] is Some && m[col] is Some && m[col] != q[col] && m
                        == q.update(col, m[col]);
                if is_full(q) {
                    assert forall|c: int| 0 <= c < m.len() implies (#[trigger] m[c]) is Some by {
                        if c != col {
                            assert(m[c] == q[c]);
                        }
                    }
                }
                lemma_climb_result(m);
            }
        }
    }
}

/// Hill climbing from the given start: repeatedly move to the successor with the fewest
/// conflicts (the first one on a tie) while that strictly lowers the count. Gives the board
/// reached once it has no conflict, or `SolutionNotFound` when no successor improves.
pub fn hill_climbing_from(start: NQueens) -> (r: Result<NQueens, GradientDescentErr>)
    requires
        start.wf(),
        start@.len() * start@.len() <= u32::MAX,
    ensures
        climbs_to(start@, r),
        r matches Ok(b) ==> b.wf() && b@.len() == start@.len(),
{
    let n = start.size();
    let mut current = start;
    proof {
        lemma_conflict_count_bound(current@);
    }
    let mut conflicts = current.count_conflicts();
    while conflicts != 0
        invariant
            current.wf(),
            current@.len() == n,
            n * n <= u32::MAX,
            conflicts == conflict_count(current@),
            climb(current@) == climb(start@),
        decreases conflicts,
    {
        let ghost succ = successors(current@);
        proof {
            lemma_conflict_has_successor(current@);
            lemma_successor_elements(current@);
        }
        let mut successors_left = current.successors_iter();
        let mut best = match successors_left.next() {
            Some(b) => b,
            None => {
                proof {
                    assert(false);
                }
                return Err(GradientDescentErr::SolutionNotFound);
            },
        };
        proof {
            lemma_conflict_count_bound(best@);
            assert(succ.take(1) =~= seq![succ[0]]);
        }
        let mut best_conflicts = best.count_conflicts();
        let ghost mut k: int = 1;
        let mut more = true;
        while more
            invariant
                successors_left.wf(),
                successors_left.remaining() == succ.skip(k),
                succ == successors(current@),
                current.wf(),
                current@.len() == n,
                n * n <= u32::MAX,
                forall|t: int|
                    0 <= t < succ.len() ==> in_bounds(#[trigger] succ[t]) && succ[t].len() == n,
                1 <= k <= succ.len(),
                !more ==> k == succ.len(),
                best.wf(),
                best@.len() == n,
                best@ == best_in(succ.take(k)),
                best_conflicts == conflict_count(best@),
            decreases succ.len() - k + (if more { 1int } else { 0 }),
        {
            match successors_left.next() {
                None => {
                    more = false;
                },
                Some(b) => {
                    proof {
                        assert(b@ == succ[k]);
                        lemma_conflict_count_bound(b@);
                    }
                    let c = b.count_conflicts();
                    proof {
                        assert(succ.take(k + 1).drop_last() =~= succ.take(k));
                        assert(succ.take(k + 1).last() == succ[k]);
                    }
                    if c < best_conflicts {
                        best = b;
                        best_conflicts = c;
                    }
                    proof {
                        k = k + 1;
                    }
                },
            }
        }
        proof {
            assert(succ.take(k) =~= succ);
        }
        if best_conflicts >= conflicts {
            return Err(GradientDescentErr::SolutionNotFound);
        }
        current = best;
        conflicts = best_conflicts;
    }
    Ok(current)
}

/// Looks for one solution of size `size` by hill climbing from a board with a queen on a
/// random row in every column. Sizes 0 and 1 give that board at once; sizes 2 and 3 have no
/// solution; a larger size gives a solution, or `SolutionNotFound` when the search gets stuck.
pub fn hill_climbing_solution(size: usize) -> (r: Result<NQueens, GradientDescentErr>)
    requires
        size * size <= u32::MAX,
    ensures
        r matches Ok(b) ==> b.wf() && b@.len() == size && valid_solution(b@),
        size < 2 ==> r is Ok,
        (size == 2 || size == 3) <==> r == Err::<NQueens, GradientDescentErr>(
            GradientDescentErr::NoSolutionsExist,
        ),
        size >= 4 ==> exists|s: Seq<Option<usize>>|
            s.len() == size && in_bounds(s) && is_full(s) && climbs_to(s, r),
{
    if size == 2 || size == 3 {
        return Err(GradientDescentErr::NoSolutionsExist);
    }
    let start = NQueens::new_random(size);
    if size < 2 {
        proof {
            assert(no_attacks(start@));
        }
        return Ok(start);
    }
    let ghost s = start@;
    let r = hill_climbing_from(start);
    proof {
        lemma_climb_result(s);
        assert(s.len() == size && in_bounds(s) && is_full(s) && climbs_to(s, r));
    }
    r
}

proof fn lemma_permutation_rows(p: Seq<usize>, n: nat)
    requires
        is_permutation_of_range(p, n),
    ensures
        p.len() == n,
        forall|i: int| 0 <= i < p.len() ==> #[trigger] p[i] < n,
{
    let range = Seq::new(n, |i: int| i as usize);
    assert(p.to_multiset().len() == range.to_multiset().len());
    assert forall|i: int| 0 <= i < p.len() implies #[trigger] p[i] < n by {
        assert(p.contains(p[i]));
        assert(range.to_multiset().count(p[i]) > 0);
        assert(range.contains(p[i]));
    }
}

/// The rows of an in-bounds solution of size `n` list each of `0..n` once.
pub proof fn lemma_solution_rows_are_permutation(q: Seq<Option<usize>>)
    requires
        valid_solution(q),
        in_bounds(q),
        q.len() <= usize::MAX,
    ensures
        is_permutation_of_range(q.map_values(|x: Option<usize>| x->0), q.len()),
        rows_board(q.map_values(|x: Option<usize>| x->0)) == q,
{
    broadcast use vstd::seq_lib::seq_to_set_is_finite;

    let n = q.len();
    let p = q.map_values(|x: Option<usize>| x->0);
    let range = Seq::new(n, |i: int| i as usize);
    assert(rows_board(p) =~= q);
    assert forall|i: int, j: int| 0 <= i < n && 0 <= j < n && i != j implies p[i] != p[j] by {
        if i < j {
            assert(!attacks(q, i, j));
        } else {
            assert(!attacks(q, j, i));
        }
    }
    assert(p.no_duplicates());
    assert forall|i: int, j: int| 0 <= i < n && 0 <= j < n && i != j implies range[i] != range[j] by {
        assert(range[i] == i && range[j] == j);
    }
    assert(range.no_duplicates());
    p.unique_seq_to_set();
    range.unique_seq_to_set();
    assert forall|v: usize| p.to_set().contains(v) implies range.to_set().contains(v) by {
        let i = choose|i: int| 0 <= i < n && p[i] == v;
        assert(range[v as int] == v);
    }
    vstd::set_lib::lemma_subset_equality(p.to_set(), range.to_set());
    p.lemma_multiset_has_no_duplicates();
    range.lemma_multiset_has_no_duplicates();
    assert forall|v: usize| p.to_multiset().count(v) == range.to_multiset().count(v) by {
        if p.contains(v) {
            assert(p.to_set().contains(v));
            assert(range.to_set().contains(v));
            assert(range.contains(v));
        } else {
            assert(!p.to_set().contains(v));
            assert(!range.to_set().contains(v));
            assert(!range.contains(v));
        }
    }
    assert(p.to_multiset() =~= range.to_multiset());
}

proof fn lemma_filter_no_duplicates(s: Seq<Seq<Option<usize>>>, pred: spec_fn(Seq<Option<usize>>) -> bool)
    requires
        s.no_duplicates(),
    ensures
        s.filter(pred).no_duplicates(),
    decreases s.len(),
{
    reveal(Seq::filter);
    if s.len() > 0 {
        let init = s.drop_last();
        assert(init.no_duplicates());
        lemma_filter_no_duplicates(init, pred);
        if pred(s.last()) {
            let f = init.filter(pred);
            assert(!init.contains(s.last()));
            assert(!f.contains(s.last()));
            assert forall|i: int, j: int|
                0 <= i < f.len() + 1 && 0 <= j < f.len() + 1 && i != j implies f.push(s.last())[i]
                != f.push(s.last())[j] by {
                if i < f.len() && j < f.len() {
                } else if i < f.len() {
                    assert(f.contains(f[i]));
                } else {
                    assert(f.contains(f[j]));
                }
            }
        }
    }
}

/// All solutions of size `size`, found by checking every ordering of the rows `0..size`.
pub fn brute_force_solutions(size: usize) -> (r: Vec<NQueens>)
    requires
        size <= 16,
    ensures
        forall|k: int|
            0 <= k < r@.len() ==> (#[trigger] r@[k]).wf() && r@[k]@.len() == size
                && valid_solution(r@[k]@),
        forall|p: Seq<usize>|
            is_permutation_of_range(p, size as nat) && valid_solution(rows_board(p)) ==> exists|k: int|
                0 <= k < r@.len() && (#[trigger] r@[k])@ == rows_board(p),
        forall|q: Seq<Option<usize>>|
            q.len() == size && in_bounds(q) && #[trigger] valid_solution(q) ==> exists|k: int|
                0 <= k < r@.len() && (#[trigger] r@[k])@ == q,
        forall|i: int, j: int| 0 <= i < j < r@.len() ==> r@[i]@ != r@[j]@,
{
    let mut range: Vec<usize> = Vec::new();
    let mut i: usize = 0;
    while i < size
        invariant
            i <= size,
            range@ == Seq::new(i as nat, |t: int| t as usize),
        decreases size - i,
    {
        range.push(i);
        i = i + 1;
        proof {
            assert(range@ =~= Seq::new(i as nat, |t: int| t as usize));
        }
    }
    proof {
        assert forall|a: int, b: int| 0 <= a < size && 0 <= b < size && a != b implies range@[a]
            != range@[b] by {
            assert(range@[a] == a && range@[b] == b);
        }
    }
    let orderings = all_orderings(&mut range);
    let mut boards: Vec<NQueens> = Vec::new();
    let mut k: usize = 0;
    while k < orderings.len()
        invariant
            k <= orderings@.len(),
            boards@.len() == k,
            forall|t: int|
                0 <= t < orderings@.len() ==> is_permutation_of_range(
                    #[trigger] orderings@[t]@,
                    size as nat,
                ),
            forall|a: int, b: int| 0 <= a < b < orderings@.len() ==> orderings@[a]@ != orderings@[b]@,
            forall|t: int|
                0 <= t < k ==> (#[trigger] boards@[t]).wf() && boards@[t]@ == rows_board(
                    orderings@[t]@,
                ) && boards@[t]@.len() == size,
        decreases orderings@.len() - k,
    {
        proof {
            lemma_permutation_rows(orderings@[k as int]@, size as nat);
        }
        match NQueens::from_rows(orderings[k].as_slice()) {
            Ok(b) => {
                boards.push(b);
            },
            Err(_) => {
                proof {
                    assert(false);
                }
            },
        }
        k = k + 1;
    }
    let ghost views = boards@.map_values(|b: NQueens| b@);
    let solutions = keep_valid(boards);
    proof {
        let kept = views.filter(|q: Seq<Option<usize>>| valid_solution(q));
        assert forall|a: int, b: int| 0 <= a < views.len() && 0 <= b < views.len() && a != b implies views[a]
            != views[b] by {
            assert(views[a] == rows_board(orderings@[a]@) && views[b] == rows_board(orderings@[b]@));
            if a < b {
                assert(orderings@[a]@ != orderings@[b]@);
            } else {
                assert(orderings@[b]@ != orderings@[a]@);
            }
            let pa = orderings@[a]@;
            let pb = orderings@[b]@;
            if views[a] == views[b] {
                assert(pa.len() == views[a].len() && pb.len() == views[b].len());
                assert forall|t: int| 0 <= t < pa.len() implies pa[t] == pb[t] by {
                    assert(views[a][t] == Some(pa[t]) && views[b][t] == Some(pb[t]));
                }
                assert(pa =~= pb);
            }
        }
        lemma_filter_no_duplicates(views, |q: Seq<Option<usize>>| valid_solution(q));
        assert forall|i: int, j: int| 0 <= i < j < solutions@.len() implies solutions@[i]@
            != solutions@[j]@ by {
            assert(solutions@.map_values(|b: NQueens| b@)[i] == solutions@[i]@);
            assert(solutions@.map_values(|b: NQueens| b@)[j] == solutions@[j]@);
        }
        assert(solutions@.map_values(|b: NQueens| b@) == kept);
        assert forall|k: int| 0 <= k < solutions@.len() implies (#[trigger] solutions@[k]).wf()
            && solutions@[k]@.len() == size && valid_solution(solutions@[k]@) by {
            assert(solutions@.map_values(|b: NQueens| b@)[k] == solutions@[k]@);
            assert(kept[k] == solutions@[k]@);
            assert(kept.contains(kept[k]));
            assert(views.contains(kept[k]));
            let t = choose|t: int| 0 <= t < views.len() && views[t] == kept[k];
            assert(views[t] == boards@[t]@);
        }
        assert forall|p: Seq<usize>|
            is_permutation_of_range(p, size as nat) && valid_solution(rows_board(p)) implies exists|k: int|
                0 <= k < solutions@.len() && (#[trigger] solutions@[k])@ == rows_board(p) by {
            let t = choose|t: int| 0 <= t < orderings@.len() && (#[trigger] orderings@[t])@ == p;
            assert(views[t] == boards@[t]@);
            assert(kept.contains(views[t]));
            let k = choose|k: int| 0 <= k < kept.len() && kept[k] == views[t];
            assert(solutions@.map_values(|b: NQueens| b@)[k] == solutions@[k]@);
        }
        assert forall|q: Seq<Option<usize>>|
            q.len() == size && in_bounds(q) && #[trigger] valid_solution(q) implies exists|k: int|
                0 <= k < solutions@.len() && (#[trigger] solutions@[k])@ == q by {
            lemma_solution_rows_are_permutation(q);
            let p = q.map_values(|x: Option<usize>| x->0);
            assert(is_permutation_of_range(p, size as nat) && valid_solution(rows_board(p)));
        }
    }
    solutions
}

/// Relies on rayon's `into_par_iter().filter(..).collect()` into a `Vec`: keeps, in their
/// order, the boards on which the verified `is_valid` holds, checking them in parallel.
#[verifier::external_body]
fn keep_valid(boards: Vec<NQueens>) -> (r: Vec<NQueens>)
    ensures
        r@.map_values(|b: NQueens| b@) == boards@.map_values(|b: NQueens| b@).filter(
            |q: Seq<Option<usize>>| valid_solution(q),
        ),
{
    boards.into_par_iter().filter(|q| q.is_valid()).collect()
}

/// Relies on permutohedron's `Heap` iterator (Heap's algorithm) over `data`: it yields each
/// of the `n!` orderings of `data`, each a rearrangement of it. `Heap::new` panics on more
/// than `MAXHEAP` (16) elements.
#[verifier::external_body]
fn all_orderings(data: &mut Vec<usize>) -> (r: Vec<Vec<usize>>)
    requires
        old(data)@.len() <= 16,
    ensures
        forall|k: int|
            0 <= k < r@.len() ==> (#[trigger] r@[k])@.to_multiset() == old(data)@.to_multiset(),
        forall|p: Seq<usize>|
            #[trigger] p.to_multiset() == old(data)@.to_multiset() ==> exists|k: int|
                0 <= k < r@.len() && (#[trigger] r@[k])@ == p,
        old(data)@.no_duplicates() ==> forall|i: int, j: int|
            0 <= i < j < r@.len() ==> r@[i]@ != r@[j]@,
{
    permutohedron::Heap::new(data).collect()
}

} // verus!

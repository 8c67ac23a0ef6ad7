//! Problem model of the Maximum Diversity Problem: an immutable instance
//! (square distance matrix, number of items `input_size`, subset size
//! `solution_size`) together with the objective function, which sums the
//! distances over all unordered pairs of selected items.
use crate::matrix::DistanceMatrix;
use crate::matrix::mat_elems;
use crate::matrix::mat_side;
use vstd::prelude::*;
use vstd::set_lib::lemma_len_subset;

verus! {

/// Entry `(i, j)` of a square matrix of side `n`, stored row-major.
pub open spec fn ent(mat: Seq<u64>, n: int, i: int, j: int) -> int {
    mat[i * n + j] as int
}

/// The matrix is symmetric on `[0, n) x [0, n)`.
pub open spec fn symmetric(mat: Seq<u64>, n: int) -> bool {
    forall|i: int, j: int|
        0 <= i < n && 0 <= j < n ==> ent(mat, n, i, j) == #[trigger] ent(mat, n, j, i)
}

/// Sum of the distances from item `x` to every item of the sequence `s`.
pub open spec fn cross_sum(mat: Seq<u64>, n: int, x: int, s: Seq<usize>) -> int
    decreases s.len(),
{
    if s.len() == 0 {
        0
    } else {
        ent(mat, n, x, s[0] as int) + cross_sum(mat, n, x, s.skip(1))
    }
}

/// Sum of the distances over all unordered pairs of distinct positions of
/// `s`: the objective value of the selection `s`.
pub open spec fn pair_sum(mat: Seq<u64>, n: int, s: Seq<usize>) -> int
    decreases s.len(),
{
    if s.len() == 0 {
        0
    } else {
        cross_sum(mat, n, s[0] as int, s.skip(1)) + pair_sum(mat, n, s.skip(1))
    }
}

/// Set form of `cross_sum`, recursing over a chosen element.
pub open spec fn cross_set(mat: Seq<u64>, n: int, x: int, s: Set<usize>) -> int
    decreases s.len(),
{
    if s.finite() && s.len() > 0 {
        let y = s.choose();
        ent(mat, n, x, y as int) + cross_set(mat, n, x, s.remove(y))
    } else {
        0
    }
}

/// Set form of `pair_sum`: the objective value of a set of selected items.
/// For a symmetric matrix it does not depend on the order in which the
/// recursion picks elements (`lemma_pair_set_remove`).
pub open spec fn pair_set(mat: Seq<u64>, n: int, s: Set<usize>) -> int
    decreases s.len(),
{
    if s.finite() && s.len() > 0 {
        let y = s.choose();
        cross_set(mat, n, y as int, s.remove(y)) + pair_set(mat, n, s.remove(y))
    } else {
        0
    }
}

/// `cross_set` can be unfolded at any member, not only the chosen one.
pub proof fn lemma_cross_set_remove(mat: Seq<u64>, n: int, x: int, s: Set<usize>, y: usize)
    requires
        s.finite(),
        s.contains(y),
    ensures
        cross_set(mat, n, x, s) == ent(mat, n, x, y as int) + cross_set(mat, n, x, s.remove(y)),
    decreases s.len(),
{
    let c = s.choose();
    if c == y {
    } else {
        lemma_cross_set_remove(mat, n, x, s.remove(c), y);
        lemma_cross_set_remove(mat, n, x, s.remove(y), c);
        assert(s.remove(c).remove(y) == s.remove(y).remove(c));
    }
}

/// `pair_set` can be unfolded at any member, not only the chosen one,
/// provided the matrix is symmetric on the members involved.
pub proof fn lemma_pair_set_remove(mat: Seq<u64>, n: int, s: Set<usize>, y: usize)
    requires
        s.finite(),
        s.contains(y),
        symmetric(mat, n),
        forall|v: usize| s.contains(v) ==> (v as int) < n,
    ensures
        pair_set(mat, n, s) == cross_set(mat, n, y as int, s.remove(y)) + pair_set(
            mat,
            n,
            s.remove(y),
        ),
    decreases s.len(),
{
    let c = s.choose();
    if c == y {
    } else {
        let rest = s.remove(c).remove(y);
        assert(rest == s.remove(y).remove(c));
        lemma_pair_set_remove(mat, n, s.remove(c), y);
        lemma_pair_set_remove(mat, n, s.remove(y), c);
        lemma_cross_set_remove(mat, n, c as int, s.remove(c), y);
        lemma_cross_set_remove(mat, n, y as int, s.remove(y), c);
        assert(ent(mat, n, c as int, y as int) == ent(mat, n, y as int, c as int));
    }
}

/// Bounds of `cross_sum`: non-negative, and at most one maximal entry per
/// summand.
pub proof fn lemma_cross_sum_bounds(mat: Seq<u64>, n: int, x: int, s: Seq<usize>)
    ensures
        0 <= cross_sum(mat, n, x, s) <= s.len() * (u64::MAX as int),
    decreases s.len(),
{
    if s.len() > 0 {
        lemma_cross_sum_bounds(mat, n, x, s.skip(1));
    }
}

/// Bounds of `pair_sum`: non-negative, and at most `len * len` maximal
/// entries.
pub proof fn lemma_pair_sum_bounds(mat: Seq<u64>, n: int, s: Seq<usize>)
    ensures
        0 <= pair_sum(mat, n, s) <= s.len() * s.len() * (u64::MAX as int),
    decreases s.len(),
{
    if s.len() > 0 {
        let l = s.len() as int;
        let m = u64::MAX as int;
        lemma_pair_sum_bounds(mat, n, s.skip(1));
        lemma_cross_sum_bounds(mat, n, s[0] as int, s.skip(1));
        assert((l - 1) * m + (l - 1) * (l - 1) * m <= l * l * m) by (nonlinear_arith)
            requires
                l >= 1,
                m >= 0,
        ;
    }
}

/// The set of all item indices below `n`.
pub open spec fn below_set(n: nat) -> Set<usize> {
    Set::new(|j: usize| (j as nat) < n)
}

/// `below_set(n)` is finite and has exactly `n` members.
pub proof fn lemma_below_set(n: nat)
    requires
        n <= usize::MAX,
    ensures
        below_set(n).finite(),
        below_set(n).len() == n,
    decreases n,
{
    if n == 0 {
        assert(below_set(0) =~= Set::empty());
    } else {
        lemma_below_set((n - 1) as nat);
        assert(below_set(n) =~= below_set((n - 1) as nat).insert(((n - 1) as nat) as usize));
    }
}

/// A duplicate-free sequence of indices below `n` has at most `n` entries.
pub proof fn lemma_distinct_in_range_len(s: Seq<usize>, n: nat)
    requires
        n <= usize::MAX,
        s.no_duplicates(),
        forall|t: int| 0 <= t < s.len() ==> (#[trigger] s[t] as nat) < n,
    ensures
        s.len() <= n,
        s.to_set().finite(),
        s.to_set().len() == s.len(),
{
    s.unique_seq_to_set();
    lemma_below_set(n);
    assert(s.to_set().subset_of(below_set(n))) by {
        assert forall|v: usize| s.to_set().contains(v) implies below_set(n).contains(v) by {
            let t = choose|t: int| 0 <= t < s.len() && s[t] == v;
            assert((s[t] as nat) < n);
        }
    }
    lemma_len_subset(s.to_set(), below_set(n));
}

/// Dropping the head of a duplicate-free sequence removes exactly that
/// element from its set of values.
pub proof fn lemma_to_set_skip(s: Seq<usize>)
    requires
        s.len() > 0,
        s.no_duplicates(),
    ensures
        s.to_set().contains(s[0]),
        s.to_set().remove(s[0]) == s.skip(1).to_set(),
        s.skip(1).no_duplicates(),
{
    assert(s.to_set().contains(s[0])) by {
        assert(s.contains(s[0]));
    }
    assert forall|v: usize| s.skip(1).to_set().contains(v) implies s.to_set().remove(
        s[0],
    ).contains(v) by {
        let i = choose|i: int| 0 <= i < s.skip(1).len() && s.skip(1)[i] == v;
        assert(s[i + 1] == v);
        assert(s.contains(v));
    }
    assert forall|v: usize| s.to_set().remove(s[0]).contains(v) implies s.skip(
        1,
    ).to_set().contains(v) by {
        let i = choose|i: int| 0 <= i < s.len() && s[i] == v;
        assert(i >= 1);
        assert(s.skip(1)[i - 1] == v);
        assert(s.skip(1).contains(v));
    }
    assert(s.to_set().remove(s[0]) =~= s.skip(1).to_set());
}

/// `cross_sum` over a duplicate-free sequence equals `cross_set` over its
/// set of values.
pub proof fn lemma_cross_seq_set(mat: Seq<u64>, n: int, x: int, s: Seq<usize>)
    requires
        s.no_duplicates(),
    ensures
        cross_sum(mat, n, x, s) == cross_set(mat, n, x, s.to_set()),
    decreases s.len(),
{
    if s.len() == 0 {
        assert(s.to_set() =~= Set::empty());
    } else {
        lemma_to_set_skip(s);
        lemma_cross_seq_set(mat, n, x, s.skip(1));
        s.unique_seq_to_set();
        lemma_cross_set_remove(mat, n, x, s.to_set(), s[0]);
    }
}

/// `pair_sum` over a duplicate-free, in-range sequence equals `pair_set`
/// over its set of values, provided the matrix is symmetric. Hence the
/// objective depends only on which items are selected, not on their order.
pub proof fn lemma_pair_seq_set(mat: Seq<u64>, n: int, s: Seq<usize>)
    requires
        s.no_duplicates(),
        symmetric(mat, n),
        forall|t: int| 0 <= t < s.len() ==> (#[trigger] s[t] as int) < n,
    ensures
        pair_sum(mat, n, s) == pair_set(mat, n, s.to_set()),
    decreases s.len(),
{
    if s.len() == 0 {
        assert(s.to_set() =~= Set::empty());
    } else {
        lemma_to_set_skip(s);
        assert(forall|t: int|
            0 <= t < s.skip(1).len() ==> (#[trigger] s.skip(1)[t] as int) < n) by {
            assert(forall|t: int| 0 <= t < s.skip(1).len() ==> s.skip(1)[t] == s[t + 1]);
        }
        lemma_pair_seq_set(mat, n, s.skip(1));
        lemma_cross_seq_set(mat, n, s[0] as int, s.skip(1));
        s.unique_seq_to_set();
        assert(forall|v: usize| s.to_set().contains(v) ==> (v as int) < n) by {
            assert(forall|v: usize| s.to_set().contains(v) ==> s.contains(v));
        }
        lemma_pair_set_remove(mat, n, s.to_set(), s[0]);
    }
}

/// A solution: the selected item indices. Decoders return solutions whose
/// indices are distinct, in range, and exactly `solution_size` many.
pub struct MdpSolution {
    pub elements: Vec<usize>,
}

impl MdpSolution {
    /// The solution invariant with respect to an instance.
    pub open spec fn valid(&self, problem: MaximumDiversity) -> bool {
        &&& self.elements@.len() == problem.solution_size
        &&& self.elements@.no_duplicates()
        &&& forall|t: int|
            0 <= t < self.elements@.len() ==> (#[trigger] self.elements@[t] as int) < problem.n()
    }
}

/// A Maximum Diversity Problem instance: `input_size` items, a square
/// symmetric distance matrix over them, and the number `solution_size` of
/// items a solution selects. Immutable after construction.
pub struct MaximumDiversity {
    pub matrix: DistanceMatrix,
    pub input_size: usize,
    pub solution_size: usize,
}

impl MaximumDiversity {
    /// The matrix elements, row-major.
    pub open spec fn mat(&self) -> Seq<u64> {
        mat_elems(self.matrix)
    }

    /// The number of candidate items.
    pub open spec fn n(&self) -> int {
        self.input_size as int
    }

    /// Structural well-formedness: the matrix is square of side
    /// `input_size`, fully populated, and `0 < solution_size <= input_size`.
    pub open spec fn wf(&self) -> bool {
        &&& mat_side(self.matrix) == self.input_size
        &&& self.mat().len() == self.n() * self.n()
        &&& self.n() * self.n() <= usize::MAX
        &&& 0 < self.solution_size <= self.input_size
    }

    /// Sum of the distances over all unordered pairs of distinct items of
    /// the solution.
    pub fn objective_function(&self, solution: &MdpSolution) -> (r: u128)
        requires
            self.wf(),
            solution.elements@.no_duplicates(),
            forall|t: int|
                0 <= t < solution.elements@.len() ==> (#[trigger] solution.elements@[t] as int)
                    < self.n(),
        ensures
            r == pair_sum(self.mat(), self.n(), solution.elements@),
    {
        let ghost m = self.mat();
        let ghost n = self.n();
        let ghost e = solution.elements@;
        proof {
            lemma_distinct_in_range_len(e, self.input_size as nat);
            lemma_pair_sum_bounds(m, n, e);
            assert(e.len() * e.len() * (u64::MAX as int) < u128::MAX) by (nonlinear_arith)
                requires
                    0 <= e.len(),
                    e.len() <= n,
                    n * n <= usize::MAX as int,
                    usize::MAX as int <= u64::MAX as int,
            ;
            assert(e.skip(0) =~= e);
        }
        let l = solution.elements.len();
        let mut acc: u128 = 0;
        let mut i: usize = 0;
        while i < l
            invariant
                self.wf(),
                solution.elements@ == e,
                m == self.mat(),
                n == self.n(),
                l == e.len(),
                e.no_duplicates(),
                forall|t: int| 0 <= t < e.len() ==> (#[trigger] e[t] as int) < n,
                0 <= i <= l,
                acc == pair_sum(m, n, e) - pair_sum(m, n, e.skip(i as int)),
                pair_sum(m, n, e) < u128::MAX,
            decreases l - i,
        {
            let x = solution.elements[i];
            let mut j: usize = i + 1;
            proof {
                assert(e.skip(i as int)[0] == e[i as int]);
                assert(e.skip(i as int).skip(1) =~= e.skip(i as int + 1));
            }
            while j < l
                invariant
                    self.wf(),
                    solution.elements@ == e,
                    m == self.mat(),
                    n == self.n(),
                    l == e.len(),
                    e.no_duplicates(),
                    forall|t: int| 0 <= t < e.len() ==> (#[trigger] e[t] as int) < n,
                    0 <= i < l,
                    i < j <= l,
                    x == e[i as int],
                    acc == pair_sum(m, n, e) - pair_sum(m, n, e.skip(i as int + 1)) - cross_sum(
                        m,
                        n,
                        x as int,
                        e.skip(j as int),
                    ),
                    pair_sum(m, n, e) < u128::MAX,
                decreases l - j,
            {
                let y = solution.elements[j];
                let d = self.matrix.get(x, y);
                proof {
                    assert(e.skip(j as int)[0] == e[j as int]);
                    assert(e.skip(j as int).skip(1) =~= e.skip(j as int + 1));
                    assert(d == ent(m, n, x as int, y as int)) by {
                        assert(0 <= (x as int) * n + (y as int) < m.len()) by (nonlinear_arith)
                            requires
                                0 <= (x as int) < n,
                                0 <= (y as int) < n,
                                m.len() == n * n,
                        ;
                    }
                    lemma_pair_sum_bounds(m, n, e.skip(i as int + 1));
                    lemma_cross_sum_bounds(m, n, x as int, e.skip(j as int + 1));
                }
                acc = acc + d as u128;
                j = j + 1;
            }
            proof {
                assert(e.skip(l as int) =~= Seq::<usize>::empty());
            }
            i = i + 1;
        }
        proof {
            assert(e.skip(l as int) =~= Seq::<usize>::empty());
        }
        acc
    }
}

} // verus!

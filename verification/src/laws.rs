//! Laws of the library, stated over the spec functions its contracts use.
use crate::decoder::Decoder;
use crate::problem::below_set;
use crate::problem::lemma_below_set;
use crate::problem::lemma_distinct_in_range_len;
use crate::problem::lemma_pair_seq_set;
use crate::problem::pair_set;
use crate::problem::pair_sum;
use crate::problem::symmetric;
use crate::rank_decoder::lemma_perm_values;
use crate::rank_decoder::lemma_sorted_perm_ranks;
use crate::rank_decoder::lower_keyed;
use crate::rank_decoder::rank_selection;
use crate::rank_decoder::sorted_perm;
use vstd::prelude::*;
use vstd::seq_lib::group_to_multiset_ensures;
use vstd::set_lib::lemma_len_subset;

verus! {

broadcast use group_to_multiset_ensures;

/// The objective is order-independent: two selections of the same items —
/// one a permutation of the other — have the same objective value on any
/// symmetric matrix.
pub proof fn lemma_objective_permutation_invariant(
    mat: Seq<u64>,
    n: int,
    s1: Seq<usize>,
    s2: Seq<usize>,
)
    requires
        symmetric(mat, n),
        s1.no_duplicates(),
        s2.no_duplicates(),
        forall|t: int| 0 <= t < s1.len() ==> (#[trigger] s1[t] as int) < n,
        forall|t: int| 0 <= t < s2.len() ==> (#[trigger] s2[t] as int) < n,
        s1.to_multiset() == s2.to_multiset(),
    ensures
        pair_sum(mat, n, s1) == pair_sum(mat, n, s2),
{
    assert(s1.to_set() =~= s2.to_set()) by {
        assert forall|v: usize| s1.to_set().contains(v) <==> s2.to_set().contains(v) by {
            assert(s1.contains(v) <==> s1.to_multiset().count(v) > 0);
            assert(s2.contains(v) <==> s2.to_multiset().count(v) > 0);
        }
    }
    lemma_pair_seq_set(mat, n, s1);
    lemma_pair_seq_set(mat, n, s2);
}

/// The selection `s` relabelled by `f`: item `i` becomes item `f[i]`.
pub open spec fn relabel_seq(f: Seq<usize>, s: Seq<usize>) -> Seq<usize> {
    Seq::new(s.len(), |t: int| f[s[t] as int])
}

/// The matrices agree under the relabelling `f`: the distance of `f[i]`
/// and `f[j]` in `mat2` is the distance of `i` and `j` in `mat1`.
pub open spec fn relabelled_matrix(
    mat1: Seq<u64>,
    mat2: Seq<u64>,
    n: int,
    f: Seq<usize>,
) -> bool {
    &&& f.len() == n
    &&& forall|t: int| 0 <= t < n ==> (#[trigger] f[t] as int) < n
    &&& forall|i: int, j: int|
        0 <= i < n && 0 <= j < n ==> #[trigger] crate::problem::ent(
            mat2,
            n,
            f[i] as int,
            f[j] as int,
        ) == crate::problem::ent(mat1, n, i, j)
}

proof fn lemma_cross_relabel(mat1: Seq<u64>, mat2: Seq<u64>, n: int, f: Seq<usize>, x: int, s: Seq<usize>)
    requires
        relabelled_matrix(mat1, mat2, n, f),
        0 <= x < n,
        forall|t: int| 0 <= t < s.len() ==> 0 <= (#[trigger] s[t] as int) < n,
    ensures
        crate::problem::cross_sum(mat2, n, f[x] as int, relabel_seq(f, s)) == crate::problem::cross_sum(
            mat1,
            n,
            x,
            s,
        ),
    decreases s.len(),
{
    if s.len() > 0 {
        assert(relabel_seq(f, s).skip(1) =~= relabel_seq(f, s.skip(1)));
        assert(forall|t: int| 0 <= t < s.skip(1).len() ==> s.skip(1)[t] == s[t + 1]);
        lemma_cross_relabel(mat1, mat2, n, f, x, s.skip(1));
    }
}

/// The objective is invariant under relabelling both matrix axes and the
/// selection consistently.
pub proof fn lemma_objective_relabel_invariant(
    mat1: Seq<u64>,
    mat2: Seq<u64>,
    n: int,
    f: Seq<usize>,
    s: Seq<usize>,
)
    requires
        relabelled_matrix(mat1, mat2, n, f),
        forall|t: int| 0 <= t < s.len() ==> 0 <= (#[trigger] s[t] as int) < n,
    ensures
        pair_sum(mat2, n, relabel_seq(f, s)) == pair_sum(mat1, n, s),
    decreases s.len(),
{
    if s.len() > 0 {
        assert(relabel_seq(f, s).skip(1) =~= relabel_seq(f, s.skip(1)));
        assert(forall|t: int| 0 <= t < s.skip(1).len() ==> s.skip(1)[t] == s[t + 1]);
        lemma_cross_relabel(mat1, mat2, n, f, s[0] as int, s.skip(1));
        lemma_objective_relabel_invariant(mat1, mat2, n, f, s.skip(1));
    }
}

/// Decoding is deterministic: a decoder in a given state assigns one
/// fitness value to a key vector, and `decode` returns exactly that value
/// (its `ensures`), so two calls on an identical decoder state and an
/// identical member agree.
pub proof fn lemma_decode_deterministic<D: Decoder>(d1: D, d2: D, m1: Seq<u64>, m2: Seq<u64>)
    requires
        d1 == d2,
        m1 == m2,
    ensures
        d1.fitness_of(m1) == d2.fitness_of(m2),
{
}

/// The rank selection consists of exactly the items whose rank — the number
/// of items with a lower key, ties resolved by index — is below
/// `solution_size`: the `k` smallest-keyed items.
pub proof fn lemma_selection_is_k_smallest(keys: Seq<u64>, p: Seq<usize>, k: int)
    requires
        keys.len() <= usize::MAX,
        sorted_perm(keys, p),
        0 <= k <= p.len(),
    ensures
        forall|v: usize|
            p.take(k).contains(v) <==> ((v as int) < keys.len() && (#[trigger] lower_keyed(
                keys,
                v,
            )).finite() && lower_keyed(keys, v).len() < k),
{
    lemma_sorted_perm_ranks(keys, p);
    lemma_perm_values(p, keys.len());
    assert forall|v: usize|
        p.take(k).contains(v) <==> ((v as int) < keys.len() && (#[trigger] lower_keyed(
            keys,
            v,
        )).finite() && lower_keyed(keys, v).len() < k) by {
        if p.take(k).contains(v) {
            let t = choose|t: int| 0 <= t < k && p.take(k)[t] == v;
            assert(p[t] == v);
        }
        if (v as int) < keys.len() && lower_keyed(keys, v).finite() && lower_keyed(keys, v).len()
            < k {
            assert(p.contains(v));
            let t = choose|t: int| 0 <= t < p.len() && p[t] == v;
            assert(lower_keyed(keys, p[t]).len() == t);
            assert(p.take(k)[t] == v);
        }
    }
}

/// Permuting equal-valued keys does not change what the rank decoder
/// selects: exchanging two equal keys leaves the key vector — and so the
/// selection — unchanged.
pub proof fn lemma_equal_key_swap(keys: Seq<u64>, a: int, b: int, k: int)
    requires
        0 <= a < keys.len(),
        0 <= b < keys.len(),
        keys[a] == keys[b],
    ensures
        rank_selection(keys.update(a, keys[b]).update(b, keys[a]), k) == rank_selection(keys, k),
{
    assert(keys.update(a, keys[b]).update(b, keys[a]) =~= keys);
}

/// A full-size selection — `solution_size == input_size` — selects every
/// item, and its objective is the sum of all pairwise distances.
pub proof fn lemma_full_selection_total(mat: Seq<u64>, n: nat, s: Seq<usize>)
    requires
        n <= usize::MAX,
        symmetric(mat, n as int),
        s.no_duplicates(),
        s.len() == n,
        forall|t: int| 0 <= t < s.len() ==> (#[trigger] s[t] as nat) < n,
    ensures
        s.to_set() == below_set(n),
        pair_sum(mat, n as int, s) == pair_set(mat, n as int, below_set(n)),
{
    lemma_below_set(n);
    lemma_distinct_in_range_len(s, n);
    assert(s.to_set() =~= below_set(n)) by {
        assert forall|v: usize| below_set(n).contains(v) implies s.to_set().contains(v) by {
            if !s.to_set().contains(v) {
                assert(s.to_set().subset_of(below_set(n).remove(v))) by {
                    assert forall|w: usize| s.to_set().contains(w) implies below_set(n).remove(
                        v,
                    ).contains(w) by {
                        let t = choose|t: int| 0 <= t < s.len() && s[t] == w;
                    }
                }
                lemma_len_subset(s.to_set(), below_set(n).remove(v));
            }
        }
        assert forall|v: usize| s.to_set().contains(v) implies below_set(n).contains(v) by {
            let t = choose|t: int| 0 <= t < s.len() && s[t] == v;
        }
    }
    lemma_pair_seq_set(mat, n as int, s);
}

/// A selection of one single item has objective zero: there are no pairs.
pub proof fn lemma_singleton_objective(mat: Seq<u64>, n: int, s: Seq<usize>)
    requires
        s.len() == 1,
    ensures
        pair_sum(mat, n, s) == 0,
{
    assert(s.skip(1) =~= Seq::<usize>::empty());
    assert(crate::problem::cross_sum(mat, n, s[0] as int, Seq::<usize>::empty()) == 0);
    assert(pair_sum(mat, n, Seq::<usize>::empty()) == 0);
}

} // verus!

//! The rank decoder: a member is one key per item. The items are ordered by
//! ascending key, ties broken by original index (the order of a stable
//! sort), and the first `solution_size` items of that order form the
//! solution. The sort is an insertion sort of an index permutation, so the
//! selection is a pure function of the key vector.
use crate::decoder::Decoder;
use crate::problem::MaximumDiversity;
use crate::problem::MdpSolution;
use crate::problem::pair_sum;
use vstd::prelude::*;
use vstd::seq_lib::group_to_multiset_ensures;
use vstd::set_lib::lemma_len_subset;

verus! {

broadcast use group_to_multiset_ensures;

/// The total order the decoder sorts by: key ascending, ties by index.
/// `a` and `b` are item indices, `keys` the member vector.
pub open spec fn key_lt(keys: Seq<u64>, a: usize, b: usize) -> bool {
    ||| keys[a as int] < keys[b as int]
    ||| (keys[a as int] == keys[b as int] && a < b)
}

/// The identity permutation of `[0, n)`.
pub open spec fn ident_seq(n: nat) -> Seq<usize> {
    Seq::new(n, |i: int| i as usize)
}

/// `p` lists all item indices of `[0, keys.len())` in ascending `key_lt`
/// order: it is the unique result of stably sorting the items by key.
pub open spec fn sorted_perm(keys: Seq<u64>, p: Seq<usize>) -> bool {
    &&& p.len() == keys.len()
    &&& p.to_multiset() == ident_seq(keys.len()).to_multiset()
    &&& forall|a: int, b: int| 0 <= a < b < p.len() ==> key_lt(keys, #[trigger] p[a], #[trigger] p[b])
}

/// The items with a strictly lower key than item `i` (ties resolved by
/// index): the items a stable ascending sort places before `i`.
pub open spec fn lower_keyed(keys: Seq<u64>, i: usize) -> Set<usize> {
    Set::new(|j: usize| (j as int) < keys.len() && key_lt(keys, j, i))
}

/// A sequence whose multiset of values is that of the identity permutation
/// is a duplicate-free list of all indices below `n`.
pub proof fn lemma_perm_values(p: Seq<usize>, n: nat)
    requires
        n <= usize::MAX,
        p.to_multiset() == ident_seq(n).to_multiset(),
    ensures
        p.len() == n,
        p.no_duplicates(),
        forall|t: int| 0 <= t < p.len() ==> (#[trigger] p[t] as nat) < n,
        forall|v: usize| (v as nat) < n ==> p.contains(v),
{
    let ident = ident_seq(n);
    assert(ident.no_duplicates()) by {
        assert forall|a: int, b: int| 0 <= a < b < ident.len() implies ident[a] != ident[b] by {
            assert(ident[a] == a as usize);
            assert(ident[b] == b as usize);
        }
    }
    assert(p.len() == n) by {
        assert(p.to_multiset().len() == p.len());
        assert(ident.to_multiset().len() == ident.len());
    }
    ident.lemma_multiset_has_no_duplicates();
    p.lemma_multiset_has_no_duplicates_conv();
    assert forall|t: int| 0 <= t < p.len() implies (#[trigger] p[t] as nat) < n by {
        assert(p.contains(p[t]));
        assert(ident.to_multiset().count(p[t]) > 0);
        assert(ident.contains(p[t]));
        let u = choose|u: int| 0 <= u < ident.len() && ident[u] == p[t];
        assert(ident[u] == u as usize);
    }
    assert forall|v: usize| (v as nat) < n implies p.contains(v) by {
        assert(ident[v as int] == v);
        assert(ident.contains(v));
        assert(p.to_multiset().count(v) > 0);
    }
}

/// Exchanging two positions of a sequence keeps its multiset of values.
pub proof fn lemma_swap_multiset(s: Seq<usize>, i: int, j: int)
    requires
        0 <= i < s.len(),
        0 <= j < s.len(),
        i != j,
    ensures
        s.update(i, s[j]).update(j, s[i]).to_multiset() == s.to_multiset(),
{
    broadcast use vstd::seq_lib::to_multiset_update;
    broadcast use vstd::multiset::group_multiset_axioms;

    let s1 = s.update(i, s[j]);
    assert(s1[j] == s[j]);
    assert(s1.update(j, s[i]).to_multiset() =~= s.to_multiset()) by {
        assert(s1.to_multiset() == s.to_multiset().insert(s[j]).remove(s[i]));
        assert(s1.update(j, s[i]).to_multiset() == s1.to_multiset().insert(s[i]).remove(s1[j]));
        assert(s.to_multiset().count(s[i]) > 0) by {
            assert(s.contains(s[i]));
        }
    }
}

/// Fills `aux` with the permutation of `[0, n)` that orders the items by
/// ascending key, ties by index: an insertion sort of the identity
/// permutation under `key_lt`.
pub(crate) fn rank_permutation(member: &[u64], aux: &mut Vec<usize>)
    requires
        old(aux).len() == member.len(),
    ensures
        final(aux).len() == member.len(),
        sorted_perm(member@, final(aux)@),
{
    let ghost keys = member@;
    let n = member.len();
    let mut i: usize = 0;
    while i < n
        invariant
            aux.len() == n,
            n == keys.len(),
            0 <= i <= n,
            forall|t: int| 0 <= t < i ==> aux@[t] == t as usize,
        decreases n - i,
    {
        aux.set(i, i);
        i = i + 1;
    }
    proof {
        assert(aux@ =~= ident_seq(n as nat));
    }
    let mut i: usize = 1;
    while i < n
        invariant
            aux.len() == n,
            keys == member@,
            n == keys.len(),
            1 <= i <= n || (n == 0 && i == 1),
            aux@.to_multiset() == ident_seq(n as nat).to_multiset(),
            forall|t: int| 0 <= t < n ==> (#[trigger] aux@[t] as int) < n,
            forall|p: int, q: int|
                0 <= p < q < i ==> key_lt(keys, #[trigger] aux@[p], #[trigger] aux@[q]),
        decreases n - i,
    {
        let mut j: usize = i;
        while j > 0 && (member[aux[j]] < member[aux[j - 1]] || (member[aux[j]] == member[aux[j
            - 1]] && aux[j] < aux[j - 1]))
            invariant
                aux.len() == n,
                keys == member@,
                n == keys.len(),
                0 <= j <= i < n,
                aux@.to_multiset() == ident_seq(n as nat).to_multiset(),
                forall|t: int| 0 <= t < n ==> (#[trigger] aux@[t] as int) < n,
                forall|p: int, q: int|
                    0 <= p < q <= i && q != j ==> key_lt(keys, #[trigger] aux@[p], #[trigger] aux@[q]),
            decreases j,
        {
            proof {
                lemma_perm_values(aux@, n as nat);
                lemma_swap_multiset(aux@, j - 1, j as int);
            }
            let a = aux[j - 1];
            let b = aux[j];
            aux.set(j - 1, b);
            aux.set(j, a);
            j = j - 1;
        }
        proof {
            lemma_perm_values(aux@, n as nat);
            if j > 0 {
                assert(aux@[j as int] != aux@[j - 1]) by {
                    if aux@[j as int] == aux@[j - 1] {
                        assert(!aux@.no_duplicates());
                    }
                }
                assert(key_lt(keys, aux@[j - 1], aux@[j as int]));
            }
            assert forall|p: int, q: int| 0 <= p < q <= i implies key_lt(
                keys,
                #[trigger] aux@[p],
                #[trigger] aux@[q],
            ) by {
                if q == j {
                    assert(key_lt(keys, aux@[j - 1], aux@[j as int]));
                    if p < j - 1 {
                        assert(key_lt(keys, aux@[p], aux@[j - 1]));
                    }
                }
            }
        }
        i = i + 1;
    }
    proof {
        if n == 0 {
            assert(aux@ =~= ident_seq(0));
        }
    }
}

/// In a sorted permutation, the items placed before position `r` are
/// exactly the items with a lower key than the item at `r`: the item at
/// position `r` has rank `r`.
pub proof fn lemma_sorted_perm_ranks(keys: Seq<u64>, p: Seq<usize>)
    requires
        keys.len() <= usize::MAX,
        sorted_perm(keys, p),
    ensures
        forall|r: int|
            0 <= r < p.len() ==> (#[trigger] lower_keyed(keys, p[r])).finite() && lower_keyed(
                keys,
                p[r],
            ).len() == r,
{
    lemma_perm_values(p, keys.len());
    assert forall|r: int|
        0 <= r < p.len() implies (#[trigger] lower_keyed(keys, p[r])).finite() && lower_keyed(
        keys,
        p[r],
    ).len() == r by {
        let lk = lower_keyed(keys, p[r]);
        let front = p.take(r);
        assert(front.no_duplicates()) by {
            assert(forall|a: int, b: int| 0 <= a < b < r ==> front[a] == p[a] && front[b] == p[b]);
        }
        assert forall|j: usize| lk.contains(j) implies front.to_set().contains(j) by {
            assert(p.contains(j));
            let t = choose|t: int| 0 <= t < p.len() && p[t] == j;
            assert(t < r) by {
                if t > r {
                    assert(key_lt(keys, p[r], p[t]));
                }
            }
            assert(front[t] == j);
            assert(front.contains(j));
        }
        assert forall|j: usize| front.to_set().contains(j) implies lk.contains(j) by {
            let t = choose|t: int| 0 <= t < front.len() && front[t] == j;
            assert(p[t] == j);
            assert(key_lt(keys, p[t], p[r]));
        }
        assert(lk =~= front.to_set());
        front.unique_seq_to_set();
    }
}

/// Two items with lower-key sets of equal size are the same item: the rank
/// determines the item, so a sorted permutation is unique.
pub proof fn lemma_rank_injective(keys: Seq<u64>, a: usize, b: usize)
    requires
        keys.len() <= usize::MAX,
        (a as int) < keys.len(),
        (b as int) < keys.len(),
        lower_keyed(keys, a).finite(),
        lower_keyed(keys, b).finite(),
        lower_keyed(keys, a).len() == lower_keyed(keys, b).len(),
    ensures
        a == b,
{
    if a != b {
        if key_lt(keys, a, b) {
            lemma_lower_keyed_strict(keys, a, b);
        } else {
            assert(key_lt(keys, b, a));
            lemma_lower_keyed_strict(keys, b, a);
        }
    }
}

/// An item with a lower key has a strictly smaller lower-key set.
proof fn lemma_lower_keyed_strict(keys: Seq<u64>, a: usize, b: usize)
    requires
        (a as int) < keys.len(),
        (b as int) < keys.len(),
        key_lt(keys, a, b),
        lower_keyed(keys, b).finite(),
    ensures
        lower_keyed(keys, a).len() < lower_keyed(keys, b).len(),
{
    let la = lower_keyed(keys, a);
    let lb = lower_keyed(keys, b);
    assert(la.insert(a).subset_of(lb)) by {
        assert forall|c: usize| la.insert(a).contains(c) implies lb.contains(c) by {
            if la.contains(c) {
                assert(key_lt(keys, c, a));
            }
        }
    }
    lemma_len_subset(la.insert(a), lb);
    assert(!la.contains(a));
    assert(la.subset_of(la.insert(a)));
    lemma_len_subset(la, la.insert(a));
    assert(la.insert(a).len() == la.len() + 1);
}

/// A key vector has at most one sorted permutation.
pub proof fn lemma_sorted_perm_unique(keys: Seq<u64>, p1: Seq<usize>, p2: Seq<usize>)
    requires
        keys.len() <= usize::MAX,
        sorted_perm(keys, p1),
        sorted_perm(keys, p2),
    ensures
        p1 == p2,
{
    lemma_sorted_perm_ranks(keys, p1);
    lemma_sorted_perm_ranks(keys, p2);
    lemma_perm_values(p1, keys.len());
    lemma_perm_values(p2, keys.len());
    assert forall|r: int| 0 <= r < p1.len() implies p1[r] == p2[r] by {
        lemma_rank_injective(keys, p1[r], p2[r]);
    }
    assert(p1 =~= p2);
}

/// The sorted permutation of a key vector (unique by
/// `lemma_sorted_perm_unique`).
pub open spec fn the_sorted_perm(keys: Seq<u64>) -> Seq<usize> {
    choose|p: Seq<usize>| sorted_perm(keys, p)
}

/// The selection of the rank decoder: the `k` lowest-keyed items, in
/// ascending key order.
pub open spec fn rank_selection(keys: Seq<u64>, k: int) -> Seq<usize> {
    the_sorted_perm(keys).take(k)
}

/// The rank decoding strategy: a member holds one key per item
/// (`member_size == input_size`); the `solution_size` lowest-keyed items,
/// ties broken by index, form the solution. The decoder owns a reusable
/// scratch permutation buffer, so one instance must not decode concurrently
/// from two threads; it never mutates the shared problem instance.
pub struct CurrentDecoder<'a> {
    auxiliary: Vec<usize>,
    problem: &'a MaximumDiversity,
}

impl<'a> CurrentDecoder<'a> {
    /// The instance this decoder reads.
    pub closed spec fn problem(&self) -> MaximumDiversity {
        *self.problem
    }

    /// The scratch buffer is sized to the instance and the instance is
    /// well-formed.
    pub closed spec fn inv(&self) -> bool {
        &&& self.auxiliary@.len() == self.problem.input_size
        &&& self.problem.wf()
    }

    pub fn new(problem: &'a MaximumDiversity) -> (r: Self)
        requires
            problem.wf(),
        ensures
            r.inv(),
            r.problem() == *problem,
    {
        CurrentDecoder { auxiliary: vec![0usize; problem.input_size], problem }
    }

    /// Decode a member into the solution it selects and that solution's
    /// objective value. The solution is the `solution_size` lowest-keyed
    /// items under `key_lt`, in ascending key order.
    pub fn decode_solution(&mut self, member: &[u64]) -> (r: (MdpSolution, u128))
        requires
            old(self).inv(),
            member@.len() == old(self).problem().input_size,
        ensures
            final(self).inv(),
            final(self).problem() == old(self).problem(),
            sorted_perm(member@, the_sorted_perm(member@)),
            r.0.elements@ == rank_selection(
                member@,
                old(self).problem().solution_size as int,
            ),
            r.0.valid(old(self).problem()),
            r.1 == pair_sum(
                old(self).problem().mat(),
                old(self).problem().n(),
                r.0.elements@,
            ),
    {
        let ghost keys = member@;
        let n = self.problem.input_size;
        let k = self.problem.solution_size;
        rank_permutation(member, &mut self.auxiliary);
        let ghost perm = self.auxiliary@;
        proof {
            assert(sorted_perm(keys, perm));
            assert(sorted_perm(keys, the_sorted_perm(keys)));
            lemma_sorted_perm_unique(keys, perm, the_sorted_perm(keys));
            lemma_perm_values(perm, n as nat);
        }
        let mut elements: Vec<usize> = Vec::new();
        let ghost snap = *self;
        let mut t: usize = 0;
        while t < k
            invariant
                *self == snap,
                self.auxiliary@ == perm,
                self.inv(),
                k == self.problem.solution_size,
                perm.len() == self.problem.input_size,
                k <= perm.len(),
                0 <= t <= k,
                elements@ == perm.take(t as int),
            decreases k - t,
        {
            let x = self.auxiliary[t];
            elements.push(x);
            proof {
                assert(elements@ =~= perm.take(t as int + 1));
            }
            t = t + 1;
        }
        let solution = MdpSolution { elements };
        proof {
            assert(solution.elements@ == perm.take(k as int));
            assert(solution.elements@.no_duplicates()) by {
                assert(forall|a: int, b: int|
                    0 <= a < b < k ==> perm.take(k as int)[a] == perm[a] && perm.take(k as int)[b]
                        == perm[b]);
            }
            assert(forall|u: int|
                0 <= u < solution.elements@.len() ==> (#[trigger] solution.elements@[u] as int)
                    < self.problem.n());
        }
        let value = self.problem.objective_function(&solution);
        (solution, value)
    }
}

impl<'a> Decoder for CurrentDecoder<'a> {
    /// One key per candidate item.
    open spec fn member_size(&self) -> nat {
        self.problem().input_size as nat
    }

    open spec fn wf(&self) -> bool {
        self.inv()
    }

    /// The objective value of the `solution_size` lowest-keyed items.
    open spec fn fitness_of(&self, keys: Seq<u64>) -> int {
        pair_sum(
            self.problem().mat(),
            self.problem().n(),
            rank_selection(keys, self.problem().solution_size as int),
        )
    }

    fn decode(&mut self, member: &[u64]) -> (r: u128) {
        self.decode_solution(member).1
    }
}

} // verus!

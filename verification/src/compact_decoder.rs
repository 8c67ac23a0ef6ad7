//! The compact decoder: a member is one key per selected slot
//! (`member_size == solution_size`), strictly shorter than the rank
//! decoder's member. Each key in turn picks one of the still-unselected
//! items: key `t` selects the item at position `key mod remaining` of the
//! ascending list of unselected items. The rule is an explicit design
//! decision; it satisfies the decoder contract — deterministic, and the
//! solution always holds `solution_size` distinct in-range items.
use crate::decoder::Decoder;
use crate::problem::MaximumDiversity;
use crate::problem::MdpSolution;
use crate::problem::pair_sum;
use crate::rank_decoder::ident_seq;
use vstd::prelude::*;
use vstd::seq_lib::group_to_multiset_ensures;

verus! {

broadcast use group_to_multiset_ensures;

/// The selection of the compact decoder: fold over the keys, each picking
/// the `key mod remaining`-th smallest of the still-free items.
pub open spec fn compact_sel(keys: Seq<u64>, free: Seq<usize>) -> Seq<usize>
    decreases keys.len(),
{
    if keys.len() == 0 || free.len() == 0 {
        Seq::empty()
    } else {
        let pos = (keys[0] as int) % (free.len() as int);
        seq![free[pos]] + compact_sel(keys.skip(1), free.remove(pos))
    }
}

/// The compact decoding strategy. It shares the decoder contract with the
/// rank decoder but reads `solution_size` keys instead of `input_size`; it
/// never mutates the shared problem instance.
pub struct ExperimentalDecoder<'a> {
    problem: &'a MaximumDiversity,
}

impl<'a> ExperimentalDecoder<'a> {
    /// The instance this decoder reads.
    pub closed spec fn problem(&self) -> MaximumDiversity {
        *self.problem
    }

    /// The instance is well-formed.
    pub closed spec fn inv(&self) -> bool {
        self.problem.wf()
    }

    pub fn new(problem: &'a MaximumDiversity) -> (r: Self)
        requires
            problem.wf(),
        ensures
            r.inv(),
            r.problem() == *problem,
    {
        ExperimentalDecoder { problem }
    }

    /// Decode a member into the solution it selects and that solution's
    /// objective value.
    pub fn decode_solution(&mut self, member: &[u64]) -> (r: (MdpSolution, u128))
        requires
            old(self).inv(),
            member@.len() == old(self).problem().solution_size,
        ensures
            final(self).inv(),
            final(self).problem() == old(self).problem(),
            r.0.elements@ == compact_sel(
                member@,
                ident_seq(old(self).problem().input_size as nat),
            ),
            r.0.valid(old(self).problem()),
            r.1 == pair_sum(
                old(self).problem().mat(),
                old(self).problem().n(),
                r.0.elements@,
            ),
    {
        let ghost keys = member@;
        let n = self.problem.input_size;
        let k = self.problem.solution_size;
        let mut free: Vec<usize> = Vec::new();
        let mut i: usize = 0;
        while i < n
            invariant
                free.len() == i,
                0 <= i <= n,
                forall|t: int| 0 <= t < i ==> free@[t] == t as usize,
            decreases n - i,
        {
            free.push(i);
            i = i + 1;
        }
        proof {
            assert(free@ =~= ident_seq(n as nat));
            assert(keys.skip(0) =~= keys);
            assert(Seq::<usize>::empty() + compact_sel(keys, free@) =~= compact_sel(keys, free@));
        }
        let mut elements: Vec<usize> = Vec::new();
        let ghost snap = *self;
        let mut t: usize = 0;
        while t < k
            invariant
                *self == snap,
                self.inv(),
                keys == member@,
                n == self.problem.input_size,
                k == self.problem.solution_size,
                keys.len() == k,
                0 < k <= n,
                0 <= t <= k,
                free@.len() == n - t,
                free@.no_duplicates(),
                forall|u: int| 0 <= u < free@.len() ==> (#[trigger] free@[u] as int) < n,
                elements@.len() == t,
                elements@.no_duplicates(),
                forall|u: int| 0 <= u < elements@.len() ==> (#[trigger] elements@[u] as int) < n,
                forall|u: int| 0 <= u < elements@.len() ==> !free@.contains(#[trigger] elements@[u]),
                elements@ + compact_sel(keys.skip(t as int), free@) == compact_sel(
                    keys,
                    ident_seq(n as nat),
                ),
            decreases k - t,
        {
            let len = free.len();
            let pos = (member[t] % (len as u64)) as usize;
            let ghost old_free = free@;
            let ghost old_elements = elements@;
            let x = free.remove(pos);
            elements.push(x);
            proof {
                assert(x == old_free[pos as int]);
                assert(keys.skip(t as int)[0] == keys[t as int]);
                assert(keys.skip(t as int).skip(1) =~= keys.skip(t as int + 1));
                assert((keys[t as int] as int) % (old_free.len() as int) == pos as int);
                assert(compact_sel(keys.skip(t as int), old_free) == seq![x] + compact_sel(
                    keys.skip(t as int + 1),
                    old_free.remove(pos as int),
                ));
                assert(elements@ + compact_sel(keys.skip(t as int + 1), free@) =~= old_elements
                    + compact_sel(keys.skip(t as int), old_free));
                assert(free@.to_multiset() == old_free.to_multiset().remove(x));
                old_free.lemma_multiset_has_no_duplicates();
                free@.lemma_multiset_has_no_duplicates_conv();
                assert(!free@.contains(x)) by {
                    assert(free@.to_multiset().count(x) == 0);
                }
                assert forall|u: int| 0 <= u < free@.len() implies (#[trigger] free@[u] as int)
                    < n by {
                    assert(free@.contains(free@[u]));
                    assert(free@.to_multiset().count(free@[u]) > 0);
                    assert(old_free.to_multiset().count(free@[u]) > 0);
                    assert(old_free.contains(free@[u]));
                }
                assert forall|u: int| 0 <= u < elements@.len() implies !free@.contains(
                    #[trigger] elements@[u],
                ) by {
                    if u < old_elements.len() {
                        assert(elements@[u] == old_elements[u]);
                        if free@.contains(old_elements[u]) {
                            assert(free@.to_multiset().count(old_elements[u]) > 0);
                            assert(old_free.to_multiset().count(old_elements[u]) > 0);
                            assert(old_free.contains(old_elements[u]));
                        }
                    }
                }
                assert(elements@.no_duplicates()) by {
                    assert(!old_elements.contains(x)) by {
                        if old_elements.contains(x) {
                            let u = choose|u: int|
                                0 <= u < old_elements.len() && old_elements[u] == x;
                            assert(!old_free.contains(old_elements[u]));
                            assert(old_free.contains(x));
                        }
                    }
                    assert(forall|u: int|
                        0 <= u < old_elements.len() ==> elements@[u] == old_elements[u]);
                }
            }
            t = t + 1;
        }
        proof {
            assert(keys.skip(k as int) =~= Seq::<u64>::empty());
            assert(elements@ + compact_sel(keys.skip(k as int), free@) =~= elements@);
        }
        let solution = MdpSolution { elements };
        let value = self.problem.objective_function(&solution);
        (solution, value)
    }
}

impl<'a> Decoder for ExperimentalDecoder<'a> {
    /// One key per selected slot.
    open spec fn member_size(&self) -> nat {
        self.problem().solution_size as nat
    }

    open spec fn wf(&self) -> bool {
        self.inv()
    }

    /// The objective value of the items the keys pick from the free list.
    open spec fn fitness_of(&self, keys: Seq<u64>) -> int {
        pair_sum(
            self.problem().mat(),
            self.problem().n(),
            compact_sel(keys, ident_seq(self.problem().input_size as nat)),
        )
    }

    fn decode(&mut self, member: &[u64]) -> (r: u128) {
        self.decode_solution(member).1
    }
}

} // verus!

//! The decoder capability: given a key vector of the strategy's declared
//! member size, produce a fitness value. The result is a pure function of
//! the decoder's observable state and the key vector — repeated decodes of
//! identical members return identical values — and a decode call leaves
//! that observable state unchanged (only a private scratch buffer is
//! reused).
use vstd::prelude::*;

verus! {

pub trait Decoder {
    /// The length of the key vectors this strategy decodes.
    spec fn member_size(&self) -> nat;

    /// Well-formedness of the decoder and of the instance it reads.
    spec fn wf(&self) -> bool;

    /// The fitness value this decoder assigns to a key vector.
    spec fn fitness_of(&self, keys: Seq<u64>) -> int;

    /// Decode one member into its fitness value.
    fn decode(&mut self, member: &[u64]) -> (r: u128)
        requires
            old(self).wf(),
            member@.len() == old(self).member_size(),
        ensures
            final(self).wf(),
            final(self).member_size() == old(self).member_size(),
            r as int == old(self).fitness_of(member@),
            forall|m: Seq<u64>|
                #[trigger] final(self).fitness_of(m) == old(self).fitness_of(m),
    ;
}

} // verus!

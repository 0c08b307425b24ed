//! A source of random words, for users to implement.

use vstd::prelude::*;

use super::entropy::spec_taken;
use super::Q;

verus! {

/// A source of random words.
pub trait Random {
    type Error;

    /// The outcome of every take from this source so far, oldest first: the
    /// word taken, or the error of a take that failed.
    spec fn drawn(&self) -> Seq<Result<u64, Self::Error>>;

    /// One word from the source; its outcome is recorded after the earlier
    /// ones.
    fn random_u64(&mut self) -> (r: Result<u64, Self::Error>)
        ensures
            final(self).drawn() == old(self).drawn().push(r),
    ;

    /// Four words from the source, in the order they were taken; the first
    /// failure is returned and no further word is taken.
    fn random_quad(&mut self) -> (r: Result<Q, Self::Error>)
        ensures
            r matches Ok(q) ==> final(self).drawn() == old(self).drawn() + spec_taken(
                seq![q[0], q[1], q[2], q[3]],
            ),
            r matches Err(e) ==> exists|got: Seq<u64>|
                got.len() < 4 && final(self).drawn() == old(self).drawn() + spec_taken(got)
                    + seq![Err(e)],
    {
        let ghost o0 = self.drawn();
        let k1 = match self.random_u64() {
            Ok(x) => x,
            Err(e) => {
                assert(self.drawn() =~= o0 + spec_taken(Seq::<u64>::empty()) + seq![Err(e)]);
                return Err(e);
            },
        };
        let k2 = match self.random_u64() {
            Ok(x) => x,
            Err(e) => {
                assert(self.drawn() =~= o0 + spec_taken(seq![k1]) + seq![Err(e)]);
                return Err(e);
            },
        };
        let k3 = match self.random_u64() {
            Ok(x) => x,
            Err(e) => {
                assert(self.drawn() =~= o0 + spec_taken(seq![k1, k2]) + seq![Err(e)]);
                return Err(e);
            },
        };
        let k4 = match self.random_u64() {
            Ok(x) => x,
            Err(e) => {
                assert(self.drawn() =~= o0 + spec_taken(seq![k1, k2, k3]) + seq![Err(e)]);
                return Err(e);
            },
        };
        assert(self.drawn() =~= o0 + spec_taken(seq![k1, k2, k3, k4]));
        Ok([k1, k2, k3, k4])
    }
}

} // verus!

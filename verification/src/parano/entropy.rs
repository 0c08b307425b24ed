//! A source of entropy, for users to implement.

use vstd::prelude::*;

use super::Q;

verus! {

/// The record of successful takes of the words `ws`, in order.
pub open spec fn spec_taken<E>(ws: Seq<u64>) -> Seq<Result<u64, E>> {
    Seq::new(ws.len(), |i: int| Ok(ws[i]))
}

/// A source of entropy words.
pub trait Entropy {
    type Error;

    /// The outcome of every take from this source so far, oldest first: the
    /// word taken, or the error of a take that failed.
    spec fn obtained(&self) -> Seq<Result<u64, Self::Error>>;

    /// One word from the source; its outcome is recorded after the earlier
    /// ones.
    fn obtain_u64(&mut self) -> (r: Result<u64, Self::Error>)
        ensures
            final(self).obtained() == old(self).obtained().push(r),
    ;

    /// Four words from the source, in the order they were taken; the first
    /// failure is returned and no further word is taken.
    fn obtain_quad(&mut self) -> (r: Result<Q, Self::Error>)
        ensures
            r matches Ok(q) ==> final(self).obtained() == old(self).obtained() + spec_taken(
                seq![q[0], q[1], q[2], q[3]],
            ),
            r matches Err(e) ==> exists|got: Seq<u64>|
                got.len() < 4 && final(self).obtained() == old(self).obtained() + spec_taken(got)
                    + seq![Err(e)],
    {
        let ghost o0 = self.obtained();
        let k1 = match self.obtain_u64() {
            Ok(x) => x,
            Err(e) => {
                assert(self.obtained() =~= o0 + spec_taken(Seq::<u64>::empty()) + seq![Err(e)]);
                return Err(e);
            },
        };
        let k2 = match self.obtain_u64() {
            Ok(x) => x,
            Err(e) => {
                assert(self.obtained() =~= o0 + spec_taken(seq![k1]) + seq![Err(e)]);
                return Err(e);
            },
        };
        let k3 = match self.obtain_u64() {
            Ok(x) => x,
            Err(e) => {
                assert(self.obtained() =~= o0 + spec_taken(seq![k1, k2]) + seq![Err(e)]);
                return Err(e);
            },
        };
        let k4 = match self.obtain_u64() {
            Ok(x) => x,
            Err(e) => {
                assert(self.obtained() =~= o0 + spec_taken(seq![k1, k2, k3]) + seq![Err(e)]);
                return Err(e);
            },
        };
        assert(self.obtained() =~= o0 + spec_taken(seq![k1, k2, k3, k4]));
        Ok([k1, k2, k3, k4])
    }
}

} // verus!

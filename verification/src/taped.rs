//! The synchronization capability shared by the replicated structures.
//!
//! Both the sequence and the map keep, besides their state, a tape: the
//! operations generated locally since the last extraction, in generation
//! order.  Transport-facing code speaks to a structure only through this
//! interface: it extracts the tape of one replica and replays it at another.

use vstd::prelude::*;

use crate::SyncError;

verus! {

/// A replicated structure whose mutations are captured on a tape.
pub trait Taped: Sized {
    /// The operation type carried on the tape.
    type Operation;

    /// The mathematical state the operations act on.
    type Model;

    /// Structural well-formedness of the replica; every operation preserves
    /// it.
    spec fn inv(&self) -> bool;

    /// The current mathematical state.
    spec fn model(&self) -> Self::Model;

    /// The operations generated locally since the last extraction.
    spec fn pending(&self) -> Seq<Self::Operation>;

    /// Whether an operation is internally consistent.
    spec fn op_ok(op: Self::Operation) -> bool;

    /// The effect of one operation on the state.
    spec fn step(m: Self::Model, op: Self::Operation) -> Self::Model;

    /// The state after applying each operation of `ops`, in order, to `m`.
    spec fn fold(m: Self::Model, ops: Seq<Self::Operation>) -> Self::Model;

    /// Each implementation's `fold` is the iteration of its `step`.
    proof fn fold_unfolds(m: Self::Model, ops: Seq<Self::Operation>)
        ensures
            ops.len() == 0 ==> Self::fold(m, ops) == m,
            ops.len() > 0 ==> Self::fold(m, ops) == Self::fold(
                Self::step(m, ops[0]),
                ops.drop_first(),
            ),
    ;

    /// Applies a batch of remote operations, in the given order, to local
    /// state.  The batch never joins the local tape.  A batch holding a
    /// malformed operation is rejected whole: nothing is applied.
    fn replay(&mut self, tape: Vec<Self::Operation>) -> (r: Result<(), SyncError>)
        requires
            old(self).inv(),
        ensures
            final(self).inv(),
            final(self).pending() == old(self).pending(),
            r is Ok <==> (forall|i: int|
                0 <= i < tape@.len() ==> #[trigger] Self::op_ok(tape@[i])),
            r is Ok ==> final(self).model() == Self::fold(old(self).model(), tape@),
            r is Err ==> final(self).model() == old(self).model() && r->Err_0
                == SyncError::MalformedOperation,
    ;

    /// Extracts the tape: returns the pending operations in generation order
    /// and leaves the tape empty.  The state itself is untouched; if the
    /// extracted operations are dropped before delivery they cannot be
    /// regenerated.
    fn tape(&mut self) -> (r: Vec<Self::Operation>)
        requires
            old(self).inv(),
        ensures
            final(self).inv(),
            r@ == old(self).pending(),
            final(self).pending() == Seq::<Self::Operation>::empty(),
            final(self).model() == old(self).model(),
    ;
}

} // verus!

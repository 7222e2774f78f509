//! The driver's decisions. A driver thread owns the node, multiplexes ticks,
//! inbound messages and client calls, and forwards outbound messages; those
//! loops live outside this crate. What is decided here: every client call
//! gets a call ID never handed out before, and a message is delivered back
//! to a local caller exactly when it has no receiver.

use crate::codec::{be_bytes_u64, lemma_u64_be_round_trip, push_u64_be, u64_be_bytes};
use crate::raft::transport::Message;
use crate::store::bytes_eq;
use crate::Error;
use vstd::prelude::*;

verus! {

/// The outstanding client calls of a driver: a counter that mints fresh
/// call IDs, and the IDs awaiting a response.
#[derive(Debug)]
pub struct CallRegistry {
    next_id: u64,
    outstanding: Vec<Vec<u8>>,
}

impl CallRegistry {
    /// Every outstanding ID encodes a counter value already handed out.
    pub closed spec fn wf(&self) -> bool {
        forall|i: int|
            0 <= i < self.outstanding@.len() ==> (#[trigger] self.outstanding@[i])@.len() == 8
                && be_bytes_u64(self.outstanding@[i]@) < self.next_id
    }

    /// The outstanding call IDs, oldest first.
    pub closed spec fn outstanding_view(&self) -> Seq<Seq<u8>> {
        self.outstanding@.map_values(|v: Vec<u8>| v@)
    }

    /// Creates an empty registry.
    pub fn new() -> (r: Self)
        ensures
            r.wf(),
            r.outstanding_view() == Seq::<Seq<u8>>::empty(),
    {
        let r = CallRegistry { next_id: 0, outstanding: Vec::new() };
        proof {
            assert(r.outstanding_view() =~= Seq::<Seq<u8>>::empty());
        }
        r
    }

    /// Mints a call ID no earlier call was given and remembers it.
    pub fn new_call(&mut self) -> (r: Result<Vec<u8>, Error>)
        requires
            old(self).wf(),
        ensures
            final(self).wf(),
            r matches Ok(id) ==> {
                &&& final(self).outstanding_view() == old(self).outstanding_view().push(id@)
                &&& forall|j: int|
                    0 <= j < old(self).outstanding_view().len() ==> old(
                        self,
                    ).outstanding_view()[j] != id@
            },
            r is Err ==> *final(self) == *old(self),
    {
        if self.next_id == u64::MAX {
            return Err(Error::Internal("no call identifiers are left".to_owned()));
        }
        let minted = self.next_id;
        let mut id: Vec<u8> = Vec::new();
        push_u64_be(&mut id, minted);
        proof {
            lemma_u64_be_round_trip(minted);
            assert(id@ =~= u64_be_bytes(minted));
            assert forall|j: int| 0 <= j < self.outstanding_view().len() implies self.outstanding_view()[j]
                != id@ by {
                assert(be_bytes_u64(self.outstanding@[j]@) < minted);
            }
        }
        self.next_id = minted + 1;
        let ghost prev = self.outstanding@;
        let copy = crate::store::clone_bytes(&id);
        self.outstanding.push(copy);
        proof {
            assert(forall|j: int| 0 <= j < prev.len() ==> #[trigger] self.outstanding@[j] == prev[j]);
            assert(self.outstanding_view() =~= prev.map_values(|v: Vec<u8>| v@).push(id@));
        }
        Ok(id)
    }

    /// Marks a call answered: takes its ID out of the outstanding list. A
    /// second response for the same ID finds nothing and reports so.
    pub fn complete(&mut self, id: &Vec<u8>) -> (r: bool)
        requires
            old(self).wf(),
        ensures
            final(self).wf(),
            !r ==> *final(self) == *old(self) && (forall|j: int|
                0 <= j < old(self).outstanding_view().len() ==> old(self).outstanding_view()[j]
                    != id@),
            r ==> exists|i: int|
                0 <= i < old(self).outstanding_view().len() && old(self).outstanding_view()[i]
                    == id@ && final(self).outstanding_view() == old(
                    self,
                ).outstanding_view().remove(i),
    {
        let mut i: usize = 0;
        while i < self.outstanding.len()
            invariant
                *self == *old(self),
                self.wf(),
                i <= self.outstanding@.len(),
                forall|j: int| 0 <= j < i ==> (#[trigger] self.outstanding@[j])@ != id@,
            decreases self.outstanding@.len() - i,
        {
            if bytes_eq(&self.outstanding[i], id) {
                let ghost prev = self.outstanding@;
                self.outstanding.remove(i);
                proof {
                    assert(self.outstanding@ =~= prev.remove(i as int));
                    assert forall|j: int|
                        0 <= j < self.outstanding@.len() implies (
                    #[trigger] self.outstanding@[j])@.len() == 8 && be_bytes_u64(
                        self.outstanding@[j]@,
                    ) < self.next_id by {
                        if j < i {
                            assert(self.outstanding@[j] == prev[j]);
                        } else {
                            assert(self.outstanding@[j] == prev[j + 1]);
                        }
                    }
                    assert(self.outstanding_view() =~= prev.map_values(|v: Vec<u8>| v@).remove(
                        i as int,
                    ));
                    assert(old(self).outstanding_view()[i as int] == id@);
                    assert(self.outstanding_view() == old(self).outstanding_view().remove(
                        i as int,
                    ));
                }
                return true;
            }
            i = i + 1;
        }
        false
    }
}

/// Whether an outbound message is for a local caller rather than a peer.
pub fn deliver_locally(msg: &Message) -> (r: bool)
    ensures
        r == (msg@.to is None),
{
    match &msg.to {
        Some(_) => false,
        None => true,
    }
}

} // verus!

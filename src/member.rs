//! A member: one connection's logical endpoint in the room.

use vstd::prelude::*;
use tokio::sync::mpsc::UnboundedSender;
use crate::channel::{offer, offered, taken};

verus! {

/// The identity of a member, unique for the lifetime of its connection.
pub type Identity = u128;

/// A member of the room: its identity and the write end of its outbound queue.
/// What was sent to it is `offered(m.tx)`, and what its queue took is
/// `taken(m.tx)`; both change only when a text is handed to the queue.
pub struct Member {
    pub id: Identity,
    pub tx: UnboundedSender<String>,
}

/// `m2` is `m` once `text` was handed to its queue exactly once, the queue
/// taking it when `took`.
pub open spec fn offered_once(m: Member, m2: Member, text: Seq<char>, took: bool) -> bool {
    &&& m2.id == m.id
    &&& offered(m2.tx) == offered(m.tx).push(text)
    &&& taken(m2.tx) == (if took {
        taken(m.tx).push(text)
    } else {
        taken(m.tx)
    })
}

/// Two texts handed in turn to one member's queue stand in its history in the
/// order they were handed over, each once; those the queue took stand in what
/// it took in the same order.
pub proof fn lemma_enqueue_in_order(
    m0: Member,
    m1: Member,
    m2: Member,
    x: Seq<char>,
    y: Seq<char>,
    took_x: bool,
    took_y: bool,
)
    requires
        offered_once(m0, m1, x, took_x),
        offered_once(m1, m2, y, took_y),
    ensures
        m2.id == m0.id,
        offered(m2.tx) == offered(m0.tx) + seq![x, y],
        took_x && took_y ==> taken(m2.tx) == taken(m0.tx) + seq![x, y],
        !took_x && !took_y ==> taken(m2.tx) == taken(m0.tx),
{
    assert(offered(m0.tx).push(x).push(y) =~= offered(m0.tx) + seq![x, y]);
    assert(taken(m0.tx).push(x).push(y) =~= taken(m0.tx) + seq![x, y]);
}

impl Member {
    /// A member with identity `id` and outbound queue `tx`.
    pub fn new(id: Identity, tx: UnboundedSender<String>) -> (m: Member)
        ensures
            m == (Member { id, tx }),
    {
        Member { id, tx }
    }

    /// Hands `text` to the member's outbound queue. A closed queue is not an
    /// error for the caller: the text is dropped and `false` comes back.
    pub fn enqueue(&mut self, text: String) -> (ok: bool)
        ensures
            offered_once(*old(self), *final(self), text@, ok),
    {
        offer(&mut self.tx, text)
    }
}

} // verus!

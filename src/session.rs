//! The lifecycle of one connection: it joins the room, turns each inbound
//! text frame into a broadcast, and leaves exactly once when the inbound
//! stream ends or fails. The caller performs each request the session hands
//! out and reports what happened as the next event.

use vstd::prelude::*;
use tokio::sync::mpsc::UnboundedSender;
use crate::member::{Identity, Member};
use crate::room::Request;

verus! {

/// Where a connection stands.
#[derive(PartialEq, Eq, Structural, Clone, Copy, Debug)]
pub enum Phase {
    /// The join was sent and has not been confirmed.
    Joining,
    /// Inbound frames are read and broadcast.
    Active,
    /// The leave was sent; nothing more is sent for this connection.
    Closed,
}

/// One unit read from the connection's inbound stream.
pub enum Inbound {
    Text(String),
    /// Any frame that carries no text (binary, ping, close).
    Other,
}

/// What happened to a connection.
pub enum Event {
    /// The room took the join.
    Joined,
    /// The join could not be delivered to the room.
    JoinFailed,
    /// A unit came in.
    Frame(Inbound),
    /// The inbound stream ended.
    StreamEnded,
    /// The inbound stream failed.
    StreamFailed,
}

/// The phase that follows `p` on event `ev`.
pub open spec fn next_phase(p: Phase, ev: Event) -> Phase {
    match (p, ev) {
        (Phase::Joining, Event::Joined) => Phase::Active,
        (Phase::Joining, Event::Frame(_)) => Phase::Joining,
        (Phase::Joining, _) => Phase::Closed,
        (Phase::Active, Event::StreamEnded) => Phase::Closed,
        (Phase::Active, Event::StreamFailed) => Phase::Closed,
        (Phase::Active, _) => Phase::Active,
        (Phase::Closed, _) => Phase::Closed,
    }
}

/// What connection `id`, standing at `p`, asks of the room on event `ev`: a
/// broadcast for each non-empty text while active, a leave when it closes.
pub open spec fn request_for(id: Identity, p: Phase, ev: Event) -> Option<Request> {
    if p != Phase::Closed && next_phase(p, ev) == Phase::Closed {
        Some(Request::Leave(id))
    } else {
        match (p, ev) {
            (Phase::Active, Event::Frame(Inbound::Text(t))) => if t@.len() > 0 {
                Some(Request::Broadcast(id, t))
            } else {
                None
            },
            _ => None,
        }
    }
}

/// The phase after the events `evs`, taken in order from `p`.
pub open spec fn run(p: Phase, evs: Seq<Event>) -> Phase
    decreases evs.len(),
{
    if evs.len() == 0 {
        p
    } else {
        next_phase(run(p, evs.drop_last()), evs.last())
    }
}

/// How many leaves connection `id` asks for over the events `evs`, from `p`.
pub open spec fn leaves(id: Identity, p: Phase, evs: Seq<Event>) -> nat
    decreases evs.len(),
{
    if evs.len() == 0 {
        0
    } else {
        let pre = evs.drop_last();
        leaves(id, p, pre) + if request_for(id, run(p, pre), evs.last()) matches Some(
            Request::Leave(_),
        ) {
            1nat
        } else {
            0nat
        }
    }
}

/// Whatever the events, a connection that starts out joining asks to leave
/// exactly once if it ends closed, and never otherwise.
pub proof fn lemma_leave_exactly_once(id: Identity, evs: Seq<Event>)
    ensures
        leaves(id, Phase::Joining, evs) == (if run(Phase::Joining, evs) == Phase::Closed {
            1nat
        } else {
            0nat
        }),
    decreases evs.len(),
{
    if evs.len() > 0 {
        lemma_leave_exactly_once(id, evs.drop_last());
    }
}

/// One connection's state: its identity and where it stands.
pub struct Session {
    pub id: Identity,
    pub phase: Phase,
}

impl Session {
    /// A connection with identity `id` and outbound queue `tx`, together with
    /// the join request that registers its member.
    pub fn with_identity(id: Identity, tx: UnboundedSender<String>) -> (r: (Session, Request))
        ensures
            r.0.id == id,
            r.0.phase == Phase::Joining,
            r.1 == Request::Join(Member { id, tx }),
    {
        (Session { id, phase: Phase::Joining }, Request::Join(Member::new(id, tx)))
    }

    /// Takes one event and returns the request for the room that it calls
    /// for, if any. A leave comes out exactly when the session closes, and a
    /// closed session asks for nothing more.
    pub fn step(&mut self, ev: Event) -> (out: Option<Request>)
        ensures
            final(self).id == old(self).id,
            final(self).phase == next_phase(old(self).phase, ev),
            out == request_for(old(self).id, old(self).phase, ev),
    {
        match self.phase {
            Phase::Closed => None,
            Phase::Joining => match ev {
                Event::Joined => {
                    self.phase = Phase::Active;
                    None
                },
                Event::Frame(_) => None,
                _ => {
                    self.phase = Phase::Closed;
                    Some(Request::Leave(self.id))
                },
            },
            Phase::Active => match ev {
                Event::Frame(Inbound::Text(t)) => {
                    if !t.as_str().is_empty() {
                        Some(Request::Broadcast(self.id, t))
                    } else {
                        None
                    }
                },
                Event::StreamEnded | Event::StreamFailed => {
                    self.phase = Phase::Closed;
                    Some(Request::Leave(self.id))
                },
                _ => None,
            },
        }
    }
}

} // verus!

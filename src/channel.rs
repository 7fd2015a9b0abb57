//! The outbound queue handle of a member: the write end of tokio's unbounded
//! channel, seen by the library as an opaque value with a history of sends.

use vstd::prelude::*;
use tokio::sync::mpsc::UnboundedSender;

verus! {

#[verifier::external_type_specification]
#[verifier::external_body]
#[verifier::reject_recursive_types(T)]
pub struct ExUnboundedSender<T>(tokio::sync::mpsc::UnboundedSender<T>);

/// Every text handed to the queue through this sender, in order.
pub uninterp spec fn offered(tx: UnboundedSender<String>) -> Seq<Seq<char>>;

/// Every text that the queue took through this sender, in order.
pub uninterp spec fn taken(tx: UnboundedSender<String>) -> Seq<Seq<char>>;

/// Relies on tokio's `UnboundedSender::send`: it never waits; it puts the
/// message at the back of the channel and returns `Ok`, or, when the receiving
/// end is closed, returns the message in an error without queuing it. Which of
/// the two happens depends on the receiver, so either may come back.
#[verifier::external_body]
pub(crate) fn offer(tx: &mut UnboundedSender<String>, text: String) -> (ok: bool)
    ensures
        offered(*final(tx)) == offered(*old(tx)).push(text@),
        taken(*final(tx)) == (if ok {
            taken(*old(tx)).push(text@)
        } else {
            taken(*old(tx))
        }),
{
    tx.send(text).is_ok()
}

} // verus!

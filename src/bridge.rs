use crate::pacing::{step_state, DeliveryEvent, Event, Run};
use vstd::prelude::*;

verus! {

/// The largest frame read from the endpoint at once, in bytes.
pub const MAX_FRAME: usize = 1024;

/// What one readiness notification turns into.
#[derive(Clone, Copy, Debug, PartialEq, Eq, Structural)]
pub enum Notification {
    /// Nothing was there to read.
    Spurious,
    /// The bytes read do not decode to a payload: the notification is dropped.
    Malformed,
    /// A reply to hand to the run.
    Deliver(DeliveryEvent),
}

/// An empty read is spurious; bytes that do not decode are dropped; a
/// decoded id becomes a delivery stamped with the notification's instant.
pub open spec fn notification(instant: u64, bytes_read: usize, decoded: Option<u64>) -> Notification {
    if bytes_read == 0 {
        Notification::Spurious
    } else {
        match decoded {
            Some(id) => Notification::Deliver(DeliveryEvent { id, instant }),
            None => Notification::Malformed,
        }
    }
}

/// Turns a notification observed at `instant`, whose read gave `bytes_read`
/// bytes that decoded to the sequence id `decoded` (none if they did not
/// decode), into what the watcher emits.
pub fn classify(instant: u64, bytes_read: usize, decoded: Option<u64>) -> (r: Notification)
    ensures
        r == notification(instant, bytes_read, decoded),
{
    if bytes_read == 0 {
        Notification::Spurious
    } else {
        match decoded {
            Some(id) => Notification::Deliver(DeliveryEvent { id, instant }),
            None => Notification::Malformed,
        }
    }
}

/// A frame that fails to decode never reaches the run, which therefore still
/// waits for the same id, and the next genuine reply for that id moves it on.
pub proof fn lemma_malformed_frame_keeps_pacing(
    r: &Run,
    instant: u64,
    bytes_read: usize,
    reply: DeliveryEvent,
)
    requires
        r.wf(),
        r@.awaiting,
        bytes_read > 0,
        reply.id == r@.current,
    ensures
        notification(instant, bytes_read, None) == Notification::Malformed,
        !step_state(r@, Event::Delivered(reply)).awaiting,
        step_state(r@, Event::Delivered(reply)).current == r@.current + 1,
        step_state(r@, Event::Delivered(reply)).sent == r@.sent,
{
    r.lemma_wf_bounds();
}

} // verus!

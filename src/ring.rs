use vstd::prelude::*;

verus! {

/// One step of a token passed around a ring of nodes.
#[derive(Clone, Copy, Debug, PartialEq, Eq, Structural)]
pub enum RingStep {
    /// The token has reached the limit: the ring stops.
    Stop,
    /// The token goes on to the next node with this count.
    Forward(u64),
}

/// What a ring node does with a token holding `count`, in a ring that stops
/// once the count reaches `limit`.
pub fn ring_step(count: u64, limit: u64) -> (r: RingStep)
    ensures
        count >= limit ==> r == RingStep::Stop,
        count < limit ==> r == RingStep::Forward((count + 1) as u64),
{
    if count >= limit {
        RingStep::Stop
    } else {
        RingStep::Forward(count + 1)
    }
}

/// The count at which a ring of `nodes` nodes stops after the token has gone
/// round `rounds` times; none when it does not fit in a `u64`.
pub fn ring_limit(nodes: u64, rounds: u64) -> (r: Option<u64>)
    ensures
        nodes * rounds <= u64::MAX ==> r == Some((nodes * rounds) as u64),
        nodes * rounds > u64::MAX ==> r.is_none(),
{
    nodes.checked_mul(rounds)
}

} // verus!

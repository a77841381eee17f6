use crate::ledger::{accepts, has_id, instants_increasing, refusal, Ledger, LedgerError};
use crate::report::{latencies, lemma_latencies_paired, skewed};
use vstd::prelude::*;

verus! {

/// A decoded reply: the sequence id it carried and the instant its readiness
/// notification was observed, in microseconds.
#[derive(Clone, Copy, Debug, PartialEq, Eq, Structural)]
pub struct DeliveryEvent {
    pub id: u64,
    pub instant: u64,
}

/// What happened since the last decision of the run.
#[derive(Clone, Copy, Debug, PartialEq, Eq, Structural)]
pub enum Event {
    /// The current payload was written: `written` bytes out of an encoded
    /// frame of `expected` bytes, with the clock read just before the write.
    Sent { instant: u64, written: usize, expected: usize },
    /// A reply came through the delivery queue.
    Delivered(DeliveryEvent),
    /// The wait for the current payload's reply gave up.
    TimedOut,
}

/// What the run asks its driver to do next.
#[derive(Clone, Copy, Debug, PartialEq, Eq, Structural)]
pub enum Action {
    /// Encode and write the payload with this sequence id.
    Send(u64),
    /// Wait for the reply to this sequence id.
    Await(u64),
    /// All payloads have been sent and answered or given up.
    Finished,
}

/// What went wrong at one step of a run.
#[derive(Clone, Copy, Debug, PartialEq, Eq, Structural)]
pub enum RunError {
    /// Fewer (or more) bytes were written than the frame holds.
    ShortWrite { id: u64, expected: usize, written: usize },
    /// A send instant is not strictly after the previous one.
    NonMonotonicSend { id: u64, previous: u64, attempted: u64 },
    /// A receive instant is not strictly after the previous one.
    NonMonotonicReceive { id: u64, previous: u64, attempted: u64 },
    /// A reply for an id that was already received.
    DuplicateReceive { id: u64 },
    /// No reply came for this id before the wait gave up.
    Lost { id: u64 },
}

impl RunError {
    /// Whether the run must stop on this error.
    pub fn is_fatal(&self) -> (r: bool)
        ensures
            r == is_fatal(*self),
    {
        match self {
            RunError::ShortWrite { .. } => true,
            RunError::NonMonotonicSend { .. } => true,
            _ => false,
        }
    }
}

/// The errors that end a run: a short write and a send clock going backwards.
pub open spec fn is_fatal(e: RunError) -> bool {
    e is ShortWrite || e is NonMonotonicSend
}

/// The abstract state of a run.
pub ghost struct RunView {
    pub n: u64,
    pub current: u64,
    pub awaiting: bool,
    pub sent: Seq<(u64, u64)>,
    pub received: Seq<(u64, u64)>,
}

/// A run over `n` payloads before its first send.
pub open spec fn initial(n: u64) -> RunView {
    RunView { n, current: 1, awaiting: false, sent: Seq::empty(), received: Seq::empty() }
}

/// The next step asked of the driver: send the current id, wait for its
/// reply, or stop once every id has had its turn.
pub open spec fn action(v: RunView) -> Action {
    if v.current > v.n {
        Action::Finished
    } else if v.awaiting {
        Action::Await(v.current)
    } else {
        Action::Send(v.current)
    }
}

/// Which events the run can meet in a state: a send only when one is asked
/// for, a timeout only while waiting, a delivery at any time.
pub open spec fn allowed(v: RunView, e: Event) -> bool {
    match e {
        Event::Sent { .. } => action(v) == Action::Send(v.current),
        Event::TimedOut => v.awaiting,
        Event::Delivered(_) => true,
    }
}

/// The state after `e`. A reply for the awaited id, or a timeout, moves the
/// run on to the next id; any other reply is only recorded.
pub open spec fn step_state(v: RunView, e: Event) -> RunView {
    match e {
        Event::Sent { instant, written, expected } => {
            if written == expected && accepts(v.sent, v.current, instant) {
                RunView { sent: v.sent.push((v.current, instant)), awaiting: true, ..v }
            } else {
                v
            }
        },
        Event::Delivered(d) => {
            let received = if accepts(v.received, d.id, d.instant) {
                v.received.push((d.id, d.instant))
            } else {
                v.received
            };
            if v.awaiting && d.id == v.current {
                RunView { received, awaiting: false, current: (v.current + 1) as u64, ..v }
            } else {
                RunView { received, ..v }
            }
        },
        Event::TimedOut => RunView { awaiting: false, current: (v.current + 1) as u64, ..v },
    }
}

/// The report of `e`.
pub open spec fn step_result(v: RunView, e: Event) -> Result<(), RunError> {
    match e {
        Event::Sent { instant, written, expected } => {
            if written != expected {
                Err(RunError::ShortWrite { id: v.current, expected, written })
            } else if !accepts(v.sent, v.current, instant) {
                Err(RunError::NonMonotonicSend { id: v.current, previous: v.sent.last().1, attempted: instant })
            } else {
                Ok(())
            }
        },
        Event::Delivered(d) => {
            if accepts(v.received, d.id, d.instant) {
                Ok(())
            } else {
                Err(receive_error(refusal(v.received, d.id, d.instant)))
            }
        },
        Event::TimedOut => Err(RunError::Lost { id: v.current }),
    }
}

/// A receive ledger's refusal, as reported by the run.
pub open spec fn receive_error(e: LedgerError) -> RunError {
    match e {
        LedgerError::NonMonotonic { id, previous, attempted } => RunError::NonMonotonicReceive { id, previous, attempted },
        LedgerError::DuplicateId { id } => RunError::DuplicateReceive { id },
    }
}

/// The state after each event of `es` in turn.
pub open spec fn run_all(v: RunView, es: Seq<Event>) -> RunView
    decreases es.len(),
{
    if es.len() == 0 {
        v
    } else {
        step_state(run_all(v, es.drop_last()), es.last())
    }
}

/// Every event of `es` is allowed where it comes, and none is fatal.
pub open spec fn completes(v: RunView, es: Seq<Event>) -> bool
    decreases es.len(),
{
    if es.len() == 0 {
        true
    } else {
        let before = run_all(v, es.drop_last());
        &&& completes(v, es.drop_last())
        &&& allowed(before, es.last())
        &&& match step_result(before, es.last()) {
            Ok(_) => true,
            Err(err) => !is_fatal(err),
        }
    }
}

/// Lock-step driver of a latency run over `n` payloads with ids `1..=n`: one
/// payload is outstanding at a time, and each reply goes into the receive
/// ledger.
pub struct Run {
    n: u64,
    current: u64,
    awaiting: bool,
    sent: Ledger,
    received: Ledger,
}

impl View for Run {
    type V = RunView;

    closed spec fn view(&self) -> RunView {
        RunView {
            n: self.n,
            current: self.current,
            awaiting: self.awaiting,
            sent: self.sent@,
            received: self.received@,
        }
    }
}

impl Run {
    /// Both ledgers are well formed, the current id lies in `1..=n + 1`, and
    /// every id sent so far is below it, or equal while its reply is awaited.
    pub closed spec fn wf(&self) -> bool {
        &&& self.sent.wf()
        &&& self.received.wf()
        &&& self.n < u64::MAX
        &&& 1 <= self.current <= self.n + 1
        &&& self.awaiting ==> self.current <= self.n
        &&& forall|i: int|
            0 <= i < self.sent@.len() ==> (#[trigger] self.sent@[i]).0 < self.current || (
            self.awaiting && self.sent@[i].0 == self.current)
    }

    /// The bounds that a well-formed run keeps.
    pub proof fn lemma_wf_bounds(&self)
        requires
            self.wf(),
        ensures
            self@.n < u64::MAX,
            1 <= self@.current <= self@.n + 1,
            self@.awaiting ==> self@.current <= self@.n,
    {
    }

    /// A run over `n` payloads that has not sent anything yet.
    pub fn new(n: u64) -> (r: Run)
        requires
            n < u64::MAX,
        ensures
            r.wf(),
            r@ == initial(n),
    {
        Run { n, current: 1, awaiting: false, sent: Ledger::new(), received: Ledger::new() }
    }

    /// What the driver must do next.
    pub fn next_action(&self) -> (r: Action)
        ensures
            r == action(self@),
    {
        if self.current > self.n {
            Action::Finished
        } else if self.awaiting {
            Action::Await(self.current)
        } else {
            Action::Send(self.current)
        }
    }

    /// Takes one event into account.
    pub fn handle(&mut self, e: Event) -> (r: Result<(), RunError>)
        requires
            old(self).wf(),
            allowed(old(self)@, e),
        ensures
            final(self).wf(),
            final(self)@ == step_state(old(self)@, e),
            r == step_result(old(self)@, e),
    {
        match e {
            Event::Sent { instant, written, expected } => {
                if written != expected {
                    return Err(RunError::ShortWrite { id: self.current, expected, written });
                }
                proof {
                    if has_id(self.sent@, self.current) {
                        let i = choose|i: int|
                            0 <= i < self.sent@.len() && (#[trigger] self.sent@[i]).0 == self.current;
                        assert(self.sent@[i].0 < self.current);
                    }
                }
                match self.sent.insert(self.current, instant) {
                    Ok(()) => {
                        self.awaiting = true;
                        Ok(())
                    },
                    Err(LedgerError::NonMonotonic { previous, .. }) => Err(
                        RunError::NonMonotonicSend { id: self.current, previous, attempted: instant },
                    ),
                    // Every id sent so far is below the current one, so the
                    // ledger never reports it as a duplicate.
                    Err(LedgerError::DuplicateId { .. }) => Err(
                        RunError::NonMonotonicSend { id: self.current, previous: 0, attempted: instant },
                    ),
                }
            },
            Event::Delivered(d) => {
                let res = match self.received.insert(d.id, d.instant) {
                    Ok(()) => Ok(()),
                    Err(LedgerError::NonMonotonic { id, previous, attempted }) => Err(
                        RunError::NonMonotonicReceive { id, previous, attempted },
                    ),
                    Err(LedgerError::DuplicateId { id }) => Err(RunError::DuplicateReceive { id }),
                };
                if self.awaiting && d.id == self.current {
                    self.awaiting = false;
                    self.current = self.current + 1;
                }
                res
            },
            Event::TimedOut => {
                let id = self.current;
                self.awaiting = false;
                self.current = self.current + 1;
                Err(RunError::Lost { id })
            },
        }
    }

    /// The send ledger.
    pub fn sent(&self) -> (r: &Ledger)
        requires
            self.wf(),
        ensures
            r.wf(),
            r@ == self@.sent,
    {
        &self.sent
    }

    /// The receive ledger.
    pub fn received(&self) -> (r: &Ledger)
        requires
            self.wf(),
        ensures
            r.wf(),
            r@ == self@.received,
    {
        &self.received
    }
}

/// Both ledgers of a run keep strictly increasing instants in insertion
/// order, whatever events the run has met.
pub proof fn lemma_run_ledgers_monotonic(r: &Run)
    requires
        r.wf(),
    ensures
        instants_increasing(r@.sent),
        instants_increasing(r@.received),
{
    crate::ledger::lemma_ledger_monotonic_all(&r.sent);
    crate::ledger::lemma_ledger_monotonic_all(&r.received);
}

/// Times strictly increase along `t`.
pub open spec fn strictly_increasing(t: Seq<u64>) -> bool {
    forall|i: int, j: int| 0 <= i < j < t.len() ==> #[trigger] t[i] < #[trigger] t[j]
}

/// The events of the first `k` rounds of a lock-step run in which payload
/// `i` (counted from 1) is written at `t[2i - 2]` and its reply is observed
/// at `t[2i - 1]`, except the payload `dropped`, whose reply never comes and
/// whose wait times out.
pub open spec fn schedule(t: Seq<u64>, k: nat, dropped: u64) -> Seq<Event>
    decreases k,
{
    if k == 0 {
        Seq::empty()
    } else {
        let last = if k == dropped {
            Event::TimedOut
        } else {
            Event::Delivered(DeliveryEvent { id: k as u64, instant: t[2 * k - 1] })
        };
        schedule(t, (k - 1) as nat, dropped).push(
            Event::Sent { instant: t[2 * k - 2], written: 0, expected: 0 },
        ).push(last)
    }
}

/// The send ledger after `k` rounds of `schedule`.
pub open spec fn sent_after(t: Seq<u64>, k: nat) -> Seq<(u64, u64)> {
    Seq::new(k, |i: int| ((i + 1) as u64, t[2 * i]))
}

/// The receive ledger after `k` rounds of `schedule`.
pub open spec fn received_after(t: Seq<u64>, k: nat, dropped: u64) -> Seq<(u64, u64)>
    decreases k,
{
    if k == 0 {
        Seq::empty()
    } else {
        let prior = received_after(t, (k - 1) as nat, dropped);
        if k == dropped {
            prior
        } else {
            prior.push((k as u64, t[2 * k - 1]))
        }
    }
}

proof fn lemma_schedule_prefix(n: u64, t: Seq<u64>, k: nat, dropped: u64)
    requires
        n < u64::MAX,
        k <= n,
        t.len() == 2 * n,
        strictly_increasing(t),
    ensures
        completes(initial(n), schedule(t, k, dropped)),
        run_all(initial(n), schedule(t, k, dropped)) == (RunView {
            n,
            current: (k + 1) as u64,
            awaiting: false,
            sent: sent_after(t, k),
            received: received_after(t, k, dropped),
        }),
        received_after(t, k, dropped).len() == if 1 <= dropped <= k {
            k - 1
        } else {
            k as int
        },
        forall|i: int|
            0 <= i < received_after(t, k, dropped).len() ==> {
                let e = #[trigger] received_after(t, k, dropped)[i];
                &&& 1 <= e.0 <= k
                &&& e.0 != dropped
                &&& e.1 == t[2 * e.0 - 1]
            },
        dropped == 0 ==> received_after(t, k, dropped) == Seq::new(
            k,
            |i: int| ((i + 1) as u64, t[2 * i + 1]),
        ),
    decreases k,
{
    if k == 0 {
        assert(sent_after(t, 0) == Seq::<(u64, u64)>::empty());
        if dropped == 0 {
            assert(received_after(t, 0, 0) == Seq::new(0, |i: int| ((i + 1) as u64, t[2 * i + 1])));
        }
    } else {
        let km = (k - 1) as nat;
        lemma_schedule_prefix(n, t, km, dropped);
        let prior = schedule(t, km, dropped);
        let e1 = Event::Sent { instant: t[2 * k - 2], written: 0, expected: 0 };
        let e2 = if k == dropped {
            Event::TimedOut
        } else {
            Event::Delivered(DeliveryEvent { id: k as u64, instant: t[2 * k - 1] })
        };
        let es = schedule(t, k, dropped);
        assert(es.drop_last() == prior.push(e1));
        assert(prior.push(e1).drop_last() == prior);
        let v0 = run_all(initial(n), prior);
        let sa = sent_after(t, km);
        let ra = received_after(t, km, dropped);
        assert(!crate::ledger::has_id(sa, k as u64)) by {
            if crate::ledger::has_id(sa, k as u64) {
                let i = choose|i: int| 0 <= i < sa.len() && (#[trigger] sa[i]).0 == k as u64;
                assert(sa[i].0 == (i + 1) as u64);
            }
        }
        if km > 0 {
            assert(sa.last().1 == t[2 * km - 2]);
        }
        assert(sa.push((k as u64, t[2 * k - 2])) == sent_after(t, k));
        if k != dropped {
            assert(!crate::ledger::has_id(ra, k as u64)) by {
                if crate::ledger::has_id(ra, k as u64) {
                    let i = choose|i: int| 0 <= i < ra.len() && (#[trigger] ra[i]).0 == k as u64;
                }
            }
            if ra.len() > 0 {
                let e = ra[ra.len() - 1];
                assert(e.1 == t[2 * e.0 - 1]);
            }
            if dropped == 0 {
                assert(ra.push((k as u64, t[2 * k - 1])) == Seq::new(
                    k,
                    |i: int| ((i + 1) as u64, t[2 * i + 1]),
                ));
            }
        }
        let v1 = step_state(v0, e1);
        assert(run_all(initial(n), prior.push(e1)) == v1);
        assert(step_result(v0, e1) is Ok);
        assert(completes(initial(n), prior.push(e1)));
        assert(allowed(v1, e2));
        if k != dropped {
            assert(step_result(v1, e2) is Ok);
        }
        let rk = received_after(t, k, dropped);
        assert forall|i: int| 0 <= i < rk.len() implies {
            let e = #[trigger] rk[i];
            &&& 1 <= e.0 <= k
            &&& e.0 != dropped
            &&& e.1 == t[2 * e.0 - 1]
        } by {
            if i < ra.len() {
                assert(rk[i] == ra[i]);
            }
        }
    }
}

proof fn lemma_reliable_pairs(n: u64, t: Seq<u64>, m: nat)
    requires
        n < u64::MAX,
        m <= n,
        t.len() == 2 * n,
        strictly_increasing(t),
    ensures
        latencies(
            sent_after(t, n as nat),
            Seq::new(n as nat, |i: int| ((i + 1) as u64, t[2 * i + 1])).take(m as int),
        ) == Seq::new(m, |i: int| ((i + 1) as u64, (t[2 * i + 1] - t[2 * i]) as u64)),
        skewed(
            sent_after(t, n as nat),
            Seq::new(n as nat, |i: int| ((i + 1) as u64, t[2 * i + 1])).take(m as int),
        ).len() == 0,
    decreases m,
{
    let sa = sent_after(t, n as nat);
    let r = Seq::new(n as nat, |i: int| ((i + 1) as u64, t[2 * i + 1]));
    if m == 0 {
        assert(r.take(0) == Seq::<(u64, u64)>::empty());
        assert(Seq::new(0, |i: int| ((i + 1) as u64, (t[2 * i + 1] - t[2 * i]) as u64)) == Seq::<
            (u64, u64),
        >::empty());
    } else {
        let mm = (m - 1) as nat;
        let j = mm as int;
        lemma_reliable_pairs(n, t, mm);
        assert(r.take(m as int).drop_last() == r.take(mm as int));
        assert(crate::ledger::ids_unique(sa));
        crate::ledger::lemma_ledger_map_values(sa, j);
        assert(t[2 * j] < t[2 * j + 1]);
        assert(Seq::new(mm, |i: int| ((i + 1) as u64, (t[2 * i + 1] - t[2 * i]) as u64)).push(
            (m as u64, (t[2 * j + 1] - t[2 * j]) as u64),
        ) == Seq::new(m, |i: int| ((i + 1) as u64, (t[2 * i + 1] - t[2 * i]) as u64)));
    }
}

/// A lock-step run over `n` payloads on a channel that echoes every frame
/// once, in order, each reply observed after its own send and before the
/// next one, completes with `n` entries in each ledger, pairs the i-th sent
/// id with the i-th received one, and reports for every id its latency,
/// none of them negative.
pub proof fn lemma_reliable_run(n: u64, t: Seq<u64>)
    requires
        1 <= n < u64::MAX,
        t.len() == 2 * n,
        strictly_increasing(t),
    ensures
        ({
            let v = run_all(initial(n), schedule(t, n as nat, 0));
            &&& completes(initial(n), schedule(t, n as nat, 0))
            &&& action(v) == Action::Finished
            &&& v.sent.len() == n
            &&& v.received.len() == n
            &&& forall|i: int|
                0 <= i < n ==> (#[trigger] v.sent[i]).0 == v.received[i].0 && v.sent[i].1
                    <= v.received[i].1
            &&& latencies(v.sent, v.received) == Seq::new(
                n as nat,
                |i: int| ((i + 1) as u64, (t[2 * i + 1] - t[2 * i]) as u64),
            )
            &&& skewed(v.sent, v.received).len() == 0
        }),
{
    lemma_schedule_prefix(n, t, n as nat, 0);
    lemma_reliable_pairs(n, t, n as nat);
    let r = Seq::new(n as nat, |i: int| ((i + 1) as u64, t[2 * i + 1]));
    assert(r.take(n as int) == r);
    let v = run_all(initial(n), schedule(t, n as nat, 0));
    assert forall|i: int| 0 <= i < n implies (#[trigger] v.sent[i]).0 == v.received[i].0
        && v.sent[i].1 <= v.received[i].1 by {
        assert(t[2 * i] < t[2 * i + 1]);
    }
}

/// When the reply to payload `k` never comes and its wait times out, the
/// run still completes; the receive ledger then holds `n - 1` entries and
/// none for `k`, while every payload is in the send ledger; no latency is
/// reported for `k`.
pub proof fn lemma_dropped_frame_run(n: u64, t: Seq<u64>, k: u64)
    requires
        n < u64::MAX,
        1 <= k <= n,
        t.len() == 2 * n,
        strictly_increasing(t),
    ensures
        ({
            let v = run_all(initial(n), schedule(t, n as nat, k));
            &&& completes(initial(n), schedule(t, n as nat, k))
            &&& action(v) == Action::Finished
            &&& v.sent.len() == n
            &&& v.received.len() == n - 1
            &&& !has_id(v.received, k)
            &&& forall|i: int|
                0 <= i < latencies(v.sent, v.received).len() ==> (#[trigger] latencies(
                    v.sent,
                    v.received,
                )[i]).0 != k
        }),
{
    lemma_schedule_prefix(n, t, n as nat, k);
    let v = run_all(initial(n), schedule(t, n as nat, k));
    if has_id(v.received, k) {
        let i = choose|i: int| 0 <= i < v.received.len() && (#[trigger] v.received[i]).0 == k;
    }
    assert forall|i: int| 0 <= i < latencies(v.sent, v.received).len() implies (#[trigger] latencies(
        v.sent,
        v.received,
    )[i]).0 != k by {
        lemma_latencies_paired(v.sent, v.received, i);
    }
}

} // verus!

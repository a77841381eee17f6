use echo_latency::bridge::{classify, Notification, MAX_FRAME};
use echo_latency::ledger::{Ledger, LedgerError};
use echo_latency::pacing::{Action, DeliveryEvent, Event, Run, RunError};
use echo_latency::report::{build_report, output_name, push_decimal, report_table, summarize, tsv_bytes, Summary};
use echo_latency::ring::{ring_limit, ring_step, RingStep};

const MS: u64 = 1000;

fn sent(run: &mut Run, instant: u64) -> Result<(), RunError> {
    run.handle(Event::Sent { instant, written: 24, expected: 24 })
}

fn delivered(run: &mut Run, id: u64, instant: u64) -> Result<(), RunError> {
    run.handle(Event::Delivered(DeliveryEvent { id, instant }))
}

fn ledger_of(entries: &[(u64, u64)]) -> Ledger {
    let mut l = Ledger::new();
    for &(id, t) in entries {
        l.insert(id, t).unwrap();
    }
    l
}

fn entries(l: &Ledger) -> Vec<(u64, u64)> {
    (0..l.len()).map(|i| l.entry(i)).collect()
}

/// Runs the lock-step loop over `n` payloads where payload `i` is written at
/// `10 * i` ms and answered `reply(i)` ms later, or never when that is none.
fn simulate(n: u64, reply: impl Fn(u64) -> Option<u64>) -> Run {
    let mut run = Run::new(n);
    let mut clock = 0;
    loop {
        match run.next_action() {
            Action::Send(id) => {
                clock = (id - 1) * 10 * MS;
                sent(&mut run, clock).unwrap();
            }
            Action::Await(id) => match reply(id) {
                Some(d) => delivered(&mut run, id, clock + d * MS).unwrap(),
                None => assert_eq!(run.handle(Event::TimedOut), Err(RunError::Lost { id })),
            },
            Action::Finished => return run,
        }
    }
}

#[test]
fn five_payload_scenario_latencies_and_summary() {
    let replies = [5, 5, 7, 3, 4];
    let run = simulate(5, |id| Some(replies[(id - 1) as usize]));
    assert_eq!(entries(run.sent()), vec![(1, 0), (2, 10 * MS), (3, 20 * MS), (4, 30 * MS), (5, 40 * MS)]);
    assert_eq!(entries(run.received()), vec![(1, 5 * MS), (2, 15 * MS), (3, 27 * MS), (4, 33 * MS), (5, 44 * MS)]);
    let report = build_report(run.sent(), run.received());
    assert_eq!(report.latencies, vec![(1, 5000), (2, 5000), (3, 7000), (4, 3000), (5, 4000)]);
    assert!(report.skewed.is_empty());
    assert!(report.unmatched.is_empty());
    let s = summarize(&report.latencies);
    assert_eq!(s, Summary { count: 5, sum: 24000, min: Some(3000), max: Some(7000) });
    assert_eq!(s.mean(), Some(4800));
}

#[test]
fn receive_before_send_is_excluded() {
    let send = ledger_of(&[(0, 0), (1, 10 * MS), (2, 20 * MS), (3, 30 * MS), (4, 40 * MS)]);
    let recv = ledger_of(&[(0, 5 * MS), (1, 15 * MS), (3, 18 * MS), (2, 27 * MS), (4, 44 * MS)]);
    let report = build_report(&send, &recv);
    assert_eq!(report.skewed, vec![3]);
    assert_eq!(report.latencies, vec![(0, 5000), (1, 5000), (2, 7000), (4, 4000)]);
    let s = summarize(&report.latencies);
    assert_eq!(s.count, 4);
    assert_eq!(s.min, Some(4000));
    assert_eq!(s.max, Some(7000));
}

#[test]
fn reliable_channel_fills_both_ledgers() {
    let run = simulate(4, |_| Some(1));
    assert_eq!(run.next_action(), Action::Finished);
    assert_eq!(run.sent().len(), 4);
    assert_eq!(run.received().len(), 4);
    let report = build_report(run.sent(), run.received());
    assert_eq!(report.latencies.len(), 4);
    assert!(report.latencies.iter().all(|&(_, l)| l == 1000));
}

#[test]
fn single_payload_run() {
    let run = simulate(1, |_| Some(2));
    assert_eq!(entries(run.sent()), vec![(1, 0)]);
    assert_eq!(entries(run.received()), vec![(1, 2 * MS)]);
}

#[test]
fn ledgers_keep_increasing_instants() {
    let run = simulate(6, |id| Some(id % 3 + 1));
    for l in [run.sent(), run.received()] {
        let e = entries(l);
        assert!(e.windows(2).all(|w| w[0].1 < w[1].1));
    }
}

#[test]
fn dropped_frame_leaves_id_out() {
    let run = simulate(5, |id| if id == 3 { None } else { Some(2) });
    assert_eq!(run.next_action(), Action::Finished);
    assert_eq!(run.sent().len(), 5);
    assert_eq!(run.received().len(), 4);
    assert_eq!(run.received().get(3), None);
    let report = build_report(run.sent(), run.received());
    assert!(report.latencies.iter().all(|&(id, _)| id != 3));
    assert_eq!(report.latencies.len(), 4);
}

#[test]
fn malformed_frame_does_not_stall_pacing() {
    let mut run = Run::new(2);
    sent(&mut run, 0).unwrap();
    assert_eq!(run.next_action(), Action::Await(1));
    assert_eq!(classify(3, 20, None), Notification::Malformed);
    assert_eq!(run.next_action(), Action::Await(1));
    match classify(5, 20, Some(1)) {
        Notification::Deliver(ev) => run.handle(Event::Delivered(ev)).unwrap(),
        other => panic!("unexpected {:?}", other),
    }
    assert_eq!(run.next_action(), Action::Send(2));
    assert_eq!(entries(run.received()), vec![(1, 5)]);
}

#[test]
fn empty_read_is_spurious() {
    assert_eq!(classify(9, 0, Some(4)), Notification::Spurious);
    assert_eq!(classify(9, MAX_FRAME, Some(4)), Notification::Deliver(DeliveryEvent { id: 4, instant: 9 }));
}

#[test]
fn table_is_identical_on_second_report() {
    let replies = [5, 5, 7, 3, 4];
    let run = simulate(5, |id| Some(replies[(id - 1) as usize]));
    let first = report_table(run.sent(), run.received());
    let second = report_table(run.sent(), run.received());
    assert_eq!(first, second);
    assert_eq!(first, b"1\t5000\n2\t5000\n3\t7000\n4\t3000\n5\t4000\n".to_vec());
}

#[test]
fn ledger_refuses_non_monotonic_and_duplicate() {
    let mut l = Ledger::new();
    l.insert(1, 10).unwrap();
    assert_eq!(l.insert(2, 10), Err(LedgerError::NonMonotonic { id: 2, previous: 10, attempted: 10 }));
    assert_eq!(l.insert(1, 11), Err(LedgerError::DuplicateId { id: 1 }));
    assert_eq!(l.len(), 1);
    assert_eq!(l.get(1), Some(10));
    assert_eq!(l.last_instant(), Some(10));
    assert_eq!(Ledger::new().last_instant(), None);
}

#[test]
fn short_write_is_fatal() {
    let mut run = Run::new(3);
    let e = run.handle(Event::Sent { instant: 0, written: 10, expected: 24 }).unwrap_err();
    assert_eq!(e, RunError::ShortWrite { id: 1, expected: 24, written: 10 });
    assert!(e.is_fatal());
    assert_eq!(run.next_action(), Action::Send(1));
}

#[test]
fn non_monotonic_send_is_fatal() {
    let mut run = Run::new(3);
    sent(&mut run, 50).unwrap();
    delivered(&mut run, 1, 60).unwrap();
    let e = sent(&mut run, 50).unwrap_err();
    assert_eq!(e, RunError::NonMonotonicSend { id: 2, previous: 50, attempted: 50 });
    assert!(e.is_fatal());
}

#[test]
fn non_monotonic_receive_is_reported_and_run_goes_on() {
    let mut run = Run::new(3);
    sent(&mut run, 0).unwrap();
    delivered(&mut run, 1, 60).unwrap();
    sent(&mut run, 70).unwrap();
    let e = delivered(&mut run, 2, 60).unwrap_err();
    assert_eq!(e, RunError::NonMonotonicReceive { id: 2, previous: 60, attempted: 60 });
    assert!(!e.is_fatal());
    assert_eq!(run.next_action(), Action::Send(3));
    assert_eq!(run.received().len(), 1);
}

#[test]
fn duplicate_receive_is_reported() {
    let mut run = Run::new(3);
    sent(&mut run, 0).unwrap();
    delivered(&mut run, 1, 5).unwrap();
    sent(&mut run, 10).unwrap();
    assert_eq!(delivered(&mut run, 1, 12), Err(RunError::DuplicateReceive { id: 1 }));
    assert_eq!(run.next_action(), Action::Await(2));
}

#[test]
fn unmatched_id_is_skipped() {
    let send = ledger_of(&[(1, 0)]);
    let recv = ledger_of(&[(7, 3), (1, 4)]);
    let report = build_report(&send, &recv);
    assert_eq!(report.unmatched, vec![7]);
    assert_eq!(report.latencies, vec![(1, 4)]);
}

#[test]
fn empty_summary_has_no_mean() {
    let s = summarize(&Vec::new());
    assert_eq!(s, Summary { count: 0, sum: 0, min: None, max: None });
    assert_eq!(s.mean(), None);
}

#[test]
fn large_latencies_sum_without_overflow() {
    let lat = vec![(1, u64::MAX), (2, u64::MAX)];
    let s = summarize(&lat);
    assert_eq!(s.sum, 2 * u64::MAX as u128);
    assert_eq!(s.mean(), Some(u64::MAX as u128));
}

#[test]
fn decimal_digits() {
    let mut out = b"x".to_vec();
    push_decimal(&mut out, 0);
    assert_eq!(out, b"x0".to_vec());
    let mut out = Vec::new();
    push_decimal(&mut out, u64::MAX);
    assert_eq!(out, u64::MAX.to_string().into_bytes());
    assert_eq!(tsv_bytes(&vec![(10, 205)]), b"10\t205\n".to_vec());
}

#[test]
fn table_file_name() {
    assert_eq!(output_name(&b"./signal_hook".to_vec(), 1_000_000), b"./signal_hook-1000000.tsv".to_vec());
}

#[test]
fn ring_forwards_until_limit() {
    assert_eq!(ring_step(0, 4), RingStep::Forward(1));
    assert_eq!(ring_step(3, 4), RingStep::Forward(4));
    assert_eq!(ring_step(4, 4), RingStep::Stop);
    assert_eq!(ring_limit(3, 5), Some(15));
    assert_eq!(ring_limit(u64::MAX, 2), None);
}

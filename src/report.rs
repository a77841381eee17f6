use crate::ledger::{instant_of, Ledger};
use vstd::prelude::*;

verus! {

/// The `(id, latency)` pairs of the received entries that have a send
/// instant no later than their receive instant, in receive order.
pub open spec fn latencies(sent: Seq<(u64, u64)>, received: Seq<(u64, u64)>) -> Seq<(u64, u64)>
    decreases received.len(),
{
    if received.len() == 0 {
        Seq::empty()
    } else {
        let e = received.last();
        let prior = latencies(sent, received.drop_last());
        match instant_of(sent, e.0) {
            Some(s) => if s <= e.1 {
                prior.push((e.0, (e.1 - s) as u64))
            } else {
                prior
            },
            None => prior,
        }
    }
}

/// The ids received before they were sent: clock skew or an ordering fault.
pub open spec fn skewed(sent: Seq<(u64, u64)>, received: Seq<(u64, u64)>) -> Seq<u64>
    decreases received.len(),
{
    if received.len() == 0 {
        Seq::empty()
    } else {
        let e = received.last();
        let prior = skewed(sent, received.drop_last());
        match instant_of(sent, e.0) {
            Some(s) => if e.1 < s {
                prior.push(e.0)
            } else {
                prior
            },
            None => prior,
        }
    }
}

/// The ids received that were never sent.
pub open spec fn unmatched(sent: Seq<(u64, u64)>, received: Seq<(u64, u64)>) -> Seq<u64>
    decreases received.len(),
{
    if received.len() == 0 {
        Seq::empty()
    } else {
        let e = received.last();
        let prior = unmatched(sent, received.drop_last());
        if instant_of(sent, e.0) is None {
            prior.push(e.0)
        } else {
            prior
        }
    }
}

/// The pairing of a send ledger with a receive ledger.
pub struct Report {
    /// `(id, latency in microseconds)` for each valid pair.
    pub latencies: Vec<(u64, u64)>,
    /// Ids whose receive instant precedes their send instant.
    pub skewed: Vec<u64>,
    /// Ids received but absent from the send ledger.
    pub unmatched: Vec<u64>,
}

/// Joins the two ledgers by sequence id, in the order of the receive ledger.
pub fn build_report(sent: &Ledger, received: &Ledger) -> (r: Report)
    requires
        sent.wf(),
        received.wf(),
    ensures
        r.latencies@ == latencies(sent@, received@),
        r.skewed@ == skewed(sent@, received@),
        r.unmatched@ == unmatched(sent@, received@),
{
    let mut lat: Vec<(u64, u64)> = Vec::new();
    let mut skew: Vec<u64> = Vec::new();
    let mut missing: Vec<u64> = Vec::new();
    let n = received.len();
    let mut i: usize = 0;
    while i < n
        invariant
            sent.wf(),
            n == received@.len(),
            i <= n,
            lat@ == latencies(sent@, received@.take(i as int)),
            skew@ == skewed(sent@, received@.take(i as int)),
            missing@ == unmatched(sent@, received@.take(i as int)),
        decreases n - i,
    {
        let (id, at) = received.entry(i);
        proof {
            assert(received@.take(i + 1).drop_last() == received@.take(i as int));
            assert(received@.take(i + 1).last() == received@[i as int]);
        }
        match sent.get(id) {
            Some(s) => {
                if s <= at {
                    lat.push((id, at - s));
                } else {
                    skew.push(id);
                }
            },
            None => {
                missing.push(id);
            },
        }
        i = i + 1;
    }
    proof {
        assert(received@.take(n as int) == received@);
    }
    Report { latencies: lat, skewed: skew, unmatched: missing }
}

/// The total of the latencies.
pub open spec fn latency_sum(s: Seq<(u64, u64)>) -> int
    decreases s.len(),
{
    if s.len() == 0 {
        0
    } else {
        latency_sum(s.drop_last()) + s.last().1
    }
}

/// The smallest latency; none for an empty sequence.
pub open spec fn latency_min(s: Seq<(u64, u64)>) -> Option<u64>
    decreases s.len(),
{
    if s.len() == 0 {
        None
    } else {
        match latency_min(s.drop_last()) {
            Some(m) => Some(if s.last().1 < m { s.last().1 } else { m }),
            None => Some(s.last().1),
        }
    }
}

/// The largest latency; none for an empty sequence.
pub open spec fn latency_max(s: Seq<(u64, u64)>) -> Option<u64>
    decreases s.len(),
{
    if s.len() == 0 {
        None
    } else {
        match latency_max(s.drop_last()) {
            Some(m) => Some(if s.last().1 > m { s.last().1 } else { m }),
            None => Some(s.last().1),
        }
    }
}

/// Count, extremes and total of a set of latencies, in microseconds.
#[derive(Clone, Copy, Debug, PartialEq, Eq, Structural)]
pub struct Summary {
    pub count: usize,
    pub sum: u128,
    pub min: Option<u64>,
    pub max: Option<u64>,
}

impl Summary {
    /// The mean latency rounded down; none when there is nothing to average.
    pub fn mean(&self) -> (r: Option<u128>)
        ensures
            self.count == 0 ==> r.is_none(),
            self.count > 0 ==> r == Some((self.sum / (self.count as u128)) as u128),
    {
        if self.count == 0 {
            None
        } else {
            Some(self.sum / (self.count as u128))
        }
    }
}

proof fn lemma_latency_sum_bound(s: Seq<(u64, u64)>)
    ensures
        0 <= latency_sum(s) <= s.len() * (u64::MAX as int),
    decreases s.len(),
{
    if s.len() > 0 {
        lemma_latency_sum_bound(s.drop_last());
    }
}

/// Statistics over `lat`'s latencies.
pub fn summarize(lat: &Vec<(u64, u64)>) -> (r: Summary)
    ensures
        r.count == lat@.len(),
        r.sum == latency_sum(lat@),
        r.min == latency_min(lat@),
        r.max == latency_max(lat@),
{
    let mut sum: u128 = 0;
    let mut min: Option<u64> = None;
    let mut max: Option<u64> = None;
    let mut i: usize = 0;
    while i < lat.len()
        invariant
            i <= lat@.len(),
            sum == latency_sum(lat@.take(i as int)),
            min == latency_min(lat@.take(i as int)),
            max == latency_max(lat@.take(i as int)),
        decreases lat@.len() - i,
    {
        let x = lat[i].1;
        proof {
            let p = lat@.take(i as int);
            assert(lat@.take(i + 1).drop_last() == p);
            lemma_latency_sum_bound(p);
            assert(p.len() * (u64::MAX as int) + (u64::MAX as int) <= u128::MAX) by (nonlinear_arith)
                requires
                    p.len() < 0x1_0000_0000_0000_0000,
            ;
        }
        sum = sum + x as u128;
        min = match min {
            Some(m) => Some(if x < m { x } else { m }),
            None => Some(x),
        };
        max = match max {
            Some(m) => Some(if x > m { x } else { m }),
            None => Some(x),
        };
        i = i + 1;
    }
    proof {
        assert(lat@.take(i as int) == lat@);
    }
    Summary { count: lat.len(), sum, min, max }
}

/// The decimal digits of `n`, most significant first, as ASCII bytes.
pub open spec fn decimal(n: nat) -> Seq<u8>
    decreases n,
{
    if n < 10 {
        seq![(48 + n) as u8]
    } else {
        decimal(n / 10).push((48 + n % 10) as u8)
    }
}

/// One line of the latency table: id, a tab, latency, a newline.
pub open spec fn tsv_line(e: (u64, u64)) -> Seq<u8> {
    decimal(e.0 as nat).push(9u8) + decimal(e.1 as nat).push(10u8)
}

/// The latency table: one line per pair, in order.
pub open spec fn tsv(s: Seq<(u64, u64)>) -> Seq<u8>
    decreases s.len(),
{
    if s.len() == 0 {
        Seq::empty()
    } else {
        tsv(s.drop_last()) + tsv_line(s.last())
    }
}

/// Appends the decimal digits of `n` to `out`.
pub fn push_decimal(out: &mut Vec<u8>, n: u64)
    ensures
        final(out)@ == old(out)@ + decimal(n as nat),
    decreases n,
{
    if n < 10 {
        out.push(48u8 + n as u8);
    } else {
        push_decimal(out, n / 10);
        out.push(48u8 + (n % 10) as u8);
    }
}

/// The bytes of the latency table for `lat`.
pub fn tsv_bytes(lat: &Vec<(u64, u64)>) -> (r: Vec<u8>)
    ensures
        r@ == tsv(lat@),
{
    let mut out: Vec<u8> = Vec::new();
    let mut i: usize = 0;
    while i < lat.len()
        invariant
            i <= lat@.len(),
            out@ == tsv(lat@.take(i as int)),
        decreases lat@.len() - i,
    {
        let (id, l) = lat[i];
        let ghost before = out@;
        proof {
            assert(lat@.take(i + 1).drop_last() == lat@.take(i as int));
        }
        push_decimal(&mut out, id);
        out.push(9u8);
        push_decimal(&mut out, l);
        out.push(10u8);
        proof {
            assert(out@ == before + tsv_line((id, l)));
        }
        i = i + 1;
    }
    proof {
        assert(lat@.take(i as int) == lat@);
    }
    out
}

/// The name of the table file for a run over `n` payloads:
/// `<prefix>-<n>.tsv`.
pub fn output_name(prefix: &Vec<u8>, n: u64) -> (r: Vec<u8>)
    ensures
        r@ == prefix@.push(45u8) + decimal(n as nat) + seq![46u8, 116u8, 115u8, 118u8],
{
    let mut out: Vec<u8> = Vec::new();
    let mut i: usize = 0;
    while i < prefix.len()
        invariant
            i <= prefix@.len(),
            out@ == prefix@.take(i as int),
        decreases prefix@.len() - i,
    {
        out.push(prefix[i]);
        proof {
            assert(prefix@.take(i + 1) == prefix@.take(i as int).push(prefix@[i as int]));
        }
        i = i + 1;
    }
    proof {
        assert(prefix@.take(i as int) == prefix@);
    }
    out.push(45u8);
    push_decimal(&mut out, n);
    out.push(46u8);
    out.push(116u8);
    out.push(115u8);
    out.push(118u8);
    out
}

/// The latency table of a pair of ledgers.
pub open spec fn table(sent: Seq<(u64, u64)>, received: Seq<(u64, u64)>) -> Seq<u8> {
    tsv(latencies(sent, received))
}

/// The bytes of the latency table for the two ledgers of a run.
pub fn report_table(sent: &Ledger, received: &Ledger) -> (r: Vec<u8>)
    requires
        sent.wf(),
        received.wf(),
    ensures
        r@ == table(sent@, received@),
{
    let report = build_report(sent, received);
    tsv_bytes(&report.latencies)
}

/// The table depends on the ledgers' contents alone: reporting twice over
/// the same ledgers gives the same bytes.
pub proof fn lemma_table_deterministic(
    sent1: Seq<(u64, u64)>,
    received1: Seq<(u64, u64)>,
    sent2: Seq<(u64, u64)>,
    received2: Seq<(u64, u64)>,
)
    requires
        sent1 == sent2,
        received1 == received2,
    ensures
        table(sent1, received1) == table(sent2, received2),
{
}

/// Every latency in a report belongs to a received id that was sent no
/// later than it was received, and equals the difference of the two instants.
pub proof fn lemma_latencies_paired(sent: Seq<(u64, u64)>, received: Seq<(u64, u64)>, i: int)
    requires
        0 <= i < latencies(sent, received).len(),
    ensures
        ({
            let e = latencies(sent, received)[i];
            exists|j: int|
                0 <= j < received.len() && (#[trigger] received[j]).0 == e.0 && instant_of(sent, e.0)
                    == Some((received[j].1 - e.1) as u64) && e.1 <= received[j].1
        }),
    decreases received.len(),
{
    let p = received.drop_last();
    let prior = latencies(sent, p);
    if i < prior.len() {
        lemma_latencies_paired(sent, p, i);
        let e = prior[i];
        let j = choose|j: int|
            0 <= j < p.len() && (#[trigger] p[j]).0 == e.0 && instant_of(sent, e.0) == Some(
                (p[j].1 - e.1) as u64,
            ) && e.1 <= p[j].1;
        assert(received[j] == p[j]);
        assert(latencies(sent, received)[i] == e);
    } else {
        let j = received.len() - 1;
        assert(received[j] == received.last());
    }
}

} // verus!

//! Latency statistics kept by the notification consumer.

use vstd::prelude::*;
use crate::types::BookNotification;

verus! {

/// Sum of the values of `s`.
pub open spec fn seq_sum(s: Seq<u64>) -> nat
    decreases s.len(),
{
    if s.len() == 0 {
        0
    } else {
        seq_sum(s.drop_last()) + s.last() as nat
    }
}

/// `s` is in ascending order.
pub open spec fn ascending(s: Seq<u64>) -> bool {
    forall|i: int, j: int| 0 <= i < j < s.len() ==> s[i] <= s[j]
}

/// Position in a sorted list of `n` samples that the percentile `p`, given in
/// hundredths of a percent, selects: `p * (n - 1) / 10000`, at most `n - 1`.
pub open spec fn percentile_index(p: u64, n: nat) -> int {
    let i = (p as int * (n as int - 1)) / 10000;
    if i < n as int - 1 {
        i
    } else {
        n as int - 1
    }
}

/// Relies on slice::sort_unstable: the result holds the same values in
/// ascending order.
#[verifier::external_body]
fn sorted_ascending(v: Vec<u64>) -> (r: Vec<u64>)
    ensures
        r@.to_multiset() == v@.to_multiset(),
        ascending(r@),
{
    let mut v = v;
    v.sort_unstable();
    v
}

/// Latency statistics: count, total, extremes and every sample.
pub struct StrategyStats {
    pub count: u64,
    pub total_latency_ns: u64,
    pub min_latency_ns: u64,
    pub max_latency_ns: u64,
    /// Every recorded sample, in order of recording.
    pub latencies: Vec<u64>,
}

impl StrategyStats {
    /// The fields agree with the samples: `count` is their number,
    /// `total_latency_ns` their sum, `min_latency_ns` their least value
    /// (`u64::MAX` when there is none) and `max_latency_ns` their greatest
    /// (0 when there is none).
    pub open spec fn wf(&self) -> bool {
        let s = self.latencies@;
        &&& self.count == s.len()
        &&& self.total_latency_ns == seq_sum(s)
        &&& forall|i: int| 0 <= i < s.len() ==> self.min_latency_ns <= #[trigger] s[i]
        &&& forall|i: int| 0 <= i < s.len() ==> #[trigger] s[i] <= self.max_latency_ns
        &&& s.len() == 0 ==> self.min_latency_ns == u64::MAX && self.max_latency_ns == 0
        &&& s.len() > 0 ==> s.contains(self.min_latency_ns) && s.contains(self.max_latency_ns)
    }

    /// Statistics with no sample.
    pub fn new() -> (r: Self)
        ensures
            r.wf(),
            r.latencies@ == Seq::<u64>::empty(),
    {
        StrategyStats {
            count: 0,
            total_latency_ns: 0,
            min_latency_ns: u64::MAX,
            max_latency_ns: 0,
            latencies: Vec::new(),
        }
    }

    /// Record one latency sample.
    pub fn record(&mut self, latency_ns: u64)
        requires
            old(self).wf(),
            old(self).total_latency_ns + latency_ns <= u64::MAX,
            old(self).count < u64::MAX,
        ensures
            final(self).wf(),
            final(self).latencies@ == old(self).latencies@.push(latency_ns),
            final(self).count == old(self).count + 1,
            final(self).total_latency_ns == old(self).total_latency_ns + latency_ns,
            final(self).min_latency_ns == if latency_ns < old(self).min_latency_ns {
                latency_ns
            } else {
                old(self).min_latency_ns
            },
            final(self).max_latency_ns == if latency_ns > old(self).max_latency_ns {
                latency_ns
            } else {
                old(self).max_latency_ns
            },
    {
        self.count = self.count + 1;
        self.total_latency_ns = self.total_latency_ns + latency_ns;
        if latency_ns < self.min_latency_ns {
            self.min_latency_ns = latency_ns;
        }
        if latency_ns > self.max_latency_ns {
            self.max_latency_ns = latency_ns;
        }
        let ghost before = self.latencies@;
        self.latencies.push(latency_ns);
        proof {
            assert(self.latencies@.drop_last() =~= before);
            assert(self.latencies@[before.len() as int] == latency_ns);
            if before.len() > 0 {
                assert(self.latencies@.contains(self.min_latency_ns)) by {
                    if latency_ns < old(self).min_latency_ns {
                        assert(self.latencies@[before.len() as int] == self.min_latency_ns);
                    } else {
                        let i = choose|i: int| 0 <= i < before.len() && before[i] == self.min_latency_ns;
                        assert(self.latencies@[i] == self.min_latency_ns);
                    }
                }
                assert(self.latencies@.contains(self.max_latency_ns)) by {
                    if latency_ns > old(self).max_latency_ns {
                        assert(self.latencies@[before.len() as int] == self.max_latency_ns);
                    } else {
                        let i = choose|i: int| 0 <= i < before.len() && before[i] == self.max_latency_ns;
                        assert(self.latencies@[i] == self.max_latency_ns);
                    }
                }
            } else {
                assert(self.latencies@[0] == latency_ns);
            }
        }
    }

    /// Record the latency of a received notification: the receive time less
    /// the notification's send time, or zero when the receive time is earlier.
    /// Returns the latency recorded.
    pub fn record_notification(&mut self, notif: &BookNotification, recv_ns: u64) -> (r: u64)
        requires
            old(self).wf(),
            old(self).total_latency_ns + (if recv_ns >= notif.engine_send_ns {
                recv_ns - notif.engine_send_ns
            } else {
                0
            }) <= u64::MAX,
            old(self).count < u64::MAX,
        ensures
            r == (if recv_ns >= notif.engine_send_ns {
                recv_ns - notif.engine_send_ns
            } else {
                0
            }),
            final(self).wf(),
            final(self).latencies@ == old(self).latencies@.push(r),
            final(self).total_latency_ns == old(self).total_latency_ns + r,
    {
        let latency_ns = recv_ns.saturating_sub(notif.engine_send_ns);
        self.record(latency_ns);
        latency_ns
    }

    /// Mean latency, rounded down; zero when there is no sample.
    pub fn avg_latency_ns(&self) -> (r: u64)
        ensures
            self.count == 0 ==> r == 0,
            self.count > 0 ==> r == self.total_latency_ns / self.count,
    {
        if self.count == 0 {
            return 0;
        }
        self.total_latency_ns / self.count
    }

    /// The sample at percentile `p`, given in hundredths of a percent (so
    /// 5000 is the median and 9990 the 99.9th percentile): with the samples
    /// sorted ascending, the one at `percentile_index(p, n)`. Zero when there
    /// is no sample.
    pub fn percentile(&self, p: u64) -> (r: u64)
        ensures
            self.latencies@.len() == 0 ==> r == 0,
            self.latencies@.len() > 0 ==> exists|t: Seq<u64>|
                #![trigger t.to_multiset()]
                t.to_multiset() == self.latencies@.to_multiset() && ascending(t)
                    && r == t[percentile_index(p, self.latencies@.len())],
    {
        if self.latencies.len() == 0 {
            return 0;
        }
        let sorted = sorted_ascending(self.latencies.clone());
        proof {
            sorted@.to_multiset_ensures();
            self.latencies@.to_multiset_ensures();
        }
        let n = sorted.len();
        let last: u128 = (n - 1) as u128;
        proof {
            assert((p as u128) * last <= u128::MAX) by (nonlinear_arith)
                requires
                    p <= u64::MAX,
                    last <= u64::MAX,
            ;
        }
        let scaled: u128 = (p as u128) * last / 10000;
        let idx: usize = if scaled < (n - 1) as u128 {
            scaled as usize
        } else {
            n - 1
        };
        sorted[idx]
    }

    /// The median sample: the percentile 5000.
    pub fn median(&self) -> (r: u64)
        ensures
            self.latencies@.len() == 0 ==> r == 0,
            self.latencies@.len() > 0 ==> exists|t: Seq<u64>|
                #![trigger t.to_multiset()]
                t.to_multiset() == self.latencies@.to_multiset() && ascending(t)
                    && r == t[(self.latencies@.len() - 1) / 2],
    {
        self.percentile(5000)
    }
}

} // verus!

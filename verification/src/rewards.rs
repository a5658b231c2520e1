//! The driver reward engine: counts rides assigned to a driver, pays one
//! token per ride in whole batches, and keeps a per-driver watermark of ride
//! counts already rewarded so no batch is ever paid twice.

use vstd::prelude::*;
use vstd::string::StringExecFns;

use crate::identity::{decoded_identity, identity_from_text};
use crate::ledger::{Ledger, TOTAL_SUPPLY};
use crate::rides::{Marketplace, Ride};
use crate::text::{dec_str, u64_to_dec};

verus! {

/// The reward batch size: rewards are paid only for whole batches of rides.
pub const REWARD_BATCH: u64 = 10;

/// Per-driver reward bookkeeping: the last computed assigned-ride count and
/// the high-water mark of ride counts already rewarded.
#[derive(Clone, Copy, PartialEq, Eq, Structural, Debug)]
pub struct DriverStats {
    pub completed_rides: u64,
    pub last_reward_at: u64,
}

/// The ride count already eligible for reward: `c` rounded down to a whole
/// batch.
pub open spec fn eligible_of(c: nat) -> nat {
    (c / (REWARD_BATCH as nat)) * (REWARD_BATCH as nat)
}

/// The reward still owed for a count of `c` against a watermark of `last`.
pub open spec fn pending_of(c: nat, last: nat) -> nat {
    if eligible_of(c) > last {
        (eligible_of(c) - last) as nat
    } else {
        0
    }
}

/// The watermark after one reward check at count `c` against `last`.
pub open spec fn next_watermark(c: nat, last: nat) -> nat {
    if pending_of(c, last) > 0 {
        eligible_of(c)
    } else {
        last
    }
}

/// Reward monotonicity: one reward check never lowers the watermark, and the
/// pending amount is exactly the eligible count in excess of the watermark,
/// never negative.
pub proof fn lemma_reward_watermark_monotone(c: nat, last: nat)
    ensures
        next_watermark(c, last) >= last,
        pending_of(c, last) == if eligible_of(c) > last {
            eligible_of(c) - last
        } else {
            0
        },
{
}

/// No double pay: once the watermark stands at the eligible count for `c`, a
/// further check at the same count owes nothing.
pub proof fn lemma_no_double_reward(c: nat)
    ensures
        pending_of(c, eligible_of(c)) == 0,
{
}

/// How many rides in `rides` have this driver assigned.
pub open spec fn assigned_count(rides: Seq<Ride>, d: Seq<char>) -> nat
    decreases rides.len(),
{
    if rides.len() == 0 {
        0
    } else {
        assigned_count(rides.drop_last(), d) + if rides.last().driver_id matches Some(x) && x@
            == d {
            1nat
        } else {
            0nat
        }
    }
}

proof fn lemma_assigned_count_le(rides: Seq<Ride>, d: Seq<char>)
    ensures
        assigned_count(rides, d) <= rides.len(),
    decreases rides.len(),
{
    if rides.len() > 0 {
        lemma_assigned_count_le(rides.drop_last(), d);
    }
}

/// The reward table: one record per driver ever checked.
pub struct DriverStatsTable {
    pub entries: Vec<(String, DriverStats)>,
}

/// No two records name the same driver.
pub open spec fn stats_keys_unique(s: Seq<(String, DriverStats)>) -> bool {
    forall|i: int, j: int| 0 <= i < j < s.len() ==> s[i].0@ != s[j].0@
}

/// The record for driver `d`; an all-zero record when none exists yet.
pub open spec fn stats_of(s: Seq<(String, DriverStats)>, d: Seq<char>) -> DriverStats
    decreases s.len(),
{
    if s.len() == 0 {
        DriverStats { completed_rides: 0, last_reward_at: 0 }
    } else if s.last().0@ == d {
        s.last().1
    } else {
        stats_of(s.drop_last(), d)
    }
}

proof fn lemma_stats_at(s: Seq<(String, DriverStats)>, d: Seq<char>, i: int)
    requires
        stats_keys_unique(s),
        0 <= i < s.len(),
        s[i].0@ == d,
    ensures
        stats_of(s, d) == s[i].1,
    decreases s.len(),
{
    if i < s.len() - 1 {
        assert(s.last().0@ != d);
        assert forall|a: int, b: int|
            0 <= a < b < s.drop_last().len() implies s.drop_last()[a].0@ != s.drop_last()[b].0@ by {
            assert(s[a].0@ != s[b].0@);
        }
        lemma_stats_at(s.drop_last(), d, i);
    }
}

proof fn lemma_stats_absent(s: Seq<(String, DriverStats)>, d: Seq<char>)
    requires
        forall|i: int| 0 <= i < s.len() ==> (#[trigger] s[i]).0@ != d,
    ensures
        stats_of(s, d) == (DriverStats { completed_rides: 0, last_reward_at: 0 }),
    decreases s.len(),
{
    if s.len() > 0 {
        lemma_stats_absent(s.drop_last(), d);
    }
}

proof fn lemma_stats_update(s: Seq<(String, DriverStats)>, i: int, p: (String, DriverStats))
    requires
        stats_keys_unique(s),
        0 <= i < s.len(),
        p.0@ == s[i].0@,
    ensures
        stats_keys_unique(s.update(i, p)),
        forall|k: Seq<char>|
            #[trigger] stats_of(s.update(i, p), k) == if k == p.0@ {
                p.1
            } else {
                stats_of(s, k)
            },
    decreases s.len(),
{
    let t = s.update(i, p);
    assert forall|a: int, b: int| 0 <= a < b < t.len() implies t[a].0@ != t[b].0@ by {
        assert(s[a].0@ != s[b].0@);
    }
    if i == s.len() - 1 {
        assert(t.drop_last() =~= s.drop_last());
        assert forall|k: Seq<char>|
            #[trigger] stats_of(t, k) == if k == p.0@ {
                p.1
            } else {
                stats_of(s, k)
            } by {
            if k != p.0@ {
                assert(stats_of(t, k) == stats_of(t.drop_last(), k));
            }
        }
    } else {
        assert forall|a: int, b: int|
            0 <= a < b < s.drop_last().len() implies s.drop_last()[a].0@ != s.drop_last()[b].0@ by {
            assert(s[a].0@ != s[b].0@);
        }
        assert(t.drop_last() =~= s.drop_last().update(i, p));
        assert(t.last() == s.last());
        lemma_stats_update(s.drop_last(), i, p);
        assert forall|k: Seq<char>|
            #[trigger] stats_of(t, k) == if k == p.0@ {
                p.1
            } else {
                stats_of(s, k)
            } by {
            assert(s.last().0@ != p.0@);
            if k == s.last().0@ {
                assert(stats_of(t, k) == t.last().1);
                assert(stats_of(s, k) == s.last().1);
            } else {
                assert(stats_of(t, k) == stats_of(t.drop_last(), k));
                assert(stats_of(s, k) == stats_of(s.drop_last(), k));
                assert(stats_of(t.drop_last(), k) == stats_of(s.drop_last().update(i, p), k));
            }
        }
    }
}

proof fn lemma_stats_push(s: Seq<(String, DriverStats)>, p: (String, DriverStats))
    requires
        stats_keys_unique(s),
        forall|i: int| 0 <= i < s.len() ==> (#[trigger] s[i]).0@ != p.0@,
    ensures
        stats_keys_unique(s.push(p)),
        forall|k: Seq<char>|
            #[trigger] stats_of(s.push(p), k) == if k == p.0@ {
                p.1
            } else {
                stats_of(s, k)
            },
{
    let t = s.push(p);
    assert(t.drop_last() =~= s);
    assert forall|a: int, b: int| 0 <= a < b < t.len() implies t[a].0@ != t[b].0@ by {
        if b < t.len() - 1 {
            assert(s[a].0@ != s[b].0@);
        }
    }
}

fn find_stats(entries: &Vec<(String, DriverStats)>, d: &String) -> (r: Option<usize>)
    ensures
        match r {
            Some(i) => i < entries@.len() && entries@[i as int].0@ == d@,
            None => forall|j: int| 0 <= j < entries@.len() ==> (#[trigger] entries@[j]).0@ != d@,
        },
{
    let mut i: usize = 0;
    while i < entries.len()
        invariant
            i <= entries@.len(),
            forall|j: int| 0 <= j < i ==> (#[trigger] entries@[j]).0@ != d@,
        decreases entries@.len() - i,
    {
        if entries[i].0 == *d {
            return Some(i);
        }
        i = i + 1;
    }
    None
}

impl DriverStatsTable {
    /// The table invariant: one record per driver.
    pub open spec fn wf(self) -> bool {
        stats_keys_unique(self.entries@)
    }

    /// The record for driver `d`; all zero when the driver was never checked.
    pub open spec fn spec_stats(self, d: Seq<char>) -> DriverStats {
        stats_of(self.entries@, d)
    }

    /// An empty table.
    pub fn new() -> (r: DriverStatsTable)
        ensures
            r.wf(),
            forall|k: Seq<char>| #[trigger] r.spec_stats(k) == (DriverStats {
                completed_rides: 0,
                last_reward_at: 0,
            }),
    {
        DriverStatsTable { entries: Vec::new() }
    }

    /// The current record for driver `d`, an all-zero record when absent.
    pub fn get_stats(&self, d: &String) -> (r: DriverStats)
        requires
            self.wf(),
        ensures
            r == self.spec_stats(d@),
    {
        match find_stats(&self.entries, d) {
            Some(i) => {
                proof {
                    lemma_stats_at(self.entries@, d@, i as int);
                }
                self.entries[i].1
            },
            None => {
                proof {
                    lemma_stats_absent(self.entries@, d@);
                }
                DriverStats { completed_rides: 0, last_reward_at: 0 }
            },
        }
    }

    /// Write the record for driver `d`, creating it when absent.
    fn set_stats(&mut self, d: &String, v: DriverStats)
        requires
            old(self).wf(),
        ensures
            final(self).wf(),
            final(self).spec_stats(d@) == v,
            forall|k: Seq<char>|
                k != d@ ==> #[trigger] final(self).spec_stats(k) == old(self).spec_stats(k),
    {
        match find_stats(&self.entries, d) {
            Some(i) => {
                let ghost s0 = self.entries@;
                let (key, _) = self.entries.remove(i);
                let entry = (key, v);
                proof {
                    lemma_stats_update(s0, i as int, entry);
                }
                self.entries.insert(i, entry);
                proof {
                    assert(self.entries@ =~= s0.update(i as int, entry));
                }
            },
            None => {
                let entry = (d.clone(), v);
                proof {
                    lemma_stats_push(self.entries@, entry);
                }
                self.entries.push(entry);
            },
        }
    }
}

/// The status message after a granted reward of `p` tokens at a count of `c`.
pub open spec fn msg_reward(p: nat, c: nat) -> Seq<char> {
    "🎉 Congratulations! "@ + dec_str(p) + " RDT tokens rewarded for completing "@ + dec_str(c)
        + " rides!"@
}

/// The status message when nothing is owed at a count of `c`: how many more
/// rides complete the next batch.
pub open spec fn msg_progress(c: nat) -> Seq<char> {
    "🚗 You have completed "@ + dec_str(c) + " rides. Complete "@ + dec_str(
        (REWARD_BATCH - (c % (REWARD_BATCH as nat))) as nat,
    ) + " more rides for your next reward."@
}

/// One reward check for `driver_id`: recount the rides assigned to the
/// driver, and pay any whole batches not yet rewarded straight into the
/// ledger, advancing the watermark. The driver label must decode to an
/// identity for a payment to go through; the supply cap is honoured and a
/// reward that would breach it is refused with no state change beyond the
/// recount.
pub fn check_driver_rewards(
    stats: &mut DriverStatsTable,
    market: &Marketplace,
    ledger: &mut Ledger,
    driver_id: String,
) -> (r: String)
    requires
        old(stats).wf(),
        old(ledger).wf(),
    ensures
        final(stats).wf(),
        final(ledger).wf(),
        forall|k: Seq<char>|
            k != driver_id@ ==> #[trigger] final(stats).spec_stats(k) == old(stats).spec_stats(k),
        ({
            let c = assigned_count(market.rides@, driver_id@);
            let last = old(stats).spec_stats(driver_id@).last_reward_at;
            let pend = pending_of(c, last as nat);
            &&& final(stats).spec_stats(driver_id@).completed_rides == c
            &&& pend == 0 ==> {
                &&& final(stats).spec_stats(driver_id@).last_reward_at == last
                &&& *final(ledger) == *old(ledger)
                &&& r@ == msg_progress(c)
            }
            &&& pend > 0 && decoded_identity(driver_id@) is None ==> {
                &&& final(stats).spec_stats(driver_id@).last_reward_at == last
                &&& *final(ledger) == *old(ledger)
                &&& r@ == "❌ Error: Invalid driver ID"@
            }
            &&& pend > 0 && decoded_identity(driver_id@) is Some ==> {
                let b = decoded_identity(driver_id@)->0;
                if old(ledger).issued_supply + pend <= TOTAL_SUPPLY {
                    &&& final(stats).spec_stats(driver_id@).last_reward_at == eligible_of(c)
                    &&& final(stats).spec_stats(driver_id@).last_reward_at == next_watermark(
                        c,
                        last as nat,
                    )
                    &&& final(ledger).issued_supply == old(ledger).issued_supply + pend
                    &&& final(ledger).spec_balance(b) == old(ledger).spec_balance(b) + pend
                    &&& forall|k: Seq<u8>|
                        k != b ==> #[trigger] final(ledger).spec_balance(k) == old(
                            ledger,
                        ).spec_balance(k)
                    &&& r@ == msg_reward(pend, c)
                } else {
                    &&& final(stats).spec_stats(driver_id@).last_reward_at == last
                    &&& *final(ledger) == *old(ledger)
                    &&& r@ == "❌ Reward failed: Exceeds total supply."@
                }
            }
        }),
{
    // Count the rides with this driver assigned.
    let mut count: u64 = 0;
    let mut i: usize = 0;
    while i < market.rides.len()
        invariant
            i <= market.rides@.len(),
            count <= i,
            count == assigned_count(market.rides@.take(i as int), driver_id@),
        decreases market.rides@.len() - i,
    {
        proof {
            assert(market.rides@.take((i + 1) as int).drop_last() =~= market.rides@.take(i as int));
        }
        let assigned = match &market.rides[i].driver_id {
            Some(d) => *d == driver_id,
            None => false,
        };
        if assigned {
            count = count + 1;
        }
        i = i + 1;
    }
    proof {
        assert(market.rides@.take(market.rides@.len() as int) =~= market.rides@);
    }
    let prev = stats.get_stats(&driver_id);
    let eligible = (count / REWARD_BATCH) * REWARD_BATCH;
    let pending = if eligible > prev.last_reward_at {
        eligible - prev.last_reward_at
    } else {
        0
    };
    if pending > 0 {
        match identity_from_text(&driver_id) {
            Some(ident) => {
                if ledger.credit(&ident, pending) {
                    stats.set_stats(
                        &driver_id,
                        DriverStats { completed_rides: count, last_reward_at: eligible },
                    );
                    let mut m = "🎉 Congratulations! ".to_owned();
                    let p = u64_to_dec(pending);
                    m.append(p.as_str());
                    m.append(" RDT tokens rewarded for completing ");
                    let cs = u64_to_dec(count);
                    m.append(cs.as_str());
                    m.append(" rides!");
                    proof {
                        assert(m@ =~= msg_reward(pending as nat, count as nat));
                    }
                    m
                } else {
                    stats.set_stats(
                        &driver_id,
                        DriverStats {
                            completed_rides: count,
                            last_reward_at: prev.last_reward_at,
                        },
                    );
                    "❌ Reward failed: Exceeds total supply.".to_owned()
                }
            },
            None => {
                stats.set_stats(
                    &driver_id,
                    DriverStats { completed_rides: count, last_reward_at: prev.last_reward_at },
                );
                "❌ Error: Invalid driver ID".to_owned()
            },
        }
    } else {
        stats.set_stats(
            &driver_id,
            DriverStats { completed_rides: count, last_reward_at: prev.last_reward_at },
        );
        let mut m = "🚗 You have completed ".to_owned();
        let cs = u64_to_dec(count);
        m.append(cs.as_str());
        m.append(" rides. Complete ");
        let rem = u64_to_dec(REWARD_BATCH - (count % REWARD_BATCH));
        m.append(rem.as_str());
        m.append(" more rides for your next reward.");
        proof {
            assert(m@ =~= msg_progress(count as nat));
        }
        m
    }
}

} // verus!

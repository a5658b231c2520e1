//! The token ledger: a capped-supply balance per identity, with mint and
//! transfer primitives. The well-formedness invariant ties the issued supply
//! to the sum of all balances and keeps it under the total supply cap.

use vstd::prelude::*;
use vstd::string::StringExecFns;

use crate::identity::{anonymous_bytes, Identity};
use crate::text::{dec_str, u64_to_dec};

verus! {

/// The fixed cap on cumulative tokens ever minted.
pub const TOTAL_SUPPLY: u64 = 1_000_000_000;

#[derive(Clone, Copy, PartialEq, Eq, Structural, Debug)]
pub enum LedgerError {
    RejectedAnonymous,
    SupplyExceeded,
    InsufficientBalance,
}

/// The token ledger state: one balance entry per identity, plus the
/// cumulative issued supply.
pub struct Ledger {
    pub accounts: Vec<(Identity, u64)>,
    pub issued_supply: u64,
}

/// No two entries hold the same identity.
pub open spec fn keys_unique(s: Seq<(Identity, u64)>) -> bool {
    forall|i: int, j: int| 0 <= i < j < s.len() ==> s[i].0@ != s[j].0@
}

/// The sum of all balances held in `s`.
pub open spec fn sum_of(s: Seq<(Identity, u64)>) -> int
    decreases s.len(),
{
    if s.len() == 0 {
        0
    } else {
        sum_of(s.drop_last()) + s.last().1
    }
}

/// The balance of the identity with bytes `k`: zero when no entry holds it.
pub open spec fn bal_of(s: Seq<(Identity, u64)>, k: Seq<u8>) -> u64
    decreases s.len(),
{
    if s.len() == 0 {
        0u64
    } else if s.last().0@ == k {
        s.last().1
    } else {
        bal_of(s.drop_last(), k)
    }
}

/// Whether some entry holds the identity with bytes `k`.
pub open spec fn has_key(s: Seq<(Identity, u64)>, k: Seq<u8>) -> bool {
    exists|i: int| 0 <= i < s.len() && s[i].0@ == k
}

proof fn lemma_unique_prefix(s: Seq<(Identity, u64)>)
    requires
        keys_unique(s),
        s.len() > 0,
    ensures
        keys_unique(s.drop_last()),
{
    assert forall|i: int, j: int|
        0 <= i < j < s.drop_last().len() implies s.drop_last()[i].0@ != s.drop_last()[j].0@ by {
        assert(s[i].0@ != s[j].0@);
    }
}

proof fn lemma_sum_nonneg(s: Seq<(Identity, u64)>)
    ensures
        sum_of(s) >= 0,
    decreases s.len(),
{
    if s.len() > 0 {
        lemma_sum_nonneg(s.drop_last());
    }
}

proof fn lemma_entry_le_sum(s: Seq<(Identity, u64)>, i: int)
    requires
        0 <= i < s.len(),
    ensures
        s[i].1 <= sum_of(s),
    decreases s.len(),
{
    lemma_sum_nonneg(s.drop_last());
    if i < s.len() - 1 {
        lemma_entry_le_sum(s.drop_last(), i);
    }
}

proof fn lemma_bal_at(s: Seq<(Identity, u64)>, k: Seq<u8>, i: int)
    requires
        keys_unique(s),
        0 <= i < s.len(),
        s[i].0@ == k,
    ensures
        bal_of(s, k) == s[i].1,
        bal_of(s, k) <= sum_of(s),
    decreases s.len(),
{
    lemma_entry_le_sum(s, i);
    if i < s.len() - 1 {
        assert(s.last().0@ != k);
        lemma_unique_prefix(s);
        lemma_bal_at(s.drop_last(), k, i);
    }
}

proof fn lemma_bal_absent(s: Seq<(Identity, u64)>, k: Seq<u8>)
    requires
        !has_key(s, k),
    ensures
        bal_of(s, k) == 0,
    decreases s.len(),
{
    if s.len() > 0 {
        assert(!has_key(s.drop_last(), k));
        lemma_bal_absent(s.drop_last(), k);
    }
}

proof fn lemma_update(s: Seq<(Identity, u64)>, i: int, p: (Identity, u64))
    requires
        keys_unique(s),
        0 <= i < s.len(),
        p.0@ == s[i].0@,
    ensures
        keys_unique(s.update(i, p)),
        sum_of(s.update(i, p)) == sum_of(s) - s[i].1 + p.1,
        forall|k: Seq<u8>|
            #[trigger] bal_of(s.update(i, p), k) == if k == p.0@ {
                p.1
            } else {
                bal_of(s, k)
            },
    decreases s.len(),
{
    let t = s.update(i, p);
    assert forall|a: int, b: int| 0 <= a < b < t.len() implies t[a].0@ != t[b].0@ by {
        assert(s[a].0@ != s[b].0@);
    }
    if i == s.len() - 1 {
        assert(t.drop_last() =~= s.drop_last());
        assert forall|k: Seq<u8>|
            #[trigger] bal_of(t, k) == if k == p.0@ {
                p.1
            } else {
                bal_of(s, k)
            } by {
            if k != p.0@ {
                assert(bal_of(t, k) == bal_of(t.drop_last(), k));
            }
        }
    } else {
        lemma_unique_prefix(s);
        assert(t.drop_last() =~= s.drop_last().update(i, p));
        assert(t.last() == s.last());
        lemma_update(s.drop_last(), i, p);
        assert forall|k: Seq<u8>|
            #[trigger] bal_of(t, k) == if k == p.0@ {
                p.1
            } else {
                bal_of(s, k)
            } by {
            assert(s.last().0@ != p.0@);
            if k == s.last().0@ {
                assert(bal_of(t, k) == t.last().1);
                assert(bal_of(s, k) == s.last().1);
            } else {
                assert(bal_of(t, k) == bal_of(t.drop_last(), k));
                assert(bal_of(s, k) == bal_of(s.drop_last(), k));
                assert(bal_of(t.drop_last(), k) == bal_of(s.drop_last().update(i, p), k));
            }
        }
    }
}

proof fn lemma_push(s: Seq<(Identity, u64)>, p: (Identity, u64))
    requires
        keys_unique(s),
        !has_key(s, p.0@),
    ensures
        keys_unique(s.push(p)),
        sum_of(s.push(p)) == sum_of(s) + p.1,
        forall|k: Seq<u8>|
            #[trigger] bal_of(s.push(p), k) == if k == p.0@ {
                p.1
            } else {
                bal_of(s, k)
            },
{
    let t = s.push(p);
    assert(t.drop_last() =~= s);
    assert forall|a: int, b: int| 0 <= a < b < t.len() implies t[a].0@ != t[b].0@ by {
        if b < t.len() - 1 {
            assert(s[a].0@ != s[b].0@);
        }
    }
}

fn find_account(accounts: &Vec<(Identity, u64)>, id: &Identity) -> (r: Option<usize>)
    ensures
        match r {
            Some(i) => i < accounts@.len() && accounts@[i as int].0@ == id@,
            None => !has_key(accounts@, id@),
        },
{
    let mut i: usize = 0;
    while i < accounts.len()
        invariant
            i <= accounts@.len(),
            forall|j: int| 0 <= j < i ==> accounts@[j].0@ != id@,
        decreases accounts@.len() - i,
    {
        if accounts[i].0.same_as(id) {
            return Some(i);
        }
        i = i + 1;
    }
    None
}

impl Ledger {
    /// All invariants of a reachable ledger state: unique account keys, the
    /// issued supply equal to the sum of all balances, and the supply within
    /// the total cap.
    pub open spec fn wf(self) -> bool {
        &&& keys_unique(self.accounts@)
        &&& sum_of(self.accounts@) == self.issued_supply
        &&& self.issued_supply <= TOTAL_SUPPLY
    }

    /// The balance of the identity with bytes `k`; zero for unknown keys.
    pub open spec fn spec_balance(self, k: Seq<u8>) -> u64 {
        bal_of(self.accounts@, k)
    }

    /// An empty ledger: no balances, nothing issued.
    pub fn new() -> (r: Ledger)
        ensures
            r.wf(),
            r.issued_supply == 0,
            forall|k: Seq<u8>| #[trigger] r.spec_balance(k) == 0,
    {
        Ledger { accounts: Vec::new(), issued_supply: 0 }
    }

    /// The balance of `id`; zero for identities never credited.
    pub fn balance_of(&self, id: &Identity) -> (r: u64)
        requires
            self.wf(),
        ensures
            r == self.spec_balance(id@),
    {
        match find_account(&self.accounts, id) {
            Some(i) => {
                proof {
                    lemma_bal_at(self.accounts@, id@, i as int);
                }
                self.accounts[i].1
            },
            None => {
                proof {
                    lemma_bal_absent(self.accounts@, id@);
                }
                0
            },
        }
    }

    /// Credit `amount` to `to` and raise the issued supply by the same
    /// amount, unless that would push the supply over `TOTAL_SUPPLY`, in
    /// which case nothing changes and the call reports failure.
    pub fn credit(&mut self, to: &Identity, amount: u64) -> (ok: bool)
        requires
            old(self).wf(),
        ensures
            final(self).wf(),
            ok == (old(self).issued_supply + amount <= TOTAL_SUPPLY),
            !ok ==> *final(self) == *old(self),
            ok ==> {
                &&& final(self).issued_supply == old(self).issued_supply + amount
                &&& final(self).spec_balance(to@) == old(self).spec_balance(to@) + amount
                &&& forall|k: Seq<u8>|
                    k != to@ ==> #[trigger] final(self).spec_balance(k) == old(self).spec_balance(
                        k,
                    )
            },
    {
        if amount > TOTAL_SUPPLY - self.issued_supply {
            return false;
        }
        match find_account(&self.accounts, to) {
            Some(i) => {
                proof {
                    lemma_bal_at(self.accounts@, to@, i as int);
                }
                let ghost s0 = self.accounts@;
                let (id, b) = self.accounts.remove(i);
                let entry = (id, b + amount);
                proof {
                    lemma_update(s0, i as int, entry);
                }
                self.accounts.insert(i, entry);
                proof {
                    assert(self.accounts@ =~= s0.update(i as int, entry));
                }
            },
            None => {
                let entry = (to.duplicate(), amount);
                proof {
                    lemma_bal_absent(self.accounts@, to@);
                    lemma_push(self.accounts@, entry);
                }
                self.accounts.push(entry);
            },
        }
        self.issued_supply = self.issued_supply + amount;
        true
    }

    /// Mint `amount` new tokens to `to`. Rejects the anonymous identity;
    /// fails without any state change when the mint would push the issued
    /// supply over `TOTAL_SUPPLY`; otherwise credits `to` and raises the
    /// supply. The supply cap holds after every outcome.
    pub fn mint(&mut self, to: &Identity, amount: u64) -> (r: Result<(), LedgerError>)
        requires
            old(self).wf(),
        ensures
            final(self).wf(),
            final(self).issued_supply <= TOTAL_SUPPLY,
            to@ == anonymous_bytes() ==> r == Err::<(), LedgerError>(
                LedgerError::RejectedAnonymous,
            ) && *final(self) == *old(self),
            to@ != anonymous_bytes() && old(self).issued_supply + amount > TOTAL_SUPPLY ==> r
                == Err::<(), LedgerError>(LedgerError::SupplyExceeded) && *final(self) == *old(
                self,
            ),
            to@ != anonymous_bytes() && old(self).issued_supply + amount <= TOTAL_SUPPLY ==> {
                &&& r == Ok::<(), LedgerError>(())
                &&& final(self).issued_supply == old(self).issued_supply + amount
                &&& final(self).spec_balance(to@) == old(self).spec_balance(to@) + amount
                &&& forall|k: Seq<u8>|
                    k != to@ ==> #[trigger] final(self).spec_balance(k) == old(self).spec_balance(
                        k,
                    )
            },
    {
        if to.is_anonymous() {
            return Err(LedgerError::RejectedAnonymous);
        }
        if self.credit(to, amount) {
            Ok(())
        } else {
            Err(LedgerError::SupplyExceeded)
        }
    }

    /// Transfer `amount` from `from` to `to`. Rejects the anonymous sender;
    /// fails without any state change when `from` holds less than `amount`;
    /// otherwise debits `from` and credits `to`, leaving the issued supply
    /// and the sum of all balances unchanged, and the sum of the two touched
    /// balances conserved.
    pub fn transfer(&mut self, from: &Identity, to: &Identity, amount: u64) -> (r: Result<
        (),
        LedgerError,
    >)
        requires
            old(self).wf(),
        ensures
            final(self).wf(),
            final(self).issued_supply == old(self).issued_supply,
            from@ == anonymous_bytes() ==> r == Err::<(), LedgerError>(
                LedgerError::RejectedAnonymous,
            ) && *final(self) == *old(self),
            from@ != anonymous_bytes() && old(self).spec_balance(from@) < amount ==> r
                == Err::<(), LedgerError>(LedgerError::InsufficientBalance) && *final(self)
                == *old(self),
            from@ != anonymous_bytes() && old(self).spec_balance(from@) >= amount ==> {
                &&& r == Ok::<(), LedgerError>(())
                &&& final(self).spec_balance(from@) == if from@ == to@ {
                    old(self).spec_balance(from@)
                } else {
                    (old(self).spec_balance(from@) - amount) as u64
                }
                &&& final(self).spec_balance(to@) == if from@ == to@ {
                    old(self).spec_balance(to@)
                } else {
                    (old(self).spec_balance(to@) + amount) as u64
                }
                &&& final(self).spec_balance(from@) + final(self).spec_balance(to@) == old(
                    self,
                ).spec_balance(from@) + old(self).spec_balance(to@)
                &&& forall|k: Seq<u8>|
                    k != from@ && k != to@ ==> #[trigger] final(self).spec_balance(k) == old(
                        self,
                    ).spec_balance(k)
                &&& sum_of(final(self).accounts@) == sum_of(old(self).accounts@)
            },
    {
        if from.is_anonymous() {
            return Err(LedgerError::RejectedAnonymous);
        }
        // Debit the sender.
        match find_account(&self.accounts, from) {
            Some(i) => {
                proof {
                    lemma_bal_at(self.accounts@, from@, i as int);
                }
                if self.accounts[i].1 < amount {
                    return Err(LedgerError::InsufficientBalance);
                }
                let ghost s0 = self.accounts@;
                let (id, b) = self.accounts.remove(i);
                let entry = (id, b - amount);
                proof {
                    lemma_update(s0, i as int, entry);
                }
                self.accounts.insert(i, entry);
                proof {
                    assert(self.accounts@ =~= s0.update(i as int, entry));
                }
            },
            None => {
                proof {
                    lemma_bal_absent(self.accounts@, from@);
                }
                if amount > 0 {
                    return Err(LedgerError::InsufficientBalance);
                }
            },
        }
        // Credit the receiver in the debited state; the supply headroom of
        // the debited amount covers the credit, so no balance can overflow.
        proof {
            lemma_sum_nonneg(self.accounts@);
        }
        match find_account(&self.accounts, to) {
            Some(i) => {
                proof {
                    lemma_bal_at(self.accounts@, to@, i as int);
                }
                let ghost s1 = self.accounts@;
                let (id, b) = self.accounts.remove(i);
                let entry = (id, b + amount);
                proof {
                    lemma_update(s1, i as int, entry);
                }
                self.accounts.insert(i, entry);
                proof {
                    assert(self.accounts@ =~= s1.update(i as int, entry));
                }
            },
            None => {
                let entry = (to.duplicate(), amount);
                proof {
                    lemma_bal_absent(self.accounts@, to@);
                    lemma_push(self.accounts@, entry);
                }
                self.accounts.push(entry);
            },
        }
        Ok(())
    }
}

/// Supply cap law: any well-formed ledger — the state every operation
/// requires and re-establishes — has issued at most `TOTAL_SUPPLY`, and its
/// issued supply equals the sum of all balances.
pub proof fn lemma_supply_cap(l: Ledger)
    requires
        l.wf(),
    ensures
        l.issued_supply <= TOTAL_SUPPLY,
        sum_of(l.accounts@) == l.issued_supply,
{
}

/// The status message for a successful token purchase of `amount`.
pub open spec fn msg_minted(amount: nat) -> Seq<char> {
    "✅ Minted "@ + dec_str(amount) + " RDT to your wallet!"@
}

/// The status message for a payment rejected for lack of funds, naming the
/// payer's current balance.
pub open spec fn msg_insufficient(balance: nat) -> Seq<char> {
    "❌ Payment failed: Insufficient balance. You have "@ + dec_str(balance) + " RDT."@
}

/// The status message for a successful payment of `amount`.
pub open spec fn msg_paid(amount: nat) -> Seq<char> {
    "✅ Successfully paid "@ + dec_str(amount) + " RDT to driver!"@
}

/// The caller mints `amount` tokens to themself: rejected for the anonymous
/// caller and when the purchase would exceed the total supply, with no state
/// change in either case; otherwise the caller's balance and the issued
/// supply both rise by `amount`.
pub fn buy_tokens(ledger: &mut Ledger, caller: &Identity, amount: u64) -> (r: String)
    requires
        old(ledger).wf(),
    ensures
        final(ledger).wf(),
        caller@ == anonymous_bytes() ==> *final(ledger) == *old(ledger) && r@
            == "❌ Error: Cannot mint tokens for anonymous principal."@,
        caller@ != anonymous_bytes() && old(ledger).issued_supply + amount > TOTAL_SUPPLY ==> *final(ledger) == *old(ledger) && r@ == "❌ Purchase failed: Exceeds total supply."@,
        caller@ != anonymous_bytes() && old(ledger).issued_supply + amount <= TOTAL_SUPPLY ==> {
            &&& final(ledger).issued_supply == old(ledger).issued_supply + amount
            &&& final(ledger).spec_balance(caller@) == old(ledger).spec_balance(caller@) + amount
            &&& forall|k: Seq<u8>|
                k != caller@ ==> #[trigger] final(ledger).spec_balance(k) == old(
                    ledger,
                ).spec_balance(k)
            &&& r@ == msg_minted(amount as nat)
        },
{
    match ledger.mint(caller, amount) {
        Err(LedgerError::RejectedAnonymous) => "❌ Error: Cannot mint tokens for anonymous principal.".to_owned(),
        Err(_) => "❌ Purchase failed: Exceeds total supply.".to_owned(),
        Ok(()) => {
            let mut m = "✅ Minted ".to_owned();
            let d = u64_to_dec(amount);
            m.append(d.as_str());
            m.append(" RDT to your wallet!");
            proof {
                assert(m@ =~= msg_minted(amount as nat));
            }
            m
        },
    }
}

/// The caller pays `amount` to `driver`: rejected for the anonymous caller
/// and when the caller's balance is below `amount`, with no state change in
/// either case; otherwise the amount moves from the caller to the driver and
/// the issued supply stays put.
pub fn pay_for_ride(ledger: &mut Ledger, caller: &Identity, driver: &Identity, amount: u64) -> (r:
    String)
    requires
        old(ledger).wf(),
    ensures
        final(ledger).wf(),
        final(ledger).issued_supply == old(ledger).issued_supply,
        caller@ == anonymous_bytes() ==> *final(ledger) == *old(ledger) && r@
            == "❌ Error: Anonymous principals cannot make payments."@,
        caller@ != anonymous_bytes() && old(ledger).spec_balance(caller@) < amount ==> *final(ledger) == *old(ledger) && r@ == msg_insufficient(old(ledger).spec_balance(caller@) as nat),
        caller@ != anonymous_bytes() && old(ledger).spec_balance(caller@) >= amount ==> {
            &&& final(ledger).spec_balance(caller@) == if caller@ == driver@ {
                old(ledger).spec_balance(caller@)
            } else {
                (old(ledger).spec_balance(caller@) - amount) as u64
            }
            &&& final(ledger).spec_balance(driver@) == if caller@ == driver@ {
                old(ledger).spec_balance(driver@)
            } else {
                (old(ledger).spec_balance(driver@) + amount) as u64
            }
            &&& final(ledger).spec_balance(caller@) + final(ledger).spec_balance(driver@) == old(
                ledger,
            ).spec_balance(caller@) + old(ledger).spec_balance(driver@)
            &&& forall|k: Seq<u8>|
                k != caller@ && k != driver@ ==> #[trigger] final(ledger).spec_balance(k) == old(
                    ledger,
                ).spec_balance(k)
            &&& r@ == msg_paid(amount as nat)
        },
{
    let balance = ledger.balance_of(caller);
    match ledger.transfer(caller, driver, amount) {
        Err(LedgerError::RejectedAnonymous) => "❌ Error: Anonymous principals cannot make payments.".to_owned(),
        Err(_) => {
            let mut m = "❌ Payment failed: Insufficient balance. You have ".to_owned();
            let d = u64_to_dec(balance);
            m.append(d.as_str());
            m.append(" RDT.");
            proof {
                assert(m@ =~= msg_insufficient(balance as nat));
            }
            m
        },
        Ok(()) => {
            let mut m = "✅ Successfully paid ".to_owned();
            let d = u64_to_dec(amount);
            m.append(d.as_str());
            m.append(" RDT to driver!");
            proof {
                assert(m@ =~= msg_paid(amount as nat));
            }
            m
        },
    }
}

/// The balance of `user`: a read-only query, zero for unknown identities.
pub fn get_balance(ledger: &Ledger, user: &Identity) -> (r: u64)
    requires
        ledger.wf(),
    ensures
        r == ledger.spec_balance(user@),
{
    ledger.balance_of(user)
}

} // verus!

//! The ledger core: converts native-currency payments into per-identifier
//! credited-request counts at an owner-configurable exchange rate, with
//! owner-gated rate changes, pause/unpause, and full withdrawal.
//!
//! Environment-provided facts (the caller's identity, the contract owner,
//! the attached payment, the held balance) enter each operation as plain
//! arguments; the data an emitted event would carry is handed back in the
//! result.  Every operation either commits its whole effect or fails with a
//! [`LedgerError`] and leaves the state exactly as it was.

use crate::bignum::{BigUint, BASE};
use vstd::prelude::*;

verus! {

/// An account identity as the enclosing environment supplies it: an opaque
/// byte string compared only for equality.
#[derive(Debug)]
pub struct Address {
    bytes: Vec<u8>,
}

impl View for Address {
    type V = Seq<u8>;

    closed spec fn view(&self) -> Seq<u8> {
        self.bytes@
    }
}

impl Address {
    /// Wraps raw identity bytes.
    pub fn new(bytes: Vec<u8>) -> (r: Address)
        ensures
            r@ == bytes@,
    {
        Address { bytes }
    }

    /// Whether two identities are the same account.
    pub fn matches(&self, other: &Address) -> (r: bool)
        ensures
            r == (self@ == other@),
    {
        if self.bytes.len() != other.bytes.len() {
            proof {
                assert(self@ != other@);
            }
            return false;
        }
        let mut i: usize = 0;
        while i < self.bytes.len()
            invariant
                i <= self.bytes@.len(),
                self.bytes@.len() == other.bytes@.len(),
                forall|j: int| 0 <= j < i ==> self.bytes@[j] == other.bytes@[j],
            decreases self.bytes@.len() - i,
        {
            if self.bytes[i] != other.bytes[i] {
                proof {
                    assert(self@ != other@);
                }
                return false;
            }
            i += 1;
        }
        proof {
            assert(self@ =~= other@);
        }
        true
    }
}

impl Clone for Address {
    /// An equal, independently owned copy.
    fn clone(&self) -> (r: Self)
        ensures
            r@ == self@,
    {
        let mut bytes: Vec<u8> = Vec::new();
        let mut i: usize = 0;
        while i < self.bytes.len()
            invariant
                i <= self.bytes@.len(),
                bytes@.len() == i,
                forall|j: int| 0 <= j < i ==> bytes@[j] == self.bytes@[j],
            decreases self.bytes@.len() - i,
        {
            bytes.push(self.bytes[i]);
            i += 1;
        }
        proof {
            assert(bytes@ =~= self.bytes@);
        }
        Address { bytes }
    }
}

/// Why an operation was rejected.  Every failure is a pre-effect validation
/// failure: the operation commits nothing.
#[derive(Clone, Copy, Debug, PartialEq, Eq, Structural)]
pub enum LedgerError {
    /// A zero exchange rate was supplied.
    InvalidRate,
    /// No currency was attached to a crediting call.
    ZeroPayment,
    /// A crediting call arrived while the contract was paused.
    ContractPaused,
    /// A non-owner called a privileged operation.
    Unauthorized,
    /// `pause` was called while already paused.
    AlreadyPaused,
    /// `unpause` was called while not paused.
    NotPaused,
    /// `withdraw_all` was called with nothing held.
    NothingToWithdraw,
}

impl LedgerError {
    /// The human-readable reason surfaced to the caller.
    pub fn message(&self) -> &'static str {
        match self {
            LedgerError::InvalidRate => "Number of requests per EGLD must be non-zero",
            LedgerError::ZeroPayment => "Payment amount must be greater than 0",
            LedgerError::ContractPaused => "Contract is paused",
            LedgerError::Unauthorized => "Only the owner can call this endpoint",
            LedgerError::AlreadyPaused => "Contract is already paused",
            LedgerError::NotPaused => "Contract is not paused",
            LedgerError::NothingToWithdraw => "No EGLD to withdraw",
        }
    }
}

/// One ledger entry: a credited identifier and its accumulated count.
struct Entry {
    id: u64,
    requests: BigUint,
}

/// The count stored for `id`, or zero when no entry exists.
spec fn ledger_get(s: Seq<Entry>, id: u64) -> nat
    decreases s.len(),
{
    if s.len() == 0 {
        0
    } else if s[0].id == id {
        s[0].requests@
    } else {
        ledger_get(s.subrange(1, s.len() as int), id)
    }
}

/// Every stored count is canonical and every identifier appears once.
spec fn entries_wf(s: Seq<Entry>) -> bool {
    &&& forall|i: int| 0 <= i < s.len() ==> s[i].requests.wf()
    &&& forall|i: int, j: int| 0 <= i < j < s.len() ==> s[i].id != s[j].id
}

/// Appending an entry for a fresh identifier changes only that identifier.
proof fn lemma_ledger_get_push(s: Seq<Entry>, e: Entry, k: u64)
    requires
        forall|i: int| 0 <= i < s.len() ==> s[i].id != e.id,
    ensures
        ledger_get(s.push(e), k) == if k == e.id {
            e.requests@
        } else {
            ledger_get(s, k)
        },
    decreases s.len(),
{
    let sp = s.push(e);
    if s.len() == 0 {
        assert(ledger_get(sp.subrange(1, 1), k) == 0);
        assert(ledger_get(s, k) == 0);
    } else {
        assert(sp[0] == s[0]);
        assert(sp.subrange(1, sp.len() as int) =~= s.subrange(1, s.len() as int).push(e));
        lemma_ledger_get_push(s.subrange(1, s.len() as int), e, k);
    }
}

/// Overwriting the entry that holds an identifier changes only that identifier.
proof fn lemma_ledger_get_update(s: Seq<Entry>, i: int, e: Entry, k: u64)
    requires
        0 <= i < s.len(),
        s[i].id == e.id,
        forall|x: int, y: int| 0 <= x < y < s.len() ==> s[x].id != s[y].id,
    ensures
        ledger_get(s.update(i, e), k) == if k == e.id {
            e.requests@
        } else {
            ledger_get(s, k)
        },
    decreases i,
{
    let su = s.update(i, e);
    if i == 0 {
        assert(su.subrange(1, su.len() as int) =~= s.subrange(1, s.len() as int));
    } else {
        assert(su[0] == s[0]);
        assert(su.subrange(1, su.len() as int) =~= s.subrange(1, s.len() as int).update(i - 1, e));
        if s[0].id == k {
            assert(s[0].id != s[i].id);
        } else {
            let t = s.subrange(1, s.len() as int);
            assert(forall|x: int, y: int| 0 <= x < y < t.len() ==> t[x].id != t[y].id);
            lemma_ledger_get_update(t, i - 1, e, k);
        }
    }
}

/// Credits granted for a payment of `payment` smallest units at rate `rate`:
/// the payment in whole units, scaled by the rate, rounded down once.
pub open spec fn credits_for(payment: nat, rate: nat) -> nat {
    (payment * rate) / (BASE as nat)
}

/// The ledger core's entire state: the exchange rate, the pause flag (absent
/// in a deployment that predates the pause feature), and the credit ledger.
pub struct RequestsContract {
    num_requests_per_egld: BigUint,
    paused: Option<bool>,
    entries: Vec<Entry>,
}

/// A crediting step: `payment > 0` smallest units arrive for `id` while the
/// contract is not paused; only `id`'s count changes, by exactly the
/// converted amount.
pub open spec fn add_requests_ok(
    pre: RequestsContract,
    post: RequestsContract,
    id: u64,
    payment: nat,
) -> bool {
    &&& !pre.is_paused_spec()
    &&& payment > 0
    &&& post.rate() == pre.rate()
    &&& post.pause_flag() == pre.pause_flag()
    &&& forall|k: u64|
        #[trigger] post.credits(k) == if k == id {
            pre.credits(id) + credits_for(payment, pre.rate())
        } else {
            pre.credits(k)
        }
}

/// A rate change: the new rate is positive and nothing else moves.
pub open spec fn rate_change_ok(pre: RequestsContract, post: RequestsContract, new_rate: nat) -> bool {
    &&& new_rate > 0
    &&& post.rate() == new_rate
    &&& post.pause_flag() == pre.pause_flag()
    &&& forall|k: u64| #[trigger] post.credits(k) == pre.credits(k)
}

/// Pausing: only possible while active; only the flag moves.
pub open spec fn pause_ok(pre: RequestsContract, post: RequestsContract) -> bool {
    &&& !pre.is_paused_spec()
    &&& post.pause_flag() == Some(true)
    &&& post.rate() == pre.rate()
    &&& forall|k: u64| #[trigger] post.credits(k) == pre.credits(k)
}

/// Unpausing: only possible while paused; only the flag moves.
pub open spec fn unpause_ok(pre: RequestsContract, post: RequestsContract) -> bool {
    &&& pre.is_paused_spec()
    &&& post.pause_flag() == Some(false)
    &&& post.rate() == pre.rate()
    &&& forall|k: u64| #[trigger] post.credits(k) == pre.credits(k)
}

impl RequestsContract {
    /// The state invariant: a positive canonical rate and a well-formed ledger.
    pub closed spec fn wf(&self) -> bool {
        &&& self.num_requests_per_egld.wf()
        &&& self.num_requests_per_egld@ > 0
        &&& entries_wf(self.entries@)
    }

    /// The exchange rate: credited requests per whole currency unit.
    pub closed spec fn rate(&self) -> nat {
        self.num_requests_per_egld@
    }

    /// The stored pause flag; `None` models storage from before the pause
    /// feature existed.
    pub closed spec fn pause_flag(&self) -> Option<bool> {
        self.paused
    }

    /// Whether crediting is currently blocked.
    pub open spec fn is_paused_spec(&self) -> bool {
        self.pause_flag() == Some(true)
    }

    /// The credited-request count of `id`; identifiers never credited count 0.
    pub closed spec fn credits(&self, id: u64) -> nat {
        ledger_get(self.entries@, id)
    }

    /// Creates the contract.  Fails with [`LedgerError::InvalidRate`] exactly
    /// when the supplied rate is zero; otherwise the rate is stored, the
    /// contract starts active, and every identifier's count is zero.
    pub fn init(num_requests_per_egld: BigUint) -> (r: Result<RequestsContract, LedgerError>)
        requires
            num_requests_per_egld.wf(),
        ensures
            num_requests_per_egld@ == 0 <==> r == Err::<RequestsContract, LedgerError>(
                LedgerError::InvalidRate,
            ),
            num_requests_per_egld@ > 0 <==> r is Ok,
            r matches Ok(c) ==> {
                &&& c.wf()
                &&& c.rate() == num_requests_per_egld@
                &&& c.pause_flag() == Some(false)
                &&& forall|k: u64| #[trigger] c.credits(k) == 0
            },
    {
        if num_requests_per_egld.is_zero() {
            Err(LedgerError::InvalidRate)
        } else {
            let c = RequestsContract {
                num_requests_per_egld,
                paused: Some(false),
                entries: Vec::new(),
            };
            proof {
                assert(forall|k: u64| #[trigger] c.credits(k) == 0);
            }
            Ok(c)
        }
    }

    /// Creates the contract variant that has no pause capability: the same
    /// validation and effect as [`RequestsContract::init`], but no pause flag
    /// is stored, so crediting can never be blocked.
    pub fn init_without_pause(num_requests_per_egld: BigUint) -> (r: Result<
        RequestsContract,
        LedgerError,
    >)
        requires
            num_requests_per_egld.wf(),
        ensures
            num_requests_per_egld@ == 0 <==> r == Err::<RequestsContract, LedgerError>(
                LedgerError::InvalidRate,
            ),
            num_requests_per_egld@ > 0 <==> r is Ok,
            r matches Ok(c) ==> {
                &&& c.wf()
                &&& c.rate() == num_requests_per_egld@
                &&& c.pause_flag() == None::<bool>
                &&& forall|k: u64| #[trigger] c.credits(k) == 0
            },
    {
        if num_requests_per_egld.is_zero() {
            Err(LedgerError::InvalidRate)
        } else {
            let c = RequestsContract {
                num_requests_per_egld,
                paused: None,
                entries: Vec::new(),
            };
            proof {
                assert(forall|k: u64| #[trigger] c.credits(k) == 0);
            }
            Ok(c)
        }
    }

    /// The upgrade path: revalidates and overwrites the rate, keeps every
    /// ledger entry, and initializes the pause flag to `false` only when no
    /// value was ever stored for it (migration from the pause-less variant).
    pub fn upgrade(&mut self, num_requests_per_egld: BigUint) -> (r: Result<(), LedgerError>)
        requires
            old(self).wf(),
            num_requests_per_egld.wf(),
        ensures
            final(self).wf(),
            num_requests_per_egld@ == 0 ==> r == Err::<(), LedgerError>(LedgerError::InvalidRate)
                && *final(self) == *old(self),
            num_requests_per_egld@ > 0 ==> {
                &&& r is Ok
                &&& final(self).rate() == num_requests_per_egld@
                &&& final(self).pause_flag() == (if old(self).pause_flag() is Some {
                    old(self).pause_flag()
                } else {
                    Some(false)
                })
                &&& forall|k: u64| #[trigger] final(self).credits(k) == old(self).credits(k)
            },
    {
        if num_requests_per_egld.is_zero() {
            return Err(LedgerError::InvalidRate);
        }
        self.num_requests_per_egld = num_requests_per_egld;
        if self.paused.is_none() {
            self.paused = Some(false);
        }
        Ok(())
    }

    /// Looks up the position of `id`'s entry, if one exists.
    fn find(&self, id: u64) -> (r: Option<usize>)
        ensures
            match r {
                Some(i) => {
                    &&& i < self.entries@.len()
                    &&& self.entries@[i as int].id == id
                    &&& ledger_get(self.entries@, id) == self.entries@[i as int].requests@
                },
                None => {
                    &&& forall|j: int| 0 <= j < self.entries@.len() ==> self.entries@[j].id != id
                    &&& ledger_get(self.entries@, id) == 0
                },
            },
    {
        let s = Ghost(self.entries@);
        let mut i: usize = 0;
        proof {
            assert(s@.subrange(0, s@.len() as int) =~= s@);
        }
        while i < self.entries.len()
            invariant
                s@ == self.entries@,
                i <= s@.len(),
                forall|j: int| 0 <= j < i ==> s@[j].id != id,
                ledger_get(s@, id) == ledger_get(s@.subrange(i as int, s@.len() as int), id),
            decreases s@.len() - i,
        {
            if self.entries[i].id == id {
                proof {
                    let t = s@.subrange(i as int, s@.len() as int);
                    assert(t[0] == s@[i as int]);
                }
                return Some(i);
            }
            proof {
                let t = s@.subrange(i as int, s@.len() as int);
                assert(t[0] == s@[i as int]);
                assert(t.subrange(1, t.len() as int) =~= s@.subrange(
                    i as int + 1,
                    s@.len() as int,
                ));
            }
            i += 1;
        }
        proof {
            assert(s@.subrange(s@.len() as int, s@.len() as int).len() == 0);
        }
        None
    }

    /// Adds `amount` to `id`'s count, creating the entry when absent.
    fn credit(&mut self, id: u64, amount: BigUint)
        requires
            old(self).wf(),
            amount.wf(),
        ensures
            final(self).wf(),
            final(self).rate() == old(self).rate(),
            final(self).pause_flag() == old(self).pause_flag(),
            forall|k: u64|
                #[trigger] final(self).credits(k) == if k == id {
                    old(self).credits(id) + amount@
                } else {
                    old(self).credits(k)
                },
    {
        let ghost s_old = self.entries@;
        match self.find(id) {
            Some(i) => {
                let sum = self.entries[i].requests.add(&amount);
                let e = Entry { id, requests: sum };
                self.entries[i] = e;
                proof {
                    assert(self.entries@ == s_old.update(i as int, self.entries@[i as int]));
                    let en = self.entries@[i as int];
                    assert(en.id == id);
                    assert(en.requests@ == ledger_get(s_old, id) + amount@);
                    assert forall|k: u64|
                        #[trigger] ledger_get(self.entries@, k) == if k == id {
                            ledger_get(s_old, id) + amount@
                        } else {
                            ledger_get(s_old, k)
                        } by {
                        lemma_ledger_get_update(s_old, i as int, en, k);
                    }
                    assert(forall|x: int|
                        0 <= x < self.entries@.len() ==> #[trigger] self.entries@[x].id
                            == s_old[x].id);
                    assert(entries_wf(self.entries@));
                }
            },
            None => {
                let e = Entry { id, requests: amount };
                self.entries.push(e);
                proof {
                    let en = self.entries@[self.entries@.len() - 1];
                    assert(self.entries@ == s_old.push(en));
                    assert(en.id == id);
                    assert(ledger_get(s_old, id) == 0);
                    assert forall|k: u64|
                        #[trigger] ledger_get(self.entries@, k) == if k == id {
                            ledger_get(s_old, id) + en.requests@
                        } else {
                            ledger_get(s_old, k)
                        } by {
                        lemma_ledger_get_push(s_old, en, k);
                    }
                    assert(entries_wf(self.entries@));
                }
            },
        }
    }

    /// Credits `id` for a payment attached to the call.  Fails with
    /// [`LedgerError::ContractPaused`] while paused, then with
    /// [`LedgerError::ZeroPayment`] when no currency is attached; otherwise
    /// adds `floor(payment * rate / 10^18)` to `id`'s count and returns that
    /// amount (the figure the add-requests event reports).
    pub fn add_requests(&mut self, id: u64, payment: &BigUint) -> (r: Result<BigUint, LedgerError>)
        requires
            old(self).wf(),
            payment.wf(),
        ensures
            final(self).wf(),
            old(self).is_paused_spec() ==> r == Err::<BigUint, LedgerError>(
                LedgerError::ContractPaused,
            ) && *final(self) == *old(self),
            !old(self).is_paused_spec() && payment@ == 0 ==> r == Err::<BigUint, LedgerError>(
                LedgerError::ZeroPayment,
            ) && *final(self) == *old(self),
            !old(self).is_paused_spec() && payment@ > 0 ==> {
                &&& r matches Ok(c)
                &&& c.wf()
                &&& c@ == credits_for(payment@, old(self).rate())
                &&& add_requests_ok(*old(self), *final(self), id, payment@)
            },
    {
        if self.get_is_paused() {
            return Err(LedgerError::ContractPaused);
        }
        if payment.is_zero() {
            return Err(LedgerError::ZeroPayment);
        }
        let credits = payment.mul(&self.num_requests_per_egld).div_base();
        let granted = credits.clone();
        self.credit(id, credits);
        Ok(granted)
    }

    /// The stored count of `id`, or zero when `id` was never credited.
    pub fn get_requests(&self, id: u64) -> (r: BigUint)
        requires
            self.wf(),
        ensures
            r.wf(),
            r@ == self.credits(id),
    {
        match self.find(id) {
            Some(i) => self.entries[i].requests.clone(),
            None => BigUint::zero(),
        }
    }

    /// Whether the contract is paused; storage without a flag reads as active.
    pub fn get_is_paused(&self) -> (r: bool)
        ensures
            r == self.is_paused_spec(),
    {
        match self.paused {
            Some(b) => b,
            None => false,
        }
    }

    /// Changes the exchange rate.  Owner-only; the new rate must be positive.
    /// Returns the replaced rate (the rate-changed event carries the old and
    /// the new value).  Already-credited counts are untouched.
    pub fn change_num_requests_per_egld(
        &mut self,
        caller: &Address,
        owner: &Address,
        new_num_requests_per_egld: BigUint,
    ) -> (r: Result<BigUint, LedgerError>)
        requires
            old(self).wf(),
            new_num_requests_per_egld.wf(),
        ensures
            final(self).wf(),
            caller@ != owner@ ==> r == Err::<BigUint, LedgerError>(LedgerError::Unauthorized)
                && *final(self) == *old(self),
            caller@ == owner@ && new_num_requests_per_egld@ == 0 ==> r == Err::<
                BigUint,
                LedgerError,
            >(LedgerError::InvalidRate) && *final(self) == *old(self),
            caller@ == owner@ && new_num_requests_per_egld@ > 0 ==> {
                &&& r matches Ok(prev)
                &&& prev.wf()
                &&& prev@ == old(self).rate()
                &&& rate_change_ok(*old(self), *final(self), new_num_requests_per_egld@)
            },
    {
        if !caller.matches(owner) {
            return Err(LedgerError::Unauthorized);
        }
        if new_num_requests_per_egld.is_zero() {
            return Err(LedgerError::InvalidRate);
        }
        let previous = self.num_requests_per_egld.clone();
        self.num_requests_per_egld = new_num_requests_per_egld;
        Ok(previous)
    }

    /// Blocks crediting.  Owner-only; fails with
    /// [`LedgerError::AlreadyPaused`] when already paused.
    pub fn pause(&mut self, caller: &Address, owner: &Address) -> (r: Result<(), LedgerError>)
        requires
            old(self).wf(),
        ensures
            final(self).wf(),
            caller@ != owner@ ==> r == Err::<(), LedgerError>(LedgerError::Unauthorized)
                && *final(self) == *old(self),
            caller@ == owner@ && old(self).is_paused_spec() ==> r == Err::<(), LedgerError>(
                LedgerError::AlreadyPaused,
            ) && *final(self) == *old(self),
            caller@ == owner@ && !old(self).is_paused_spec() ==> r is Ok && pause_ok(
                *old(self),
                *final(self),
            ),
    {
        if !caller.matches(owner) {
            return Err(LedgerError::Unauthorized);
        }
        if self.get_is_paused() {
            return Err(LedgerError::AlreadyPaused);
        }
        self.paused = Some(true);
        Ok(())
    }

    /// Re-enables crediting.  Owner-only; fails with
    /// [`LedgerError::NotPaused`] when the contract is already active.
    pub fn unpause(&mut self, caller: &Address, owner: &Address) -> (r: Result<(), LedgerError>)
        requires
            old(self).wf(),
        ensures
            final(self).wf(),
            caller@ != owner@ ==> r == Err::<(), LedgerError>(LedgerError::Unauthorized)
                && *final(self) == *old(self),
            caller@ == owner@ && !old(self).is_paused_spec() ==> r == Err::<(), LedgerError>(
                LedgerError::NotPaused,
            ) && *final(self) == *old(self),
            caller@ == owner@ && old(self).is_paused_spec() ==> r is Ok && unpause_ok(
                *old(self),
                *final(self),
            ),
    {
        if !caller.matches(owner) {
            return Err(LedgerError::Unauthorized);
        }
        if !self.get_is_paused() {
            return Err(LedgerError::NotPaused);
        }
        self.paused = Some(false);
        Ok(())
    }

    /// Withdraws everything the contract holds.  Owner-only; fails with
    /// [`LedgerError::NothingToWithdraw`] on an empty balance.  On success
    /// the returned amount — what the environment must now transfer to the
    /// owner, and what the withdraw event reports — equals exactly the
    /// balance read at call time.  Ledger state is never touched.
    pub fn withdraw_all(&self, caller: &Address, owner: &Address, balance: &BigUint) -> (r: Result<
        BigUint,
        LedgerError,
    >)
        requires
            self.wf(),
            balance.wf(),
        ensures
            caller@ != owner@ ==> r == Err::<BigUint, LedgerError>(LedgerError::Unauthorized),
            caller@ == owner@ && balance@ == 0 ==> r == Err::<BigUint, LedgerError>(
                LedgerError::NothingToWithdraw,
            ),
            caller@ == owner@ && balance@ > 0 ==> {
                &&& r matches Ok(a)
                &&& a.wf()
                &&& a@ == balance@
            },
    {
        if !caller.matches(owner) {
            return Err(LedgerError::Unauthorized);
        }
        if balance.is_zero() {
            return Err(LedgerError::NothingToWithdraw);
        }
        Ok(balance.clone())
    }
}

} // verus!

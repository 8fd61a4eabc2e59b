use vstd::prelude::*;
use crate::text::{decimal, decimal_text, display_token, token_text, yocto_from_millinear,
    YOCTO_PER_MILLINEAR};

verus! {

/// Calls an account may make before a fee is asked.
pub const DEFAULT_FREE_CALLS: u32 = 3;

/// The fee for each call past the free ones, in milliNEAR.
pub const DEFAULT_FEE_MILLINEAR: u128 = 10;

/// Why a call was turned down.
#[derive(Debug)]
pub enum CallError {
    /// The account has used up its free calls and attached less than the fee.
    InsufficientPayment { required_yocto: u128, message: String },
}

/// Counts the calls of each account, and holds the fee rule.
pub struct CallTracker {
    entries: Vec<(String, u32)>,
    free_calls: u32,
    fee_yocto: u128,
}

/// Entry `i` of `e` is the one of account `a`.
pub open spec fn is_entry_of(e: Seq<(String, u32)>, a: Seq<char>, i: int) -> bool {
    0 <= i < e.len() && e[i].0@ == a
}

/// Whether a call is accepted: the account had made `count` calls before,
/// `free` calls are free, and `paid` is attached against a fee of `fee`.
pub open spec fn accepts(count: nat, free: nat, fee: nat, paid: nat) -> bool {
    count + 1 <= free || paid >= fee
}

/// The text returned by an accepted call, the account's `n`-th.
pub open spec fn confirmation(n: nat) -> Seq<char> {
    "Call recorded. You have called this function "@ + decimal(n) + " times."@
}

/// The text of a refusal for want of payment.
pub open spec fn payment_message(fee: u128, free: nat) -> Seq<char> {
    "Insufficient attached deposit. You must pay "@ + token_text(fee) + " after "@
        + decimal(free) + " calls."@
}

/// Decides one call of an account that had made `count` calls, against
/// `free_calls` free calls and a fee of `fee_yocto`, with `attached_yocto`
/// attached: the new count and the reply text, or the refusal.
pub fn next_call(count: u32, free_calls: u32, fee_yocto: u128, attached_yocto: u128) -> (r: Result<
    (u32, String),
    CallError,
>)
    requires
        count < u32::MAX,
    ensures
        r is Ok <==> accepts(count as nat, free_calls as nat, fee_yocto as nat, attached_yocto as nat),
        match r {
            Ok((n, s)) => n == count + 1 && s@ == confirmation(n as nat),
            Err(CallError::InsufficientPayment { required_yocto, message }) => required_yocto
                == fee_yocto && message@ == payment_message(fee_yocto, free_calls as nat),
        },
{
    let new_count: u32 = count + 1;
    if new_count > free_calls && attached_yocto < fee_yocto {
        let mut message = String::from_str("Insufficient attached deposit. You must pay ");
        let fee_text = display_token(fee_yocto);
        message.append(fee_text.as_str());
        message.append(" after ");
        let free_text = decimal_text(free_calls);
        message.append(free_text.as_str());
        message.append(" calls.");
        return Err(CallError::InsufficientPayment { required_yocto: fee_yocto, message });
    }
    let mut reply = String::from_str("Call recorded. You have called this function ");
    let count_text = decimal_text(new_count);
    reply.append(count_text.as_str());
    reply.append(" times.");
    Ok((new_count, reply))
}

impl CallTracker {
    /// The number of free calls per account.
    pub fn free_call_allowance(&self) -> (r: u32)
        ensures
            r as nat == self.free_calls(),
    {
        self.free_calls
    }

    /// The fee per call past the free ones, in yoctoNEAR.
    pub fn fee_per_extra_call(&self) -> (r: u128)
        ensures
            r == self.fee(),
    {
        self.fee_yocto
    }

    /// No account has two entries.
    pub closed spec fn wf(&self) -> bool {
        forall|i: int, j: int|
            0 <= i < j < self.entries@.len() ==> self.entries@[i].0@ != self.entries@[j].0@
    }

    /// The number of calls recorded for account `a`; zero for one never seen.
    pub closed spec fn count_of(&self, a: Seq<char>) -> nat {
        if exists|i: int| is_entry_of(self.entries@, a, i) {
            self.entries@[choose|i: int| is_entry_of(self.entries@, a, i)].1 as nat
        } else {
            0
        }
    }

    /// The number of free calls per account.
    pub closed spec fn free_calls(&self) -> nat {
        self.free_calls as nat
    }

    /// The fee per call past the free ones, in yoctoNEAR.
    pub closed spec fn fee(&self) -> u128 {
        self.fee_yocto
    }

    proof fn lemma_count_at(&self, a: Seq<char>, i: int)
        requires
            self.wf(),
            is_entry_of(self.entries@, a, i),
        ensures
            self.count_of(a) == self.entries@[i].1 as nat,
    {
        let k = choose|k: int| is_entry_of(self.entries@, a, k);
        assert(is_entry_of(self.entries@, a, k));
        if k != i {
            if k < i {
                assert(self.entries@[k].0@ != self.entries@[i].0@);
            } else {
                assert(self.entries@[i].0@ != self.entries@[k].0@);
            }
        }
    }

    /// A ledger with no calls, `free_calls` free calls per account, and a fee
    /// of `fee_yocto` yoctoNEAR for each call past them.
    pub fn new(free_calls: u32, fee_yocto: u128) -> (r: CallTracker)
        ensures
            r.wf(),
            r.free_calls() == free_calls as nat,
            r.fee() == fee_yocto,
            forall|a: Seq<char>| r.count_of(a) == 0,
    {
        CallTracker { entries: Vec::new(), free_calls, fee_yocto }
    }

    fn find(&self, key: &String) -> (r: Option<usize>)
        ensures
            match r {
                Some(i) => is_entry_of(self.entries@, key@, i as int),
                None => forall|i: int| !is_entry_of(self.entries@, key@, i),
            },
    {
        let mut i: usize = 0;
        while i < self.entries.len()
            invariant
                i <= self.entries@.len(),
                forall|j: int| 0 <= j < i ==> !is_entry_of(self.entries@, key@, j),
            decreases self.entries@.len() - i,
        {
            if self.entries[i].0 == *key {
                return Some(i);
            }
            i = i + 1;
        }
        None
    }

    /// The number of calls recorded for `account_id`; zero if it never called.
    pub fn get_call_count(&self, account_id: &str) -> (r: u32)
        requires
            self.wf(),
        ensures
            r as nat == self.count_of(account_id@),
    {
        let key = String::from_str(account_id);
        match self.find(&key) {
            Some(i) => {
                proof {
                    self.lemma_count_at(account_id@, i as int);
                }
                self.entries[i].1
            },
            None => 0,
        }
    }

    /// Records one call of `account_id`, which attached `attached_yocto`
    /// yoctoNEAR. A call past the free ones must carry at least the fee; one
    /// that does not is refused and changes nothing, since the payment is
    /// checked before the count is written.
    pub fn record_call(&mut self, account_id: &str, attached_yocto: u128) -> (r: Result<
        String,
        CallError,
    >)
        requires
            old(self).wf(),
            old(self).count_of(account_id@) < u32::MAX,
        ensures
            final(self).wf(),
            final(self).free_calls() == old(self).free_calls(),
            final(self).fee() == old(self).fee(),
            r is Ok <==> accepts(
                old(self).count_of(account_id@),
                old(self).free_calls(),
                old(self).fee() as nat,
                attached_yocto as nat,
            ),
            forall|a: Seq<char>|
                a != account_id@ ==> #[trigger] final(self).count_of(a) == old(self).count_of(a),
            match r {
                Ok(s) => s@ == confirmation(old(self).count_of(account_id@) + 1)
                    && final(self).count_of(account_id@) == old(self).count_of(account_id@) + 1,
                Err(CallError::InsufficientPayment { required_yocto, message }) => required_yocto
                    == old(self).fee() && message@ == payment_message(
                    old(self).fee(),
                    old(self).free_calls(),
                ) && final(self).count_of(account_id@) == old(self).count_of(account_id@),
            },
    {
        let key = String::from_str(account_id);
        let found = self.find(&key);
        let count: u32 = match found {
            Some(i) => {
                proof {
                    self.lemma_count_at(account_id@, i as int);
                }
                self.entries[i].1
            },
            None => 0,
        };
        let (new_count, reply) = match next_call(count, self.free_calls, self.fee_yocto, attached_yocto) {
            Ok(step) => step,
            Err(e) => {
                return Err(e);
            },
        };
        let ghost before = *self;
        match found {
            Some(i) => {
                self.entries.set(i, (key, new_count));
                proof {
                    self.lemma_after_set(before, account_id@, i as int, new_count);
                }
            },
            None => {
                self.entries.push((key, new_count));
                proof {
                    self.lemma_after_push(before, account_id@, new_count);
                }
            },
        }
        Ok(reply)
    }

    proof fn lemma_after_set(&self, before: CallTracker, a: Seq<char>, i: int, n: u32)
        requires
            before.wf(),
            is_entry_of(before.entries@, a, i),
            self.entries@.len() == before.entries@.len(),
            self.entries@[i].0@ == a,
            self.entries@[i].1 == n,
            forall|j: int| 0 <= j < self.entries@.len() && j != i ==> self.entries@[j] == before.entries@[j],
        ensures
            self.wf(),
            self.count_of(a) == n as nat,
            forall|b: Seq<char>| b != a ==> #[trigger] self.count_of(b) == before.count_of(b),
    {
        assert forall|j: int| 0 <= j < self.entries@.len() implies self.entries@[j].0@
            == before.entries@[j].0@ by {
            if j != i {
                assert(self.entries@[j] == before.entries@[j]);
            }
        }
        self.lemma_count_at(a, i);
        assert forall|b: Seq<char>| b != a implies #[trigger] self.count_of(b) == before.count_of(b) by {
            if exists|j: int| is_entry_of(before.entries@, b, j) {
                let j = choose|j: int| is_entry_of(before.entries@, b, j);
                assert(is_entry_of(self.entries@, b, j));
                self.lemma_count_at(b, j);
                before.lemma_count_at(b, j);
            } else {
                assert forall|j: int| !is_entry_of(self.entries@, b, j) by {
                    if is_entry_of(self.entries@, b, j) {
                        assert(is_entry_of(before.entries@, b, j));
                    }
                }
            }
        }
    }

    proof fn lemma_after_push(&self, before: CallTracker, a: Seq<char>, n: u32)
        requires
            before.wf(),
            forall|i: int| !is_entry_of(before.entries@, a, i),
            self.entries@.len() == before.entries@.len() + 1,
            self.entries@.last().0@ == a,
            self.entries@.last().1 == n,
            forall|j: int| 0 <= j < before.entries@.len() ==> self.entries@[j] == before.entries@[j],
        ensures
            self.wf(),
            self.count_of(a) == n as nat,
            forall|b: Seq<char>| b != a ==> #[trigger] self.count_of(b) == before.count_of(b),
    {
        let last = before.entries@.len() as int;
        assert forall|i: int, j: int| 0 <= i < j < self.entries@.len() implies self.entries@[i].0@
            != self.entries@[j].0@ by {
            assert(self.entries@[i] == before.entries@[i]);
            if j == last {
                assert(!is_entry_of(before.entries@, a, i));
            } else {
                assert(self.entries@[j] == before.entries@[j]);
            }
        }
        assert(is_entry_of(self.entries@, a, last));
        self.lemma_count_at(a, last);
        assert forall|b: Seq<char>| b != a implies #[trigger] self.count_of(b) == before.count_of(b) by {
            if exists|j: int| is_entry_of(before.entries@, b, j) {
                let j = choose|j: int| is_entry_of(before.entries@, b, j);
                assert(self.entries@[j] == before.entries@[j]);
                assert(is_entry_of(self.entries@, b, j));
                self.lemma_count_at(b, j);
                before.lemma_count_at(b, j);
            } else {
                assert forall|j: int| !is_entry_of(self.entries@, b, j) by {
                    if is_entry_of(self.entries@, b, j) && j < last {
                        assert(self.entries@[j] == before.entries@[j]);
                        assert(is_entry_of(before.entries@, b, j));
                    }
                }
            }
        }
    }
}

impl Default for CallTracker {
    /// A ledger with no calls, three free calls per account, and a fee of
    /// ten milliNEAR for each call past them.
    fn default() -> (r: CallTracker)
        ensures
            r.wf(),
            r.free_calls() == DEFAULT_FREE_CALLS as nat,
            r.fee() == DEFAULT_FEE_MILLINEAR * YOCTO_PER_MILLINEAR,
            forall|a: Seq<char>| r.count_of(a) == 0,
    {
        let fee = yocto_from_millinear(DEFAULT_FEE_MILLINEAR);
        CallTracker::new(DEFAULT_FREE_CALLS, fee)
    }
}

/// While an account has free calls left, its call is accepted whatever it
/// attached: the first `free` calls of an account all succeed, each adding one
/// to its count.
pub proof fn lemma_free_call_accepted(count: nat, free: nat, fee: nat, paid: nat)
    requires
        count < free,
    ensures
        accepts(count, free, fee, paid),
{
}

/// Once an account has used its free calls, a call that attaches less than
/// the fee is refused.
pub proof fn lemma_unpaid_call_refused(count: nat, free: nat, fee: nat, paid: nat)
    requires
        count >= free,
        paid < fee,
    ensures
        !accepts(count, free, fee, paid),
{
}

/// A call that attaches at least the fee is always accepted.
pub proof fn lemma_paid_call_accepted(count: nat, free: nat, fee: nat, paid: nat)
    requires
        paid >= fee,
    ensures
        accepts(count, free, fee, paid),
{
}

} // verus!

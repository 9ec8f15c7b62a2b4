use vstd::prelude::*;

use crate::error::InheritanceError;
use crate::identity::{lemma_index_of_unique, position, Identity};

verus! {

/// Seconds in one day.
pub const SECONDS_PER_DAY: u128 = 86400;

/// Most beneficiaries a plan can name at once.
pub const MAX_BENEFICIARIES: usize = 5;

/// The mathematical model of one owner's plan.
pub struct PlanState {
    pub active: bool,
    pub beneficiaries: Seq<Identity>,
    pub beneficiary_count: int,
    pub last_reset: int,
    pub timeout_period: int,
    pub balance: int,
    pub claimed: Seq<Identity>,
    pub share: int,
    pub locked: bool,
    /// The balance at the moment the share was locked; zero before.
    pub locked_balance: int,
}

impl PlanState {
    /// The record of an owner that never had a plan.
    pub open spec fn vacant() -> PlanState {
        PlanState {
            active: false,
            beneficiaries: Seq::empty(),
            beneficiary_count: 0,
            last_reset: 0,
            timeout_period: 0,
            balance: 0,
            claimed: Seq::empty(),
            share: 0,
            locked: false,
            locked_balance: 0,
        }
    }

    pub open spec fn wf(self) -> bool {
        &&& self.beneficiary_count == self.beneficiaries.len()
        &&& self.beneficiaries.len() <= MAX_BENEFICIARIES
        &&& self.beneficiaries.no_duplicates()
        &&& forall|i: int| 0 <= i < self.beneficiaries.len() ==> !(#[trigger] self.beneficiaries[i]).spec_is_zero()
        &&& forall|x: Identity| self.beneficiaries.contains(x) ==> !self.claimed.contains(x)
        &&& 0 <= self.last_reset <= u64::MAX
        &&& 0 <= self.timeout_period <= u64::MAX * SECONDS_PER_DAY
        &&& 0 <= self.balance <= u128::MAX
        &&& 0 <= self.locked_balance <= u128::MAX
        &&& !self.locked ==> self.share == 0 && self.claimed.len() == 0 && self.locked_balance == 0
        &&& self.locked ==> {
            &&& self.beneficiaries.len() + self.claimed.len() > 0
            &&& self.share == self.locked_balance / ((self.beneficiaries.len() + self.claimed.len()) as int)
            &&& self.share * self.claimed.len() + self.balance == self.locked_balance
        }
    }

    pub open spec fn is_expired(self, now: int) -> bool {
        now >= self.last_reset + self.timeout_period
    }

    /// Value paid out so far: one locked share per claim.
    pub open spec fn paid_out(self) -> int {
        self.share * self.claimed.len()
    }
}

/// The first five distinct non-zero identities of `s`, in order.
pub open spec fn select_beneficiaries(s: Seq<Identity>) -> Seq<Identity>
    decreases s.len(),
{
    if s.len() == 0 {
        Seq::empty()
    } else {
        let r = select_beneficiaries(s.drop_last());
        let x = s.last();
        if !x.spec_is_zero() && !r.contains(x) && r.len() < MAX_BENEFICIARIES {
            r.push(x)
        } else {
            r
        }
    }
}

/// The plan that creation makes.
pub open spec fn fresh_plan(bens: Seq<Identity>, days: int, deposit: int, now: int) -> PlanState {
    PlanState {
        active: true,
        beneficiaries: select_beneficiaries(bens),
        beneficiary_count: select_beneficiaries(bens).len() as int,
        last_reset: now,
        timeout_period: days * SECONDS_PER_DAY,
        balance: deposit,
        claimed: Seq::empty(),
        share: 0,
        locked: false,
        locked_balance: 0,
    }
}

pub open spec fn spec_add_funds(p: PlanState, amount: int) -> Result<PlanState, InheritanceError> {
    if !p.active {
        Err(InheritanceError::PlanNotFound)
    } else if p.locked {
        Err(InheritanceError::PlanLocked)
    } else {
        Ok(PlanState { balance: p.balance + amount, ..p })
    }
}

pub open spec fn spec_add_beneficiary(p: PlanState, b: Identity) -> Result<PlanState, InheritanceError> {
    if !p.active {
        Err(InheritanceError::PlanNotFound)
    } else if p.locked {
        Err(InheritanceError::PlanLocked)
    } else if p.beneficiary_count >= MAX_BENEFICIARIES {
        Err(InheritanceError::BeneficiaryLimitExceeded)
    } else if b.spec_is_zero() {
        Err(InheritanceError::InvalidBeneficiary)
    } else if p.beneficiaries.contains(b) {
        Err(InheritanceError::DuplicateBeneficiary)
    } else {
        Ok(
            PlanState {
                beneficiaries: p.beneficiaries.push(b),
                beneficiary_count: p.beneficiary_count + 1,
                ..p
            },
        )
    }
}

pub open spec fn spec_remove_beneficiary(p: PlanState, b: Identity) -> Result<PlanState, InheritanceError> {
    if !p.active {
        Err(InheritanceError::PlanNotFound)
    } else if p.locked {
        Err(InheritanceError::PlanLocked)
    } else if !p.beneficiaries.contains(b) {
        Err(InheritanceError::NotABeneficiary)
    } else {
        Ok(
            PlanState {
                beneficiaries: p.beneficiaries.remove(p.beneficiaries.index_of(b)),
                beneficiary_count: p.beneficiary_count - 1,
                ..p
            },
        )
    }
}

pub open spec fn spec_reset_timer(p: PlanState, now: int) -> Result<PlanState, InheritanceError> {
    if !p.active {
        Err(InheritanceError::PlanNotFound)
    } else if p.locked {
        Err(InheritanceError::PlanLocked)
    } else {
        Ok(PlanState { last_reset: now, ..p })
    }
}

pub open spec fn spec_lock_share(p: PlanState, now: int) -> Result<PlanState, InheritanceError> {
    if !p.active {
        Err(InheritanceError::PlanNotFound)
    } else if !p.is_expired(now) {
        Err(InheritanceError::PlanNotExpired)
    } else if p.locked {
        Err(InheritanceError::AlreadyLocked)
    } else if p.beneficiary_count == 0 {
        Err(InheritanceError::NoBeneficiaries)
    } else if p.balance == 0 {
        Err(InheritanceError::NoFunds)
    } else {
        Ok(
            PlanState {
                share: p.balance / p.beneficiary_count,
                locked: true,
                locked_balance: p.balance,
                ..p
            },
        )
    }
}

/// A locked plan after `caller` has taken one share.
pub open spec fn settled(q: PlanState, caller: Identity) -> PlanState {
    let balance = q.balance - q.share;
    let count = q.beneficiary_count - 1;
    PlanState {
        active: balance != 0 && count != 0,
        beneficiaries: q.beneficiaries.remove(q.beneficiaries.index_of(caller)),
        beneficiary_count: count,
        balance: balance,
        claimed: q.claimed.push(caller),
        ..q
    }
}

/// The plan after a claim by `caller` at time `now`, with the amount owed to
/// the caller; the share is locked first where it is not yet.
pub open spec fn spec_redeem(p: PlanState, caller: Identity, now: int) -> Result<(PlanState, int), InheritanceError> {
    if !p.active {
        Err(InheritanceError::PlanNotFound)
    } else if !p.is_expired(now) {
        Err(InheritanceError::PlanNotExpired)
    } else if p.claimed.contains(caller) {
        Err(InheritanceError::AlreadyClaimed)
    } else if !p.beneficiaries.contains(caller) {
        Err(InheritanceError::NotABeneficiary)
    } else {
        let l = if p.locked { Ok(p) } else { spec_lock_share(p, now) };
        match l {
            Err(e) => Err(e),
            Ok(q) => if q.share == 0 {
                Err(InheritanceError::NoFundsToRedeem)
            } else {
                Ok((settled(q, caller), q.share))
            },
        }
    }
}

/// The plan after its owner took the whole balance back, with the amount owed.
pub open spec fn spec_withdraw_all(p: PlanState) -> Result<(PlanState, int), InheritanceError> {
    if !p.active {
        Err(InheritanceError::PlanNotFound)
    } else if p.locked {
        Err(InheritanceError::PlanLocked)
    } else if p.balance == 0 {
        Err(InheritanceError::NoFunds)
    } else {
        Ok((PlanState { balance: 0, active: false, ..p }, p.balance))
    }
}

/// `new` is `old` changed by a step that either succeeded with `t` or failed
/// and changed nothing.
pub open spec fn plan_outcome(
    old: PlanState,
    new: PlanState,
    r: Result<(), InheritanceError>,
    t: Result<PlanState, InheritanceError>,
) -> bool {
    match t {
        Ok(q) => r == Ok::<(), InheritanceError>(()) && new == q,
        Err(e) => r == Err::<(), InheritanceError>(e) && new == old,
    }
}

/// One owner's plan.
pub struct InheritanceConfig {
    active: bool,
    beneficiaries: Vec<Identity>,
    beneficiary_count: usize,
    last_reset: u64,
    timeout_period: u128,
    balance: u128,
    claimed: Vec<Identity>,
    per_beneficiary_share: u128,
    share_locked: bool,
    locked_balance: Ghost<int>,
}

impl View for InheritanceConfig {
    type V = PlanState;

    closed spec fn view(&self) -> PlanState {
        PlanState {
            active: self.active,
            beneficiaries: self.beneficiaries@,
            beneficiary_count: self.beneficiary_count as int,
            last_reset: self.last_reset as int,
            timeout_period: self.timeout_period as int,
            balance: self.balance as int,
            claimed: self.claimed@,
            share: self.per_beneficiary_share as int,
            locked: self.share_locked,
            locked_balance: self.locked_balance@,
        }
    }
}

impl InheritanceConfig {
    pub open spec fn wf(&self) -> bool {
        self@.wf()
    }

    /// A fresh, active plan: the first five distinct non-zero identities of
    /// `beneficiaries`, a timeout of `timeout_period_days` days from `now`,
    /// and `deposit` as its balance.
    pub fn new(beneficiaries: &Vec<Identity>, timeout_period_days: u64, deposit: u128, now: u64) -> (r: Self)
        ensures
            r.wf(),
            r@ == fresh_plan(beneficiaries@, timeout_period_days as int, deposit as int, now as int),
    {
        let mut chosen: Vec<Identity> = Vec::new();
        let mut i: usize = 0;
        while i < beneficiaries.len()
            invariant
                i <= beneficiaries@.len(),
                chosen@ == select_beneficiaries(beneficiaries@.take(i as int)),
            decreases beneficiaries@.len() - i,
        {
            let x = beneficiaries[i];
            proof {
                assert(beneficiaries@.take(i as int + 1).drop_last() =~= beneficiaries@.take(i as int));
            }
            if !x.is_zero() && chosen.len() < MAX_BENEFICIARIES && position(&chosen, x).is_none() {
                chosen.push(x);
            }
            i = i + 1;
        }
        proof {
            assert(beneficiaries@.take(i as int) =~= beneficiaries@);
            lemma_selected_wf(beneficiaries@);
        }
        let count = chosen.len();
        InheritanceConfig {
            active: true,
            beneficiaries: chosen,
            beneficiary_count: count,
            last_reset: now,
            timeout_period: (timeout_period_days as u128) * SECONDS_PER_DAY,
            balance: deposit,
            claimed: Vec::new(),
            per_beneficiary_share: 0,
            share_locked: false,
            locked_balance: Ghost(0),
        }
    }
}


/// What a claim changed, kept so that a failed payout can undo it.
pub(crate) struct Claim {
    pub(crate) amount: u128,
    pub(crate) claimant: Identity,
    pub(crate) index: usize,
    pub(crate) locked_here: bool,
    pub(crate) before: Ghost<PlanState>,
    pub(crate) now: Ghost<int>,
}

impl Claim {
    /// This claim took `before` to `after`.
    pub(crate) open spec fn led_to(&self, after: PlanState) -> bool {
        &&& self.before@.wf()
        &&& spec_redeem(self.before@, self.claimant, self.now@) == Ok::<(PlanState, int), InheritanceError>((after, self.amount as int))
        &&& self.index == self.before@.beneficiaries.index_of(self.claimant)
        &&& self.locked_here == !self.before@.locked
    }
}


impl InheritanceConfig {
    pub fn is_active(&self) -> (r: bool)
        ensures
            r == self@.active,
    {
        self.active
    }

    pub fn is_expired(&self, now: u64) -> (r: bool)
        requires
            self.wf(),
        ensures
            r == self@.is_expired(now as int),
    {
        (now as u128) >= (self.last_reset as u128) + self.timeout_period
    }

    pub fn is_beneficiary(&self, b: Identity) -> (r: bool)
        ensures
            r == self@.beneficiaries.contains(b),
    {
        position(&self.beneficiaries, b).is_some()
    }

    pub fn has_claimed(&self, b: Identity) -> (r: bool)
        ensures
            r == self@.claimed.contains(b),
    {
        position(&self.claimed, b).is_some()
    }

    /// Balance, beneficiary count, last reset, timeout period, share and lock flag.
    pub fn details(&self) -> (r: (u128, usize, u64, u128, u128, bool))
        ensures
            r.0 as int == self@.balance,
            r.1 as int == self@.beneficiary_count,
            r.2 as int == self@.last_reset,
            r.3 as int == self@.timeout_period,
            r.4 as int == self@.share,
            r.5 == self@.locked,
    {
        (
            self.balance,
            self.beneficiary_count,
            self.last_reset,
            self.timeout_period,
            self.per_beneficiary_share,
            self.share_locked,
        )
    }

    pub fn add_funds(&mut self, amount: u128) -> (r: Result<(), InheritanceError>)
        requires
            old(self).wf(),
            old(self)@.active ==> old(self)@.balance + amount <= u128::MAX,
        ensures
            final(self).wf(),
            plan_outcome(old(self)@, final(self)@, r, spec_add_funds(old(self)@, amount as int)),
    {
        if !self.active {
            return Err(InheritanceError::PlanNotFound);
        }
        if self.share_locked {
            return Err(InheritanceError::PlanLocked);
        }
        self.balance = self.balance + amount;
        Ok(())
    }

    pub fn add_beneficiary(&mut self, b: Identity) -> (r: Result<(), InheritanceError>)
        requires
            old(self).wf(),
        ensures
            final(self).wf(),
            plan_outcome(old(self)@, final(self)@, r, spec_add_beneficiary(old(self)@, b)),
    {
        if !self.active {
            return Err(InheritanceError::PlanNotFound);
        }
        if self.share_locked {
            return Err(InheritanceError::PlanLocked);
        }
        if self.beneficiary_count >= MAX_BENEFICIARIES {
            return Err(InheritanceError::BeneficiaryLimitExceeded);
        }
        if b.is_zero() {
            return Err(InheritanceError::InvalidBeneficiary);
        }
        if position(&self.beneficiaries, b).is_some() {
            return Err(InheritanceError::DuplicateBeneficiary);
        }
        let ghost s = self.beneficiaries@;
        self.beneficiaries.push(b);
        self.beneficiary_count = self.beneficiary_count + 1;
        proof {
            assert forall|i: int, j: int|
                0 <= i < s.push(b).len() && 0 <= j < s.push(b).len() && i != j implies s.push(b)[i] != s.push(b)[j] by {
                if i == s.len() as int {
                    assert(s.contains(s[j]));
                } else if j == s.len() as int {
                    assert(s.contains(s[i]));
                }
            }
            assert forall|x: Identity| s.push(b).contains(x) implies !self.claimed@.contains(x) by {
                if x != b {
                    let k = choose|k: int| 0 <= k < s.push(b).len() && s.push(b)[k] == x;
                    assert(s[k] == x);
                }
            }
        }
        Ok(())
    }

    pub fn remove_beneficiary(&mut self, b: Identity) -> (r: Result<(), InheritanceError>)
        requires
            old(self).wf(),
        ensures
            final(self).wf(),
            plan_outcome(old(self)@, final(self)@, r, spec_remove_beneficiary(old(self)@, b)),
    {
        if !self.active {
            return Err(InheritanceError::PlanNotFound);
        }
        if self.share_locked {
            return Err(InheritanceError::PlanLocked);
        }
        let idx = match position(&self.beneficiaries, b) {
            None => {
                return Err(InheritanceError::NotABeneficiary);
            },
            Some(i) => i,
        };
        proof {
            lemma_index_of_unique(self.beneficiaries@, idx as int);
            lemma_remove_keeps_wf(self.beneficiaries@, idx as int, self.claimed@);
        }
        self.beneficiaries.remove(idx);
        self.beneficiary_count = self.beneficiary_count - 1;
        Ok(())
    }

    pub fn reset_timer(&mut self, now: u64) -> (r: Result<(), InheritanceError>)
        requires
            old(self).wf(),
        ensures
            final(self).wf(),
            plan_outcome(old(self)@, final(self)@, r, spec_reset_timer(old(self)@, now as int)),
    {
        if !self.active {
            return Err(InheritanceError::PlanNotFound);
        }
        if self.share_locked {
            return Err(InheritanceError::PlanLocked);
        }
        self.last_reset = now;
        Ok(())
    }

    /// The share that locking at `now` would fix, or why it cannot happen.
    /// Both `lock_share` and `claim` decide through this one function.
    fn lock_terms(&self, now: u64) -> (r: Result<u128, InheritanceError>)
        requires
            self.wf(),
        ensures
            match spec_lock_share(self@, now as int) {
                Ok(q) => r == Ok::<u128, InheritanceError>(q.share as u128),
                Err(e) => r == Err::<u128, InheritanceError>(e),
            },
    {
        if !self.active {
            return Err(InheritanceError::PlanNotFound);
        }
        if !self.is_expired(now) {
            return Err(InheritanceError::PlanNotExpired);
        }
        if self.share_locked {
            return Err(InheritanceError::AlreadyLocked);
        }
        if self.beneficiary_count == 0 {
            return Err(InheritanceError::NoBeneficiaries);
        }
        if self.balance == 0 {
            return Err(InheritanceError::NoFunds);
        }
        Ok(self.balance / (self.beneficiary_count as u128))
    }

    /// Fixes the share: `share` must be what `lock_terms` returned.
    fn apply_lock(&mut self, share: u128, Ghost(now): Ghost<int>)
        requires
            old(self).wf(),
            spec_lock_share(old(self)@, now) is Ok,
            share as int == spec_lock_share(old(self)@, now).unwrap().share,
        ensures
            final(self).wf(),
            final(self)@ == spec_lock_share(old(self)@, now).unwrap(),
    {
        self.per_beneficiary_share = share;
        self.share_locked = true;
        self.locked_balance = Ghost(self.balance as int);
        proof {
            let n = self.beneficiaries@.len() as int;
            let b = self.balance as int;
            assert(b / n <= b) by (nonlinear_arith)
                requires
                    n > 0,
                    b >= 0,
            ;
        }
    }

    pub fn lock_share(&mut self, now: u64) -> (r: Result<(), InheritanceError>)
        requires
            old(self).wf(),
        ensures
            final(self).wf(),
            plan_outcome(old(self)@, final(self)@, r, spec_lock_share(old(self)@, now as int)),
    {
        match self.lock_terms(now) {
            Err(e) => Err(e),
            Ok(share) => {
                self.apply_lock(share, Ghost(now as int));
                Ok(())
            },
        }
    }

    /// Locks the share where it is not yet, then takes one share for `caller`:
    /// the caller leaves the beneficiaries and joins the claimed, the balance
    /// drops by the share, and the plan turns inactive once drained of value
    /// or of beneficiaries.
    pub(crate) fn claim(&mut self, caller: Identity, now: u64) -> (r: Result<Claim, InheritanceError>)
        requires
            old(self).wf(),
        ensures
            final(self).wf(),
            match spec_redeem(old(self)@, caller, now as int) {
                Err(e) => r == Err::<Claim, InheritanceError>(e) && final(self)@ == old(self)@,
                Ok((q, amount)) => {
                    &&& r is Ok
                    &&& final(self)@ == q
                    &&& r.unwrap().amount == amount
                    &&& r.unwrap().claimant == caller
                    &&& r.unwrap().before@ == old(self)@
                    &&& r.unwrap().now@ == now as int
                    &&& r.unwrap().led_to(q)
                },
            },
    {
        if !self.active {
            return Err(InheritanceError::PlanNotFound);
        }
        if !self.is_expired(now) {
            return Err(InheritanceError::PlanNotExpired);
        }
        if position(&self.claimed, caller).is_some() {
            return Err(InheritanceError::AlreadyClaimed);
        }
        let idx = match position(&self.beneficiaries, caller) {
            None => {
                return Err(InheritanceError::NotABeneficiary);
            },
            Some(i) => i,
        };
        let ghost before = self@;
        let locked_here = !self.share_locked;
        let share = if self.share_locked {
            self.per_beneficiary_share
        } else {
            match self.lock_terms(now) {
                Err(e) => {
                    return Err(e);
                },
                Ok(s) => s,
            }
        };
        if share == 0 {
            return Err(InheritanceError::NoFundsToRedeem);
        }
        if locked_here {
            self.apply_lock(share, Ghost(now as int));
        }
        let ghost locked = self@;
        proof {
            lemma_index_of_unique(self.beneficiaries@, idx as int);
            lemma_remove_keeps_wf(self.beneficiaries@, idx as int, self.claimed@.push(caller));
            let n = self.beneficiaries@.len() as int;
            let c = self.claimed@.len() as int;
            let lb = self.locked_balance@;
            let sh = share as int;
            let bal = self.balance as int;
            assert(sh * (n + c) <= lb) by (nonlinear_arith)
                requires
                    n + c > 0,
                    sh == lb / (n + c),
                    lb >= 0,
            ;
            assert(sh * c + sh * n == sh * (n + c)) by (nonlinear_arith);
            assert(sh <= sh * n) by (nonlinear_arith)
                requires
                    n >= 1,
                    sh >= 0,
            ;
            assert(sh * (c + 1) == sh * c + sh) by (nonlinear_arith);
            assert forall|x: Identity| self.beneficiaries@.contains(x) implies !self.claimed@.contains(x) by {}
        }
        self.claimed.push(caller);
        self.beneficiaries.remove(idx);
        self.beneficiary_count = self.beneficiary_count - 1;
        self.balance = self.balance - share;
        if self.balance == 0 || self.beneficiary_count == 0 {
            self.active = false;
        }
        proof {
            assert(self@ =~= settled(locked, caller));
        }
        Ok(
            Claim {
                amount: share,
                claimant: caller,
                index: idx,
                locked_here,
                before: Ghost(before),
                now: Ghost(now as int),
            },
        )
    }

    /// Undoes `c`, the claim that brought the plan to its present state.
    pub(crate) fn unclaim(&mut self, c: &Claim)
        requires
            c.led_to(old(self)@),
        ensures
            final(self).wf(),
            final(self)@ == c.before@,
    {
        let ghost before = c.before@;
        let ghost q = if before.locked { before } else { spec_lock_share(before, c.now@).unwrap() };
        proof {
            assert(q.beneficiaries == before.beneficiaries);
            assert(self.beneficiaries@ == q.beneficiaries.remove(c.index as int));
            assert(self.claimed@ == q.claimed.push(c.claimant));
        }
        self.claimed.pop();
        self.beneficiaries.insert(c.index, c.claimant);
        self.beneficiary_count = self.beneficiary_count + 1;
        self.balance = self.balance + c.amount;
        self.active = true;
        if c.locked_here {
            self.share_locked = false;
            self.per_beneficiary_share = 0;
            self.locked_balance = Ghost(0);
        }
        proof {
            assert(self.beneficiaries@ =~= before.beneficiaries);
            assert(self.claimed@ =~= before.claimed);
            assert(self@ =~= before);
        }
    }

    /// Empties the balance and retires the plan; returns the amount taken.
    pub(crate) fn withdraw(&mut self) -> (r: Result<u128, InheritanceError>)
        requires
            old(self).wf(),
        ensures
            final(self).wf(),
            match spec_withdraw_all(old(self)@) {
                Err(e) => r == Err::<u128, InheritanceError>(e) && final(self)@ == old(self)@,
                Ok((q, amount)) => r == Ok::<u128, InheritanceError>(amount as u128) && final(self)@ == q,
            },
    {
        if !self.active {
            return Err(InheritanceError::PlanNotFound);
        }
        if self.share_locked {
            return Err(InheritanceError::PlanLocked);
        }
        let amount = self.balance;
        if amount == 0 {
            return Err(InheritanceError::NoFunds);
        }
        self.balance = 0;
        self.active = false;
        Ok(amount)
    }

    /// Undoes a withdrawal of `amount` from `before`.
    pub(crate) fn unwithdraw(&mut self, amount: u128, Ghost(before): Ghost<PlanState>)
        requires
            before.wf(),
            spec_withdraw_all(before) == Ok::<(PlanState, int), InheritanceError>((old(self)@, amount as int)),
        ensures
            final(self).wf(),
            final(self)@ == before,
    {
        self.balance = amount;
        self.active = true;
        proof {
            assert(self@ =~= before);
        }
    }
}

/// Once `caller` has claimed from a valid plan, a later claim by the same
/// caller is refused: with `AlreadyClaimed` while the plan stays active, with
/// `PlanNotFound` once that claim retired it.
pub proof fn lemma_second_redeem_refused(p: PlanState, caller: Identity, now: int, later: int)
    requires
        p.wf(),
        spec_redeem(p, caller, now) is Ok,
        now <= later,
    ensures
        ({
            let q = spec_redeem(p, caller, now).unwrap().0;
            spec_redeem(q, caller, later) == Err::<(PlanState, int), InheritanceError>(
                if q.active {
                    InheritanceError::AlreadyClaimed
                } else {
                    InheritanceError::PlanNotFound
                },
            )
        }),
{
    let q = spec_redeem(p, caller, now).unwrap().0;
    assert(q.claimed.last() == caller);
    assert(q.claimed.contains(caller));
}

/// Removing one entry from a valid beneficiary list keeps it valid, and leaves
/// out only the removed identity.
pub proof fn lemma_remove_keeps_wf(s: Seq<Identity>, k: int, claimed: Seq<Identity>)
    requires
        s.no_duplicates(),
        0 <= k < s.len(),
        forall|x: Identity| s.contains(x) && x != s[k] ==> !claimed.contains(x),
    ensures
        s.remove(k).no_duplicates(),
        forall|i: int| 0 <= i < s.remove(k).len() ==> s.contains(#[trigger] s.remove(k)[i]) && s.remove(k)[i] != s[k],
        forall|x: Identity| s.remove(k).contains(x) ==> !claimed.contains(x) && s.contains(x),
{
    let r = s.remove(k);
    assert forall|i: int| 0 <= i < r.len() implies s.contains(#[trigger] r[i]) && r[i] != s[k] by {
        if i < k {
            assert(r[i] == s[i]);
        } else {
            assert(r[i] == s[i + 1]);
        }
    }
    assert forall|x: Identity| r.contains(x) implies !claimed.contains(x) && s.contains(x) by {
        let i = choose|i: int| 0 <= i < r.len() && r[i] == x;
        assert(s.contains(r[i]) && r[i] != s[k]);
    }
}

/// What creation selects is a valid beneficiary list.
pub proof fn lemma_selected_wf(s: Seq<Identity>)
    ensures
        select_beneficiaries(s).len() <= MAX_BENEFICIARIES,
        select_beneficiaries(s).no_duplicates(),
        forall|i: int| 0 <= i < select_beneficiaries(s).len() ==> !(#[trigger] select_beneficiaries(s)[i]).spec_is_zero(),
    decreases s.len(),
{
    if s.len() > 0 {
        lemma_selected_wf(s.drop_last());
        let r = select_beneficiaries(s.drop_last());
        let x = s.last();
        if !x.spec_is_zero() && !r.contains(x) && r.len() < MAX_BENEFICIARIES {
            assert forall|i: int, j: int| 0 <= i < r.push(x).len() && 0 <= j < r.push(x).len() && i != j
                implies r.push(x)[i] != r.push(x)[j] by {
                if i == r.len() as int {
                    assert(r.contains(r[j]));
                } else if j == r.len() as int {
                    assert(r.contains(r[i]));
                }
            }
        }
    }
}

} // verus!

use vstd::prelude::*;

use crate::error::InheritanceError;
use crate::identity::{lemma_index_of_unique, position, Identity};
use crate::plan::{
    fresh_plan, spec_add_beneficiary, spec_add_funds, spec_lock_share, spec_redeem,
    spec_remove_beneficiary, spec_reset_timer, spec_withdraw_all, InheritanceConfig, PlanState,
};

verus! {

/// The mathematical model of the registry: the record kept for each owner
/// that ever made a plan, and the count of active plans.
pub struct RegistryState {
    pub plans: Map<Identity, PlanState>,
    pub count: int,
}

impl RegistryState {
    /// The plan of `o`; an owner that never made one reads as a vacant record.
    pub open spec fn plan(self, o: Identity) -> PlanState {
        if self.plans.contains_key(o) {
            self.plans[o]
        } else {
            PlanState::vacant()
        }
    }

    /// Only an active record counts as a plan.
    pub open spec fn has_plan(self, o: Identity) -> bool {
        self.plan(o).active
    }

    /// The registry with the record of `o` replaced by `q`.
    pub open spec fn with_plan(self, o: Identity, q: PlanState) -> RegistryState {
        RegistryState {
            plans: self.plans.insert(o, q),
            count: self.count - (if self.plan(o).active { 1int } else { 0int }) + (if q.active { 1int } else { 0int }),
        }
    }

    /// Every share locked in an active plan of `self` is still locked, at the
    /// same amount and from the same balance, in `next`.
    pub open spec fn shares_kept(self, next: RegistryState) -> bool {
        forall|o: Identity|
            #![trigger next.plan(o)]
            self.plan(o).active && self.plan(o).locked ==> {
                &&& next.plan(o).locked
                &&& next.plan(o).share == self.plan(o).share
                &&& next.plan(o).locked_balance == self.plan(o).locked_balance
            }
    }
}

/// `new` is `old` after a step on the plan of `o` that either succeeded with
/// `t` or failed and changed nothing.
pub open spec fn outcome(
    old: RegistryState,
    new: RegistryState,
    o: Identity,
    r: Result<(), InheritanceError>,
    t: Result<PlanState, InheritanceError>,
) -> bool {
    match t {
        Ok(q) => r == Ok::<(), InheritanceError>(()) && new == old.with_plan(o, q),
        Err(e) => r == Err::<(), InheritanceError>(e) && new == old,
    }
}

/// `new` is `old` after a step that pays `to` through `transfer`: on a
/// successful transfer the plan of `o` becomes what `t` gives; on a failed one
/// nothing has changed; and a step refused before any payout changes nothing.
pub open spec fn payout_outcome<F: FnOnce(Identity, u128) -> bool>(
    old: RegistryState,
    new: RegistryState,
    o: Identity,
    to: Identity,
    transfer: F,
    r: Result<u128, InheritanceError>,
    t: Result<(PlanState, int), InheritanceError>,
) -> bool {
    match t {
        Err(e) => r == Err::<u128, InheritanceError>(e) && new == old,
        Ok((q, amount)) => {
            ||| {
                &&& transfer.ensures((to, amount as u128), true)
                &&& r == Ok::<u128, InheritanceError>(amount as u128)
                &&& new == old.with_plan(o, q)
            }
            ||| {
                &&& transfer.ensures((to, amount as u128), false)
                &&& r == Err::<u128, InheritanceError>(InheritanceError::TransferFailed)
                &&& new == old
            }
        },
    }
}

/// Number of active plans among `s`.
pub open spec fn active_count(s: Seq<InheritanceConfig>) -> int
    decreases s.len(),
{
    if s.len() == 0 {
        0
    } else {
        active_count(s.drop_last()) + (if s.last()@.active { 1int } else { 0int })
    }
}

pub proof fn lemma_active_count_bounds(s: Seq<InheritanceConfig>)
    ensures
        0 <= active_count(s) <= s.len(),
    decreases s.len(),
{
    if s.len() > 0 {
        lemma_active_count_bounds(s.drop_last());
    }
}

pub proof fn lemma_active_count_update(s: Seq<InheritanceConfig>, i: int, c: InheritanceConfig)
    requires
        0 <= i < s.len(),
    ensures
        active_count(s.update(i, c)) == active_count(s) - (if s[i]@.active { 1int } else { 0int }) + (if c@.active { 1int } else { 0int }),
    decreases s.len(),
{
    let t = s.update(i, c);
    if i < s.len() - 1 {
        lemma_active_count_update(s.drop_last(), i, c);
        assert(t.drop_last() =~= s.drop_last().update(i, c));
    } else {
        assert(t.drop_last() =~= s.drop_last());
    }
}

/// The plans of all owners, each of whom made at least one.
pub struct InheritanceContract {
    owners: Vec<Identity>,
    configs: Vec<InheritanceConfig>,
    owner_count: usize,
}

impl View for InheritanceContract {
    type V = RegistryState;

    closed spec fn view(&self) -> RegistryState {
        RegistryState {
            plans: Map::new(
                |o: Identity| self.owners@.contains(o),
                |o: Identity| self.configs@[self.owners@.index_of(o)]@,
            ),
            count: self.owner_count as int,
        }
    }
}

impl InheritanceContract {
    /// One record per owner, each a valid plan, and a count that is the
    /// number of active plans.
    pub closed spec fn wf(&self) -> bool {
        &&& self.owners@.len() == self.configs@.len()
        &&& self.configs@.len() <= usize::MAX
        &&& self.owners@.no_duplicates()
        &&& forall|i: int| 0 <= i < self.configs@.len() ==> (#[trigger] self.configs@[i]).wf()
        &&& self.owner_count as int == active_count(self.configs@)
    }

    /// In a valid registry every plan is valid.
    pub proof fn lemma_wf_plans(&self)
        requires
            self.wf(),
        ensures
            forall|o: Identity| #[trigger] self@.plan(o).wf(),
    {
        assert forall|o: Identity| #[trigger] self@.plan(o).wf() by {
            if self.owners@.contains(o) {
                let i = self.owners@.index_of(o);
                assert(self.configs@[i].wf());
            }
        }
    }

    /// In every plan of a valid registry the stored beneficiary count is the
    /// number of beneficiaries.
    pub proof fn lemma_count_matches_beneficiaries(&self, o: Identity)
        requires
            self.wf(),
        ensures
            self@.plan(o).beneficiary_count == self@.plan(o).beneficiaries.len(),
    {
        self.lemma_wf_plans();
        assert(self@.plan(o).wf());
    }

    /// In every locked plan of a valid registry, what has been paid out (one
    /// share per claim) plus what is left is the balance at lock time, so the
    /// payout never exceeds that balance.
    pub proof fn lemma_paid_out_within_locked_balance(&self, o: Identity)
        requires
            self.wf(),
        ensures
            self@.plan(o).locked ==> self@.plan(o).paid_out() + self@.plan(o).balance == self@.plan(o).locked_balance,
            self@.plan(o).locked ==> self@.plan(o).paid_out() <= self@.plan(o).locked_balance,
    {
        self.lemma_wf_plans();
        assert(self@.plan(o).wf());
    }

    /// Owners among the first `k` records whose plans are active.
    spec fn active_prefix(&self, k: int) -> Set<Identity> {
        Set::new(|o: Identity| exists|i: int| 0 <= i < k && self.owners@[i] == o && (#[trigger] self.configs@[i])@.active)
    }

    proof fn lemma_active_prefix(&self, k: int)
        requires
            self.wf(),
            0 <= k <= self.owners@.len(),
        ensures
            self.active_prefix(k).finite(),
            self.active_prefix(k).len() == active_count(self.configs@.take(k)),
        decreases k,
    {
        if k == 0 {
            assert(self.active_prefix(0) =~= Set::<Identity>::empty());
            assert(self.configs@.take(0) =~= Seq::<InheritanceConfig>::empty());
        } else {
            self.lemma_active_prefix(k - 1);
            assert(self.configs@.take(k).drop_last() =~= self.configs@.take(k - 1));
            let o = self.owners@[k - 1];
            if self.configs@[k - 1]@.active {
                assert(!self.active_prefix(k - 1).contains(o));
                assert(self.active_prefix(k) =~= self.active_prefix(k - 1).insert(o));
            } else {
                assert forall|x: Identity| self.active_prefix(k).contains(x) implies self.active_prefix(k - 1).contains(x) by {
                    let i = choose|i: int| 0 <= i < k && self.owners@[i] == x && (#[trigger] self.configs@[i])@.active;
                    assert(i != k - 1);
                }
                assert(self.active_prefix(k) =~= self.active_prefix(k - 1));
            }
        }
    }

    /// In a valid registry the count is the number of owners with an active plan.
    pub proof fn lemma_count_is_active_plans(&self)
        requires
            self.wf(),
        ensures
            self@.plans.dom().filter(|o: Identity| self@.plans[o].active).finite(),
            self@.count == self@.plans.dom().filter(|o: Identity| self@.plans[o].active).len(),
    {
        let n = self.owners@.len() as int;
        self.lemma_active_prefix(n);
        assert(self.configs@.take(n) =~= self.configs@);
        let a = self@.plans.dom().filter(|o: Identity| self@.plans[o].active);
        assert forall|o: Identity| a.contains(o) == self.active_prefix(n).contains(o) by {
            if a.contains(o) {
                let i = self.owners@.index_of(o);
                assert(self.owners@.contains(o));
                assert(0 <= i < n && self.owners@[i] == o);
                assert(self.configs@[i]@.active);
            }
            if self.active_prefix(n).contains(o) {
                let i = choose|i: int| 0 <= i < n && self.owners@[i] == o && (#[trigger] self.configs@[i])@.active;
                lemma_index_of_unique(self.owners@, i);
                assert(self.owners@.contains(o));
            }
        }
        assert(a =~= self.active_prefix(n));
    }

    proof fn lemma_lookup(&self, i: int)
        requires
            self.wf(),
            0 <= i < self.owners@.len(),
        ensures
            self@.plans.contains_key(self.owners@[i]),
            self@.plan(self.owners@[i]) == self.configs@[i]@,
    {
        lemma_index_of_unique(self.owners@, i);
    }

    /// A registry that differs from a valid one only in the plan at `i`, with
    /// the count kept in step, is valid and has that plan replaced.
    proof fn lemma_replaced(pre: &InheritanceContract, post: &InheritanceContract, i: int)
        requires
            pre.wf(),
            0 <= i < pre.owners@.len(),
            post.owners@ == pre.owners@,
            post.configs@ == pre.configs@.update(i, post.configs@[i]),
            post.configs@[i].wf(),
            post.owner_count as int == pre.owner_count as int
                - (if pre.configs@[i]@.active { 1int } else { 0int })
                + (if post.configs@[i]@.active { 1int } else { 0int }),
        ensures
            post.wf(),
            post@ == pre@.with_plan(pre.owners@[i], post.configs@[i]@),
    {
        pre.lemma_lookup(i);
        lemma_active_count_update(pre.configs@, i, post.configs@[i]);
        assert forall|j: int| 0 <= j < post.configs@.len() implies (#[trigger] post.configs@[j]).wf() by {
            if j != i {
                assert(post.configs@[j] == pre.configs@[j]);
            }
        }
        let o = pre.owners@[i];
        assert forall|x: Identity| post@.plans.contains_key(x) implies post@.plans[x] == pre@.plans.insert(o, post.configs@[i]@)[x] by {
            let k = post.owners@.index_of(x);
            assert(post.owners@.contains(x));
            assert(0 <= k < post.owners@.len() && post.owners@[k] == x);
            lemma_index_of_unique(pre.owners@, k);
            if x == o {
                lemma_index_of_unique(pre.owners@, i);
            }
        }
        assert(post@.plans =~= pre@.plans.insert(o, post.configs@[i]@));
    }

    pub fn new() -> (r: Self)
        ensures
            r.wf(),
            r@.plans == Map::<Identity, PlanState>::empty(),
            r@.count == 0,
    {
        let r = InheritanceContract { owners: Vec::new(), configs: Vec::new(), owner_count: 0 };
        assert(r@.plans =~= Map::<Identity, PlanState>::empty());
        r
    }

    /// Where the record of `o` stands, if it has one.
    fn slot(&self, o: Identity) -> (r: Option<usize>)
        requires
            self.wf(),
        ensures
            match r {
                Some(i) => i < self.owners@.len() && self.owners@[i as int] == o,
                None => !self@.plans.contains_key(o) && self@.plan(o) == PlanState::vacant(),
            },
    {
        position(&self.owners, o)
    }

    /// Whether `owner` has an active plan.
    pub fn owner_exists(&self, owner: Identity) -> (r: bool)
        requires
            self.wf(),
        ensures
            r == self@.has_plan(owner),
    {
        match self.slot(owner) {
            None => false,
            Some(i) => {
                proof {
                    self.lemma_lookup(i as int);
                }
                self.configs[i].is_active()
            },
        }
    }

    /// Number of active plans.
    pub fn get_owner_count(&self) -> (r: usize)
        ensures
            r as int == self@.count,
    {
        self.owner_count
    }
    /// Starts a plan for `caller`: the first five distinct non-zero identities
    /// of `initial_beneficiaries`, a timeout of `timeout_period_days` days from
    /// `now`, and `deposit` as balance. A record left by an earlier, inactive
    /// plan is replaced whole.
    pub fn create_inheritance_plan(
        &mut self,
        caller: Identity,
        initial_beneficiaries: Vec<Identity>,
        timeout_period_days: u64,
        deposit: u128,
        now: u64,
    ) -> (r: Result<(), InheritanceError>)
        requires
            old(self).wf(),
        ensures
            final(self).wf(),
            old(self)@.shares_kept(final(self)@),
            if old(self)@.has_plan(caller) {
                r == Err::<(), InheritanceError>(InheritanceError::PlanAlreadyExists) && final(self)@ == old(self)@
            } else {
                &&& r == Ok::<(), InheritanceError>(())
                &&& final(self)@ == old(self)@.with_plan(
                    caller,
                    fresh_plan(initial_beneficiaries@, timeout_period_days as int, deposit as int, now as int),
                )
            },
    {
        let c = InheritanceConfig::new(&initial_beneficiaries, timeout_period_days, deposit, now);
        match self.slot(caller) {
            Some(i) => {
                proof {
                    self.lemma_lookup(i as int);
                    lemma_active_count_bounds(self.configs@);
                }
                if self.configs[i].is_active() {
                    return Err(InheritanceError::PlanAlreadyExists);
                }
                let ghost pre = *self;
                proof {
                    lemma_active_count_update(self.configs@, i as int, c);
                    lemma_active_count_bounds(self.configs@.update(i as int, c));
                }
                self.configs[i] = c;
                self.owner_count = self.owner_count + 1;
                proof {
                    InheritanceContract::lemma_replaced(&pre, self, i as int);
                }
                Ok(())
            },
            None => {
                let ghost pre = *self;
                self.owners.push(caller);
                self.configs.push(c);
                let n = self.configs.len();
                proof {
                    assert(self.configs@.drop_last() =~= pre.configs@);
                    lemma_active_count_bounds(self.configs@);
                }
                self.owner_count = self.owner_count + 1;
                proof {
                    assert forall|i: int, j: int|
                        0 <= i < self.owners@.len() && 0 <= j < self.owners@.len() && i != j
                        implies self.owners@[i] != self.owners@[j] by {
                        if i == pre.owners@.len() as int {
                            assert(pre.owners@.contains(self.owners@[j]));
                        } else if j == pre.owners@.len() as int {
                            assert(pre.owners@.contains(self.owners@[i]));
                        }
                    }
                    assert forall|j: int| 0 <= j < self.configs@.len() implies (#[trigger] self.configs@[j]).wf() by {
                        if j < pre.configs@.len() {
                            assert(self.configs@[j] == pre.configs@[j]);
                        }
                    }
                    assert forall|x: Identity| self@.plans.contains_key(x)
                        implies self@.plans[x] == pre@.plans.insert(caller, c@)[x] by {
                        let k = self.owners@.index_of(x);
                        assert(self.owners@.contains(x));
                        assert(0 <= k < self.owners@.len() && self.owners@[k] == x);
                        lemma_index_of_unique(self.owners@, k);
                        if x != caller {
                            assert(k < pre.owners@.len());
                            assert(pre.owners@[k] == x);
                            lemma_index_of_unique(pre.owners@, k);
                        }
                    }
                    assert forall|x: Identity| #[trigger] self@.plans.contains_key(x)
                        == pre@.plans.insert(caller, c@).contains_key(x) by {
                        assert(self.owners@[pre.owners@.len() as int] == caller);
                        if x != caller && self.owners@.contains(x) {
                            let k = choose|k: int| 0 <= k < self.owners@.len() && self.owners@[k] == x;
                            assert(pre.owners@[k] == x);
                        }
                        if pre.owners@.contains(x) {
                            let k = choose|k: int| 0 <= k < pre.owners@.len() && pre.owners@[k] == x;
                            assert(self.owners@[k] == x);
                        }
                    }
                    assert(self@.plans =~= pre@.plans.insert(caller, c@));
                }
                Ok(())
            },
        }
    }

    /// Takes one share of the plan of `owner` for `caller` and pays it through
    /// `transfer`. The plan is changed before the payout; if `transfer`
    /// reports failure every change is undone and `TransferFailed` returned.
    pub fn redeem<F: FnOnce(Identity, u128) -> bool>(
        &mut self,
        owner: Identity,
        caller: Identity,
        now: u64,
        transfer: F,
    ) -> (r: Result<u128, InheritanceError>)
        requires
            old(self).wf(),
            forall|to: Identity, amount: u128| transfer.requires((to, amount)),
        ensures
            final(self).wf(),
            old(self)@.shares_kept(final(self)@),
            payout_outcome(
                old(self)@,
                final(self)@,
                owner,
                caller,
                transfer,
                r,
                spec_redeem(old(self)@.plan(owner), caller, now as int),
            ),
    {
        let i = match self.slot(owner) {
            None => {
                return Err(InheritanceError::PlanNotFound);
            },
            Some(i) => i,
        };
        proof {
            self.lemma_lookup(i as int);
        }
        let ghost pre = *self;
        let c = match self.configs[i].claim(caller, now) {
            Err(e) => {
                proof {
                    InheritanceContract::lemma_replaced(&pre, self, i as int);
                    assert(self@.plans =~= pre@.plans);
                }
                return Err(e);
            },
            Ok(c) => c,
        };
        let deactivated = !self.configs[i].is_active();
        if deactivated {
            proof {
                lemma_active_count_update(pre.configs@, i as int, self.configs@[i as int]);
                lemma_active_count_bounds(self.configs@);
            }
            self.owner_count = self.owner_count - 1;
        }
        proof {
            InheritanceContract::lemma_replaced(&pre, self, i as int);
        }
        let amount = c.amount;
        if transfer(caller, amount) {
            Ok(amount)
        } else {
            let ghost mid = *self;
            self.configs[i].unclaim(&c);
            if deactivated {
                proof {
                    lemma_active_count_update(mid.configs@, i as int, self.configs@[i as int]);
                    lemma_active_count_bounds(self.configs@);
                }
                self.owner_count = self.owner_count + 1;
            }
            proof {
                InheritanceContract::lemma_replaced(&mid, self, i as int);
                assert(self@.plans =~= pre@.plans);
            }
            Err(InheritanceError::TransferFailed)
        }
    }
    /// Adds `amount` to the balance of the plan of `caller`.
    pub fn add_funds(&mut self, caller: Identity, amount: u128) -> (r: Result<(), InheritanceError>)
        requires
            old(self).wf(),
            old(self)@.has_plan(caller) ==> old(self)@.plan(caller).balance + amount <= u128::MAX,
        ensures
            final(self).wf(),
            old(self)@.shares_kept(final(self)@),
            outcome(old(self)@, final(self)@, caller, r, spec_add_funds(old(self)@.plan(caller), amount as int)),
    {
        let i = match self.slot(caller) {
            None => {
                return Err(InheritanceError::PlanNotFound);
            },
            Some(i) => i,
        };
        proof {
            self.lemma_lookup(i as int);
        }
        let ghost pre = *self;
        let r = self.configs[i].add_funds(amount);
        proof {
            InheritanceContract::lemma_replaced(&pre, self, i as int);
            assert(r is Err ==> self@.plans =~= pre@.plans);
        }
        r
    }

    /// Adds `beneficiary` to the plan of `caller`.
    pub fn add_beneficiary(&mut self, caller: Identity, beneficiary: Identity) -> (r: Result<(), InheritanceError>)
        requires
            old(self).wf(),
        ensures
            final(self).wf(),
            old(self)@.shares_kept(final(self)@),
            outcome(old(self)@, final(self)@, caller, r, spec_add_beneficiary(old(self)@.plan(caller), beneficiary)),
    {
        let i = match self.slot(caller) {
            None => {
                return Err(InheritanceError::PlanNotFound);
            },
            Some(i) => i,
        };
        proof {
            self.lemma_lookup(i as int);
        }
        let ghost pre = *self;
        let r = self.configs[i].add_beneficiary(beneficiary);
        proof {
            InheritanceContract::lemma_replaced(&pre, self, i as int);
            assert(r is Err ==> self@.plans =~= pre@.plans);
        }
        r
    }

    /// Removes `beneficiary` from the plan of `caller`.
    pub fn remove_beneficiary(&mut self, caller: Identity, beneficiary: Identity) -> (r: Result<(), InheritanceError>)
        requires
            old(self).wf(),
        ensures
            final(self).wf(),
            old(self)@.shares_kept(final(self)@),
            outcome(old(self)@, final(self)@, caller, r, spec_remove_beneficiary(old(self)@.plan(caller), beneficiary)),
    {
        let i = match self.slot(caller) {
            None => {
                return Err(InheritanceError::PlanNotFound);
            },
            Some(i) => i,
        };
        proof {
            self.lemma_lookup(i as int);
        }
        let ghost pre = *self;
        let r = self.configs[i].remove_beneficiary(beneficiary);
        proof {
            InheritanceContract::lemma_replaced(&pre, self, i as int);
            assert(r is Err ==> self@.plans =~= pre@.plans);
        }
        r
    }

    /// Restarts the timeout of the plan of `caller` at `now`.
    pub fn reset_timer(&mut self, caller: Identity, now: u64) -> (r: Result<(), InheritanceError>)
        requires
            old(self).wf(),
        ensures
            final(self).wf(),
            old(self)@.shares_kept(final(self)@),
            outcome(old(self)@, final(self)@, caller, r, spec_reset_timer(old(self)@.plan(caller), now as int)),
    {
        let i = match self.slot(caller) {
            None => {
                return Err(InheritanceError::PlanNotFound);
            },
            Some(i) => i,
        };
        proof {
            self.lemma_lookup(i as int);
        }
        let ghost pre = *self;
        let r = self.configs[i].reset_timer(now);
        proof {
            InheritanceContract::lemma_replaced(&pre, self, i as int);
            assert(r is Err ==> self@.plans =~= pre@.plans);
        }
        r
    }

    /// Fixes the share of each beneficiary of the plan of `owner`; anyone may
    /// call it once the plan has expired.
    pub fn lock_share(&mut self, owner: Identity, now: u64) -> (r: Result<(), InheritanceError>)
        requires
            old(self).wf(),
        ensures
            final(self).wf(),
            old(self)@.shares_kept(final(self)@),
            outcome(old(self)@, final(self)@, owner, r, spec_lock_share(old(self)@.plan(owner), now as int)),
    {
        let i = match self.slot(owner) {
            None => {
                return Err(InheritanceError::PlanNotFound);
            },
            Some(i) => i,
        };
        proof {
            self.lemma_lookup(i as int);
        }
        let ghost pre = *self;
        let r = self.configs[i].lock_share(now);
        proof {
            InheritanceContract::lemma_replaced(&pre, self, i as int);
            assert(r is Err ==> self@.plans =~= pre@.plans);
        }
        r
    }

    /// Hands the whole balance of the plan of `caller` back to its owner
    /// through `transfer` and retires the plan. The plan is changed before
    /// the payout; if `transfer` reports failure every change is undone and
    /// `TransferFailed` returned.
    pub fn withdraw_all<F: FnOnce(Identity, u128) -> bool>(&mut self, caller: Identity, transfer: F) -> (r: Result<
        u128,
        InheritanceError,
    >)
        requires
            old(self).wf(),
            forall|to: Identity, amount: u128| transfer.requires((to, amount)),
        ensures
            final(self).wf(),
            old(self)@.shares_kept(final(self)@),
            payout_outcome(
                old(self)@,
                final(self)@,
                caller,
                caller,
                transfer,
                r,
                spec_withdraw_all(old(self)@.plan(caller)),
            ),
    {
        let i = match self.slot(caller) {
            None => {
                return Err(InheritanceError::PlanNotFound);
            },
            Some(i) => i,
        };
        proof {
            self.lemma_lookup(i as int);
        }
        let ghost pre = *self;
        let ghost before = self.configs@[i as int]@;
        let amount = match self.configs[i].withdraw() {
            Err(e) => {
                proof {
                    InheritanceContract::lemma_replaced(&pre, self, i as int);
                    assert(self@.plans =~= pre@.plans);
                }
                return Err(e);
            },
            Ok(a) => a,
        };
        proof {
            lemma_active_count_update(pre.configs@, i as int, self.configs@[i as int]);
            lemma_active_count_bounds(self.configs@);
        }
        self.owner_count = self.owner_count - 1;
        proof {
            InheritanceContract::lemma_replaced(&pre, self, i as int);
        }
        if transfer(caller, amount) {
            Ok(amount)
        } else {
            let ghost mid = *self;
            self.configs[i].unwithdraw(amount, Ghost(before));
            proof {
                lemma_active_count_update(mid.configs@, i as int, self.configs@[i as int]);
                lemma_active_count_bounds(self.configs@);
            }
            self.owner_count = self.owner_count + 1;
            proof {
                InheritanceContract::lemma_replaced(&mid, self, i as int);
                assert(self@.plans =~= pre@.plans);
            }
            Err(InheritanceError::TransferFailed)
        }
    }

    /// Balance, beneficiary count, last reset, timeout period in seconds,
    /// share per beneficiary and lock flag of the plan of `owner`.
    pub fn get_plan_details(&self, owner: Identity) -> (r: Result<
        (u128, usize, u64, u128, u128, bool),
        InheritanceError,
    >)
        requires
            self.wf(),
        ensures
            !self@.has_plan(owner) ==> r == Err::<(u128, usize, u64, u128, u128, bool), InheritanceError>(
                InheritanceError::PlanNotFound,
            ),
            self@.has_plan(owner) ==> r is Ok && {
                let (balance, count, last_reset, timeout, share, locked) = r.unwrap();
                let p = self@.plan(owner);
                &&& balance as int == p.balance
                &&& count as int == p.beneficiary_count
                &&& last_reset as int == p.last_reset
                &&& timeout as int == p.timeout_period
                &&& share as int == p.share
                &&& locked == p.locked
            },
    {
        match self.slot(owner) {
            None => Err(InheritanceError::PlanNotFound),
            Some(i) => {
                proof {
                    self.lemma_lookup(i as int);
                }
                if !self.configs[i].is_active() {
                    return Err(InheritanceError::PlanNotFound);
                }
                Ok(self.configs[i].details())
            },
        }
    }

    /// Whether the plan of `owner` has gone `now` past its timeout.
    pub fn is_owner_expired(&self, owner: Identity, now: u64) -> (r: Result<bool, InheritanceError>)
        requires
            self.wf(),
        ensures
            r == if self@.has_plan(owner) {
                Ok::<bool, InheritanceError>(self@.plan(owner).is_expired(now as int))
            } else {
                Err::<bool, InheritanceError>(InheritanceError::PlanNotFound)
            },
    {
        match self.slot(owner) {
            None => Err(InheritanceError::PlanNotFound),
            Some(i) => {
                proof {
                    self.lemma_lookup(i as int);
                }
                if !self.configs[i].is_active() {
                    return Err(InheritanceError::PlanNotFound);
                }
                Ok(self.configs[i].is_expired(now))
            },
        }
    }

    /// Whether `beneficiary` is, at present, a beneficiary of the plan of `owner`.
    pub fn is_beneficiary(&self, owner: Identity, beneficiary: Identity) -> (r: Result<bool, InheritanceError>)
        requires
            self.wf(),
        ensures
            r == if self@.has_plan(owner) {
                Ok::<bool, InheritanceError>(self@.plan(owner).beneficiaries.contains(beneficiary))
            } else {
                Err::<bool, InheritanceError>(InheritanceError::PlanNotFound)
            },
    {
        match self.slot(owner) {
            None => Err(InheritanceError::PlanNotFound),
            Some(i) => {
                proof {
                    self.lemma_lookup(i as int);
                }
                if !self.configs[i].is_active() {
                    return Err(InheritanceError::PlanNotFound);
                }
                Ok(self.configs[i].is_beneficiary(beneficiary))
            },
        }
    }

    /// Whether `beneficiary` has claimed its share of the plan of `owner`.
    pub fn has_claimed(&self, owner: Identity, beneficiary: Identity) -> (r: Result<bool, InheritanceError>)
        requires
            self.wf(),
        ensures
            r == if self@.has_plan(owner) {
                Ok::<bool, InheritanceError>(self@.plan(owner).claimed.contains(beneficiary))
            } else {
                Err::<bool, InheritanceError>(InheritanceError::PlanNotFound)
            },
    {
        match self.slot(owner) {
            None => Err(InheritanceError::PlanNotFound),
            Some(i) => {
                proof {
                    self.lemma_lookup(i as int);
                }
                if !self.configs[i].is_active() {
                    return Err(InheritanceError::PlanNotFound);
                }
                Ok(self.configs[i].has_claimed(beneficiary))
            },
        }
    }
}

} // verus!

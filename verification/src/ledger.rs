//! The executable ledger and its two entry points.

use std::collections::HashMap;

use vstd::prelude::*;

use crate::model::LedgerView;
use crate::model::lemma_deposit_commit_wf;
use crate::model::lemma_unlocked_sum_prefix_mono;
use crate::model::lemma_withdraw_commit_wf;
use crate::model::locked_prefix;
use crate::model::unlocked_prefix;
use crate::model::unlocked_sum_prefix;
use crate::types::AccountId;
use crate::types::Balance;
use crate::types::Error;
use crate::types::ScheduleId;
use crate::types::Timestamp;
use crate::types::VestingSchedule;

verus! {

broadcast use vstd::std_specs::hash::group_hash_axioms;

/// The schedule ledger.  One instance owns the whole state; the host hands
/// each call the facts it read at its edge (caller, current time, attached
/// value) and performs the final value transfer itself.
pub struct Vesting {
    /// Auto-incrementing id for vesting schedules.
    id: ScheduleId,
    /// Schedule id to vesting details.
    schedules: HashMap<ScheduleId, VestingSchedule>,
    /// Beneficiary to the schedule ids it may claim.
    beneficiary_to_ids: HashMap<AccountId, Vec<ScheduleId>>,
}

impl View for Vesting {
    type V = LedgerView;

    closed spec fn view(&self) -> LedgerView {
        LedgerView {
            next_id: self.id,
            schedules: self.schedules@,
            claims: self.beneficiary_to_ids@.map_values(|ids: Vec<ScheduleId>| ids@),
        }
    }
}

impl Default for Vesting {
    /// An empty ledger: counter at zero, no schedules, no index entries.
    fn default() -> (r: Self)
        ensures
            r@.next_id == 0,
            r@.schedules == Map::<ScheduleId, VestingSchedule>::empty(),
            r@.claims == Map::<AccountId, Seq<ScheduleId>>::empty(),
            r@.wf(),
    {
        let r = Vesting {
            id: 0,
            schedules: HashMap::new(),
            beneficiary_to_ids: HashMap::new(),
        };
        proof {
            assert(r@.claims =~= Map::<AccountId, Seq<ScheduleId>>::empty());
        }
        r
    }
}

impl Vesting {
    /// Creates an empty ledger.
    pub fn new() -> (r: Self)
        ensures
            r@.next_id == 0,
            r@.schedules == Map::<ScheduleId, VestingSchedule>::empty(),
            r@.claims == Map::<AccountId, Seq<ScheduleId>>::empty(),
            r@.wf(),
    {
        Vesting::default()
    }

    /// The ids currently listed for `beneficiary`; an absent index entry
    /// reads as an empty list.
    pub fn schedule_ids_of(&self, beneficiary: AccountId) -> (r: Vec<ScheduleId>)
        ensures
            r@ == self@.claim_ids(beneficiary),
    {
        match self.beneficiary_to_ids.get(&beneficiary) {
            Some(ids) => {
                let r = ids.clone();
                proof {
                    assert forall|i: int| 0 <= i < ids@.len() implies r@[i] == ids@[i] by {
                        assert(cloned(ids@[i], r@[i]));
                    }
                    assert(r@ =~= ids@);
                }
                r
            },
            None => {
                let r: Vec<ScheduleId> = Vec::new();
                proof {
                    assert(r@ =~= Seq::<ScheduleId>::empty());
                }
                r
            },
        }
    }

    /// Creates a schedule holding `amount` for `beneficiary` until
    /// `unlock_time`.  `owner` is the caller of the host entry point and
    /// `amount` the value the host saw attached to the call; the value itself
    /// stays in the host's custody.
    ///
    /// Rejects a call with no attached value with [`Error::ZeroAmount`] and a
    /// call that would wrap the id counter with [`Error::IdOverflow`]; a
    /// rejected call changes nothing.
    pub fn deposit_fund(
        &mut self,
        owner: AccountId,
        beneficiary: AccountId,
        unlock_time: Timestamp,
        amount: Balance,
    ) -> (r: Result<(), Error>)
        requires
            old(self)@.wf(),
        ensures
            final(self)@.wf(),
            amount == 0 ==> r == Err::<(), Error>(Error::ZeroAmount) && final(self)@ == old(self)@,
            amount > 0 && old(self)@.next_id == u64::MAX ==> r == Err::<(), Error>(
                Error::IdOverflow,
            ) && final(self)@ == old(self)@,
            amount > 0 && old(self)@.next_id < u64::MAX ==> r == Ok::<(), Error>(())
                && final(self)@ == old(self)@.deposit_commit(owner, beneficiary, unlock_time, amount),
    {
        if amount == 0 {
            return Err(Error::ZeroAmount);
        }
        let id = self.id;
        let next = match id.checked_add(1) {
            Some(next) => next,
            None => {
                return Err(Error::IdOverflow);
            },
        };
        let mut ids = self.schedule_ids_of(beneficiary);
        ids.push(id);
        self.id = next;
        let schedule = VestingSchedule { owner, beneficiary, amount, unlock_time };
        self.schedules.insert(id, schedule);
        self.beneficiary_to_ids.insert(beneficiary, ids);
        proof {
            lemma_deposit_commit_wf(old(self)@, owner, beneficiary, unlock_time, amount);
            let w = old(self)@.deposit_commit(owner, beneficiary, unlock_time, amount);
            assert(self@.claims =~= w.claims);
            assert(self@ =~= w);
        }
        Ok(())
    }

    /// Settles `beneficiary`: pays out every listed schedule that is present
    /// and unlocked at `current_time`, all together as one aggregated total.
    ///
    /// `beneficiary` is the caller of the host entry point and `current_time`
    /// the time the host read at its edge.  On success the paid schedules are
    /// removed, the caller's index entry is rewritten to exactly the locked,
    /// still-present ids, and the total is returned for the host to transfer.
    /// If the aggregation would overflow, the whole call fails with
    /// [`Error::TransferFailed`] and changes nothing; if nothing is payable,
    /// it fails with [`Error::NoFundsAvailable`] and changes nothing.
    #[verifier::loop_isolation(false)]
    pub fn withdraw_fund(&mut self, beneficiary: AccountId, current_time: Timestamp) -> (r: Result<
        Balance,
        Error,
    >)
        requires
            old(self)@.wf(),
        ensures
            final(self)@.wf(),
            old(self)@.payable(beneficiary, current_time) > u128::MAX as int ==> r == Err::<
                Balance,
                Error,
            >(Error::TransferFailed) && final(self)@ == old(self)@,
            old(self)@.payable(beneficiary, current_time) == 0 ==> r == Err::<Balance, Error>(
                Error::NoFundsAvailable,
            ) && final(self)@ == old(self)@,
            0 < old(self)@.payable(beneficiary, current_time) <= u128::MAX as int ==> r == Ok::<
                Balance,
                Error,
            >(old(self)@.payable(beneficiary, current_time) as u128) && final(self)@ == old(
                self,
            )@.withdraw_commit(beneficiary, current_time),
    {
        let ids = self.schedule_ids_of(beneficiary);
        let ghost m = self@.schedules;
        let ghost idseq = ids@;
        let ghost n = idseq.len() as int;
        let mut total: Balance = 0;
        let mut unlocked_ids: Vec<ScheduleId> = Vec::new();
        let mut remaining_ids: Vec<ScheduleId> = Vec::new();
        let mut j: usize = 0;
        while j < ids.len()
            invariant
                j <= ids.len(),
                total as int == unlocked_sum_prefix(m, idseq, current_time, j as int),
                unlocked_ids@ == unlocked_prefix(m, idseq, current_time, j as int),
                remaining_ids@ == locked_prefix(m, idseq, current_time, j as int),
            decreases ids.len() - j,
        {
            let id = ids[j];
            match self.schedules.get(&id) {
                Some(schedule) => {
                    if schedule.unlock_time <= current_time {
                        total = match total.checked_add(schedule.amount) {
                            Some(t) => t,
                            None => {
                                proof {
                                    lemma_unlocked_sum_prefix_mono(
                                        m,
                                        idseq,
                                        current_time,
                                        j as int + 1,
                                        n,
                                    );
                                }
                                return Err(Error::TransferFailed);
                            },
                        };
                        unlocked_ids.push(id);
                    } else {
                        remaining_ids.push(id);
                    }
                },
                None => {},
            }
            j += 1;
        }
        if total == 0 {
            return Err(Error::NoFundsAvailable);
        }
        let ghost w = old(self)@.withdraw_commit(beneficiary, current_time);
        let mut k: usize = 0;
        while k < unlocked_ids.len()
            invariant
                k <= unlocked_ids.len(),
                self.id == old(self).id,
                self.beneficiary_to_ids == old(self).beneficiary_to_ids,
                self.schedules@ == m.remove_keys(unlocked_ids@.take(k as int).to_set()),
            decreases unlocked_ids.len() - k,
        {
            let id = unlocked_ids[k];
            self.schedules.remove(&id);
            proof {
                assert(unlocked_ids@.take(k as int + 1) =~= unlocked_ids@.take(k as int).push(id));
                unlocked_ids@.take(k as int).lemma_push_to_set_commute(id);
                assert(unlocked_ids@.take(k as int + 1).to_set() =~= unlocked_ids@.take(
                    k as int,
                ).to_set().insert(id));
                assert(self.schedules@ =~= m.remove_keys(
                    unlocked_ids@.take(k as int + 1).to_set(),
                ));
            }
            k += 1;
        }
        proof {
            assert(unlocked_ids@.take(unlocked_ids@.len() as int) =~= unlocked_ids@);
        }
        self.beneficiary_to_ids.insert(beneficiary, remaining_ids);
        proof {
            lemma_withdraw_commit_wf(old(self)@, beneficiary, current_time);
            assert(self@.claims =~= w.claims);
            assert(self@ =~= w);
        }
        Ok(total)
    }

    /// The id the next successful deposit will receive.
    pub fn next_id(&self) -> (r: ScheduleId)
        ensures
            r == self@.next_id,
    {
        self.id
    }

    /// Overwrites the id counter, leaving schedules and index untouched.
    ///
    /// The ledger is well-formed again whenever every stored id lies below
    /// the new counter value; on an empty ledger any value will do.
    pub fn set_next_id(&mut self, v: ScheduleId)
        ensures
            final(self)@.next_id == v,
            final(self)@.schedules == old(self)@.schedules,
            final(self)@.claims == old(self)@.claims,
            old(self)@.wf() && (forall|i: ScheduleId| #[trigger]
                old(self)@.schedules.dom().contains(i) ==> i < v) ==> final(self)@.wf(),
    {
        self.id = v;
    }

    /// Looks up the schedule stored under `id`, if it is still pending
    /// withdrawal.
    pub fn get_schedule(&self, id: ScheduleId) -> (r: Option<VestingSchedule>)
        ensures
            match r {
                Some(s) => self@.schedules.dom().contains(id) && s == self@.schedules[id],
                None => !self@.schedules.dom().contains(id),
            },
    {
        match self.schedules.get(&id) {
            Some(s) => Some(*s),
            None => None,
        }
    }
}

} // verus!

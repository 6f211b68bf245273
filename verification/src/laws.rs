//! Laws of the ledger: properties relating several operations, stated over
//! the model and proved once and for all.
//!
//! Each law speaks about the commits named in the entry points' contracts
//! ([`LedgerView::deposit_commit`], [`LedgerView::withdraw_commit`]), so
//! together with those contracts it describes every run of the executable
//! ledger.

use vstd::prelude::*;

use crate::model::LedgerView;
use crate::model::entry_listed_ok;
use crate::model::entry_locked;
use crate::model::entry_unlocked;
use crate::model::lemma_all_locked_payable_zero;
use crate::model::lemma_deposit_commit_wf;
use crate::model::lemma_locked_prefix_membership;
use crate::model::lemma_next_id_fresh;
use crate::model::lemma_unlocked_sum_prefix_agree;
use crate::model::locked_prefix;
use crate::model::unlocked_prefix;
use crate::model::unlocked_sum_prefix;
use crate::types::AccountId;
use crate::types::Balance;
use crate::types::ScheduleId;
use crate::types::Timestamp;
use crate::types::VestingSchedule;

verus! {

/// A successful deposit is visible to a subsequent lookup: the issued id is
/// listed for the beneficiary, the stored record carries exactly the
/// deposited amount, unlock time and owner, and the id counter advances by
/// exactly one.
pub proof fn lemma_deposit_records_schedule(
    v: LedgerView,
    owner: AccountId,
    beneficiary: AccountId,
    unlock_time: Timestamp,
    amount: Balance,
)
    requires
        v.wf(),
        amount > 0,
        v.next_id < ScheduleId::MAX,
    ensures
        ({
            let w = v.deposit_commit(owner, beneficiary, unlock_time, amount);
            &&& w.next_id == v.next_id + 1
            &&& w.claim_ids(beneficiary).contains(v.next_id)
            &&& w.schedules.dom().contains(v.next_id)
            &&& w.schedules[v.next_id] == (VestingSchedule {
                owner,
                beneficiary,
                amount,
                unlock_time,
            })
        }),
{
    let w = v.deposit_commit(owner, beneficiary, unlock_time, amount);
    let l = v.claim_ids(beneficiary);
    assert(w.claim_ids(beneficiary)[l.len() as int] == v.next_id);
}

/// An overflow rejection corrupts nothing: the same ledger, with its counter
/// reset above every stored id, is well-formed again, and a further deposit
/// commits cleanly from it.
pub proof fn lemma_reset_after_overflow(
    v: LedgerView,
    reset: ScheduleId,
    owner: AccountId,
    beneficiary: AccountId,
    unlock_time: Timestamp,
    amount: Balance,
)
    requires
        v.wf(),
        reset < ScheduleId::MAX,
        forall|i: ScheduleId| #[trigger] v.schedules.dom().contains(i) ==> i < reset,
        amount > 0,
    ensures
        ({
            let u = LedgerView { next_id: reset, schedules: v.schedules, claims: v.claims };
            &&& u.wf()
            &&& u.deposit_commit(owner, beneficiary, unlock_time, amount).wf()
        }),
{
    let u = LedgerView { next_id: reset, schedules: v.schedules, claims: v.claims };
    assert forall|b: AccountId, k: int|
        u.claims.dom().contains(b) && 0 <= k < u.claims[b].len()
            implies entry_listed_ok(u, b, #[trigger] u.claims[b][k]) by {
        assert(entry_listed_ok(v, b, v.claims[b][k]));
    }
    lemma_deposit_commit_wf(u, owner, beneficiary, unlock_time, amount);
}

/// Before any listed schedule unlocks, nothing is payable: a withdrawal at
/// such a time is rejected and, by the entry point's contract, mutates
/// nothing.
pub proof fn lemma_nothing_payable_while_locked(v: LedgerView, b: AccountId, now: Timestamp)
    requires
        v.wf(),
        forall|k: int|
            0 <= k < v.claim_ids(b).len() ==> v.schedules[#[trigger] v.claim_ids(b)[k]].unlock_time
                > now,
    ensures
        v.payable(b, now) == 0,
{
    let ids = v.claim_ids(b);
    assert forall|j: int|
        0 <= j < ids.len() implies !entry_unlocked(v.schedules, #[trigger] ids[j], now) by {
        assert(v.schedules[ids[j]].unlock_time > now);
    }
    lemma_all_locked_payable_zero(v.schedules, ids, now, ids.len() as int);
}

/// With two schedules of which only the earlier has unlocked, a withdrawal
/// pays exactly the earlier amount; the later schedule stays present and
/// listed, and once its own unlock time has passed a second withdrawal pays
/// exactly the later amount.
pub proof fn lemma_two_schedules_settle_in_turn(
    v: LedgerView,
    b: AccountId,
    first: ScheduleId,
    second: ScheduleId,
    now: Timestamp,
)
    requires
        v.wf(),
        v.claim_ids(b) =~= seq![first, second],
        v.schedules[first].unlock_time <= now,
        v.schedules[second].unlock_time > now,
    ensures
        v.payable(b, now) == v.schedules[first].amount,
        ({
            let w = v.withdraw_commit(b, now);
            &&& w.claim_ids(b) =~= seq![second]
            &&& w.schedules.dom().contains(second)
            &&& w.schedules[second] == v.schedules[second]
            &&& forall|later: Timestamp|
                v.schedules[second].unlock_time <= later ==> #[trigger] w.payable(b, later)
                    == v.schedules[second].amount
        }),
{
    let ids = v.claim_ids(b);
    let m = v.schedules;
    assert(ids.len() == 2);
    assert(ids[0] == first);
    assert(ids[1] == second);
    assert(v.claims.dom().contains(b));
    assert(entry_listed_ok(v, b, ids[0]));
    assert(entry_listed_ok(v, b, ids[1]));
    assert(first != second);

    assert(unlocked_sum_prefix(m, ids, now, 0) == 0);
    assert(unlocked_sum_prefix(m, ids, now, 1) == m[first].amount as int);
    assert(unlocked_sum_prefix(m, ids, now, 2) == m[first].amount as int);

    assert(unlocked_prefix(m, ids, now, 0) == Seq::<ScheduleId>::empty());
    assert(unlocked_prefix(m, ids, now, 1) =~= seq![first]);
    assert(unlocked_prefix(m, ids, now, 2) =~= seq![first]);
    assert(locked_prefix(m, ids, now, 0) == Seq::<ScheduleId>::empty());
    assert(locked_prefix(m, ids, now, 1) =~= Seq::<ScheduleId>::empty());
    assert(locked_prefix(m, ids, now, 2) =~= seq![second]);

    let w = v.withdraw_commit(b, now);
    assert(seq![first][0] == first);
    assert(seq![first].contains(first));
    assert(!seq![first].contains(second)) by {
        if seq![first].contains(second) {
            let j = choose|j: int| 0 <= j < seq![first].len() && seq![first][j] == second;
            assert(seq![first][j] == first);
        }
    }
    assert(!seq![first].to_set().contains(second));
    assert(w.schedules.dom().contains(second));

    assert forall|later: Timestamp|
        v.schedules[second].unlock_time <= later implies #[trigger] w.payable(b, later)
        == v.schedules[second].amount by {
        let wids = w.claim_ids(b);
        assert(wids =~= seq![second]);
        assert(entry_unlocked(w.schedules, second, later));
        assert(unlocked_sum_prefix(w.schedules, wids, later, 0) == 0);
        assert(unlocked_sum_prefix(w.schedules, wids, later, 1) == w.schedules[second].amount
            as int);
    }
}

/// Withdrawing is idempotent: after a withdrawal at time `now`, a repeated
/// call at any time `later` by which no remaining schedule has newly
/// unlocked finds nothing payable and, by the entry point's contract,
/// mutates nothing.  In particular this holds for `later == now`.
pub proof fn lemma_withdraw_idempotent(
    v: LedgerView,
    b: AccountId,
    now: Timestamp,
    later: Timestamp,
)
    requires
        v.wf(),
        forall|i: ScheduleId| #[trigger]
            v.schedules.dom().contains(i) && v.schedules[i].unlock_time > now
                ==> v.schedules[i].unlock_time > later,
    ensures
        v.withdraw_commit(b, now).payable(b, later) == 0,
{
    let w = v.withdraw_commit(b, now);
    let ids = v.claim_ids(b);
    let n = ids.len() as int;
    let wids = w.claim_ids(b);
    lemma_locked_prefix_membership(v.schedules, ids, now, n);
    assert forall|j: int|
        0 <= j < wids.len() implies !entry_unlocked(w.schedules, #[trigger] wids[j], later) by {
        let x = wids[j];
        assert(locked_prefix(v.schedules, ids, now, n).contains(x));
        assert(entry_locked(v.schedules, x, now));
        if w.schedules.dom().contains(x) {
            assert(w.schedules[x] == v.schedules[x]);
        }
    }
    lemma_all_locked_payable_zero(w.schedules, wids, later, wids.len() as int);
}

/// Beneficiaries never cross-contaminate: a deposit for one account leaves
/// every other account's claim list and payable total unchanged, at every
/// time.
pub proof fn lemma_deposit_isolated(
    v: LedgerView,
    owner: AccountId,
    to: AccountId,
    other: AccountId,
    unlock_time: Timestamp,
    amount: Balance,
)
    requires
        v.wf(),
        amount > 0,
        v.next_id < ScheduleId::MAX,
        other != to,
    ensures
        ({
            let w = v.deposit_commit(owner, to, unlock_time, amount);
            &&& w.claim_ids(other) == v.claim_ids(other)
            &&& forall|now: Timestamp| #[trigger]
                w.payable(other, now) == v.payable(other, now)
        }),
{
    let w = v.deposit_commit(owner, to, unlock_time, amount);
    let ids = v.claim_ids(other);
    lemma_next_id_fresh(v);
    assert forall|j: int|
        0 <= j < ids.len() implies {
        &&& (v.schedules.dom().contains(#[trigger] ids[j]) <==> w.schedules.dom().contains(
            ids[j],
        ))
        &&& (v.schedules.dom().contains(ids[j]) ==> v.schedules[ids[j]] == w.schedules[ids[j]])
    } by {
        assert(v.claims.dom().contains(other));
        assert(entry_listed_ok(v, other, ids[j]));
        assert(ids[j] != v.next_id);
    }
    assert forall|now: Timestamp| #[trigger]
        w.payable(other, now) == v.payable(other, now) by {
        lemma_unlocked_sum_prefix_agree(v.schedules, w.schedules, ids, now, ids.len() as int);
    }
}

} // verus!

//! Mathematical model of the ledger.
//!
//! [`LedgerView`] is the abstraction of the executable ledger: the id counter,
//! the authoritative schedule store as a `Map`, and the beneficiary index as a
//! `Map` of id sequences.  The entry points' contracts are stated over this
//! model, and the lemmas here prove that both commits preserve the ledger's
//! well-formedness.

use vstd::prelude::*;

use crate::types::AccountId;
use crate::types::Balance;
use crate::types::ScheduleId;
use crate::types::Timestamp;
use crate::types::VestingSchedule;

verus! {

/// Abstract state of the ledger.
#[verifier::ext_equal]
pub ghost struct LedgerView {
    /// Next schedule id to allocate; incremented once per successful deposit.
    pub next_id: ScheduleId,
    /// Authoritative store: an id is present here exactly while its schedule
    /// is still pending withdrawal.
    pub schedules: Map<ScheduleId, VestingSchedule>,
    /// Secondary index: the ids each beneficiary may claim.
    pub claims: Map<AccountId, Seq<ScheduleId>>,
}

/// The schedule `i` is present and may be paid out at time `now`.  A schedule
/// unlocking exactly at `now` is payable.
pub open spec fn entry_unlocked(
    schedules: Map<ScheduleId, VestingSchedule>,
    i: ScheduleId,
    now: Timestamp,
) -> bool {
    schedules.dom().contains(i) && schedules[i].unlock_time <= now
}

/// The schedule `i` is present but still locked at time `now`.
pub open spec fn entry_locked(
    schedules: Map<ScheduleId, VestingSchedule>,
    i: ScheduleId,
    now: Timestamp,
) -> bool {
    schedules.dom().contains(i) && schedules[i].unlock_time > now
}

/// Sum of the amounts of the unlocked schedules among the first `k` listed
/// ids.  Ids that are absent from the store contribute nothing.
pub open spec fn unlocked_sum_prefix(
    schedules: Map<ScheduleId, VestingSchedule>,
    ids: Seq<ScheduleId>,
    now: Timestamp,
    k: int,
) -> int
    decreases k,
{
    if k <= 0 {
        0
    } else {
        unlocked_sum_prefix(schedules, ids, now, k - 1) + if entry_unlocked(
            schedules,
            ids[k - 1],
            now,
        ) {
            schedules[ids[k - 1]].amount as int
        } else {
            0
        }
    }
}

/// The unlocked schedules among the first `k` listed ids, in list order.
pub open spec fn unlocked_prefix(
    schedules: Map<ScheduleId, VestingSchedule>,
    ids: Seq<ScheduleId>,
    now: Timestamp,
    k: int,
) -> Seq<ScheduleId>
    decreases k,
{
    if k <= 0 {
        Seq::empty()
    } else {
        let rest = unlocked_prefix(schedules, ids, now, k - 1);
        if entry_unlocked(schedules, ids[k - 1], now) {
            rest.push(ids[k - 1])
        } else {
            rest
        }
    }
}

/// The present-but-locked schedules among the first `k` listed ids, in list
/// order.  Listed ids that are absent from the store are dropped here too.
pub open spec fn locked_prefix(
    schedules: Map<ScheduleId, VestingSchedule>,
    ids: Seq<ScheduleId>,
    now: Timestamp,
    k: int,
) -> Seq<ScheduleId>
    decreases k,
{
    if k <= 0 {
        Seq::empty()
    } else {
        let rest = locked_prefix(schedules, ids, now, k - 1);
        if entry_locked(schedules, ids[k - 1], now) {
            rest.push(ids[k - 1])
        } else {
            rest
        }
    }
}

impl LedgerView {
    /// The ids listed for beneficiary `b`; an absent index entry reads as the
    /// empty list.
    pub open spec fn claim_ids(self, b: AccountId) -> Seq<ScheduleId> {
        if self.claims.dom().contains(b) {
            self.claims[b]
        } else {
            Seq::empty()
        }
    }

    /// Total value withdrawable by `b` at time `now`: the sum of the amounts
    /// of its listed, present, unlocked schedules.
    pub open spec fn payable(self, b: AccountId, now: Timestamp) -> int {
        unlocked_sum_prefix(self.schedules, self.claim_ids(b), now, self.claim_ids(b).len() as int)
    }

    /// Well-formedness, maintained between calls:
    /// every stored id was issued (is below the counter); every listed id is
    /// present, belongs to that beneficiary, and is listed once; every stored
    /// schedule is listed under its beneficiary; amounts are strictly
    /// positive.
    pub open spec fn wf(self) -> bool {
        &&& forall|i: ScheduleId| #[trigger]
            self.schedules.dom().contains(i) ==> i < self.next_id
        &&& forall|b: AccountId, k: int|
            self.claims.dom().contains(b) && 0 <= k < self.claims[b].len()
                ==> entry_listed_ok(self, b, #[trigger] self.claims[b][k])
        &&& forall|i: ScheduleId| #[trigger]
            self.schedules.dom().contains(i) ==> {
                &&& self.claims.dom().contains(self.schedules[i].beneficiary)
                &&& self.claims[self.schedules[i].beneficiary].contains(i)
            }
        &&& forall|b: AccountId, j: int, k: int|
            self.claims.dom().contains(b) && 0 <= j < k < self.claims[b].len()
                ==> #[trigger] self.claims[b][j] != #[trigger] self.claims[b][k]
        &&& forall|i: ScheduleId| #[trigger]
            self.schedules.dom().contains(i) ==> self.schedules[i].amount > 0
    }

    /// State after a successful deposit: the counter advances, the new record
    /// is stored under the issued id, and that id is appended to the
    /// beneficiary's list.
    pub open spec fn deposit_commit(
        self,
        owner: AccountId,
        beneficiary: AccountId,
        unlock_time: Timestamp,
        amount: Balance,
    ) -> LedgerView {
        LedgerView {
            next_id: (self.next_id + 1) as ScheduleId,
            schedules: self.schedules.insert(
                self.next_id,
                VestingSchedule { owner, beneficiary, amount, unlock_time },
            ),
            claims: self.claims.insert(beneficiary, self.claim_ids(beneficiary).push(self.next_id)),
        }
    }

    /// State after a successful withdrawal by `b` at time `now`: the unlocked
    /// schedules leave the store and `b`'s list is rewritten to exactly the
    /// locked, still-present ids.
    pub open spec fn withdraw_commit(self, b: AccountId, now: Timestamp) -> LedgerView {
        let ids = self.claim_ids(b);
        LedgerView {
            next_id: self.next_id,
            schedules: self.schedules.remove_keys(
                unlocked_prefix(self.schedules, ids, now, ids.len() as int).to_set(),
            ),
            claims: self.claims.insert(
                b,
                locked_prefix(self.schedules, ids, now, ids.len() as int),
            ),
        }
    }
}

/// The listed id `i` refers to a present schedule of beneficiary `b`.
pub open spec fn entry_listed_ok(v: LedgerView, b: AccountId, i: ScheduleId) -> bool {
    &&& v.schedules.dom().contains(i)
    &&& v.schedules[i].beneficiary == b
}

/// In a well-formed ledger the id about to be issued is fresh: it is neither
/// stored nor listed under any beneficiary.
pub proof fn lemma_next_id_fresh(v: LedgerView)
    requires
        v.wf(),
    ensures
        !v.schedules.dom().contains(v.next_id),
        forall|b: AccountId, k: int|
            v.claims.dom().contains(b) && 0 <= k < v.claims[b].len()
                ==> #[trigger] v.claims[b][k] != v.next_id,
{
    assert forall|b: AccountId, k: int|
        v.claims.dom().contains(b) && 0 <= k < v.claims[b].len()
            implies #[trigger] v.claims[b][k] != v.next_id by {
        assert(entry_listed_ok(v, b, v.claims[b][k]));
    }
}

/// Unlocked amounts are non-negative, so the running sum only grows with the
/// prefix length.
pub proof fn lemma_unlocked_sum_prefix_mono(
    schedules: Map<ScheduleId, VestingSchedule>,
    ids: Seq<ScheduleId>,
    now: Timestamp,
    k1: int,
    k2: int,
)
    requires
        0 <= k1 <= k2,
    ensures
        unlocked_sum_prefix(schedules, ids, now, k1) <= unlocked_sum_prefix(
            schedules,
            ids,
            now,
            k2,
        ),
    decreases k2 - k1,
{
    if k1 < k2 {
        lemma_unlocked_sum_prefix_mono(schedules, ids, now, k1, k2 - 1);
    }
}

/// An id stands in the unlocked prefix exactly when it stands in the first
/// `k` listed ids and its schedule is present and unlocked.
pub proof fn lemma_unlocked_prefix_membership(
    schedules: Map<ScheduleId, VestingSchedule>,
    ids: Seq<ScheduleId>,
    now: Timestamp,
    k: int,
)
    requires
        0 <= k <= ids.len(),
    ensures
        forall|x: ScheduleId| #[trigger]
            unlocked_prefix(schedules, ids, now, k).contains(x) ==> entry_unlocked(
                schedules,
                x,
                now,
            ) && exists|j: int| 0 <= j < k && ids[j] == x,
        forall|j: int|
            0 <= j < k && entry_unlocked(schedules, #[trigger] ids[j], now) ==> unlocked_prefix(
                schedules,
                ids,
                now,
                k,
            ).contains(ids[j]),
    decreases k,
{
    if k > 0 {
        lemma_unlocked_prefix_membership(schedules, ids, now, k - 1);
        let prev = unlocked_prefix(schedules, ids, now, k - 1);
        let cur = unlocked_prefix(schedules, ids, now, k);
        assert forall|x: ScheduleId| #[trigger]
            cur.contains(x) implies entry_unlocked(schedules, x, now) && exists|j: int|
            0 <= j < k && ids[j] == x by {
            if entry_unlocked(schedules, ids[k - 1], now) && x == ids[k - 1] {
                assert(ids[k - 1] == x);
            } else {
                let p = choose|p: int| 0 <= p < cur.len() && cur[p] == x;
                assert(prev[p] == x);
                assert(prev.contains(x));
            }
        }
        assert forall|j: int|
            0 <= j < k && entry_unlocked(schedules, #[trigger] ids[j], now) implies cur.contains(
            ids[j],
        ) by {
            if j == k - 1 {
                assert(cur[cur.len() - 1] == ids[j]);
            } else {
                assert(prev.contains(ids[j]));
                let p = choose|p: int| 0 <= p < prev.len() && prev[p] == ids[j];
                assert(cur[p] == ids[j]);
            }
        }
    }
}

/// An id stands in the locked prefix exactly when it stands in the first `k`
/// listed ids and its schedule is present and locked.
pub proof fn lemma_locked_prefix_membership(
    schedules: Map<ScheduleId, VestingSchedule>,
    ids: Seq<ScheduleId>,
    now: Timestamp,
    k: int,
)
    requires
        0 <= k <= ids.len(),
    ensures
        forall|x: ScheduleId| #[trigger]
            locked_prefix(schedules, ids, now, k).contains(x) ==> entry_locked(schedules, x, now)
                && exists|j: int| 0 <= j < k && ids[j] == x,
        forall|j: int|
            0 <= j < k && entry_locked(schedules, #[trigger] ids[j], now) ==> locked_prefix(
                schedules,
                ids,
                now,
                k,
            ).contains(ids[j]),
    decreases k,
{
    if k > 0 {
        lemma_locked_prefix_membership(schedules, ids, now, k - 1);
        let prev = locked_prefix(schedules, ids, now, k - 1);
        let cur = locked_prefix(schedules, ids, now, k);
        assert forall|x: ScheduleId| #[trigger]
            cur.contains(x) implies entry_locked(schedules, x, now) && exists|j: int|
            0 <= j < k && ids[j] == x by {
            if entry_locked(schedules, ids[k - 1], now) && x == ids[k - 1] {
                assert(ids[k - 1] == x);
            } else {
                let p = choose|p: int| 0 <= p < cur.len() && cur[p] == x;
                assert(prev[p] == x);
                assert(prev.contains(x));
            }
        }
        assert forall|j: int|
            0 <= j < k && entry_locked(schedules, #[trigger] ids[j], now) implies cur.contains(
            ids[j],
        ) by {
            if j == k - 1 {
                assert(cur[cur.len() - 1] == ids[j]);
            } else {
                assert(prev.contains(ids[j]));
                let p = choose|p: int| 0 <= p < prev.len() && prev[p] == ids[j];
                assert(cur[p] == ids[j]);
            }
        }
    }
}

/// Filtering a duplicate-free list keeps it duplicate-free.
pub proof fn lemma_locked_prefix_distinct(
    schedules: Map<ScheduleId, VestingSchedule>,
    ids: Seq<ScheduleId>,
    now: Timestamp,
    k: int,
)
    requires
        0 <= k <= ids.len(),
        forall|p: int, q: int| 0 <= p < q < ids.len() ==> ids[p] != ids[q],
    ensures
        forall|p: int, q: int|
            0 <= p < q < locked_prefix(schedules, ids, now, k).len()
                ==> locked_prefix(schedules, ids, now, k)[p] != locked_prefix(
                schedules,
                ids,
                now,
                k,
            )[q],
    decreases k,
{
    if k > 0 {
        lemma_locked_prefix_distinct(schedules, ids, now, k - 1);
        lemma_locked_prefix_membership(schedules, ids, now, k - 1);
        let prev = locked_prefix(schedules, ids, now, k - 1);
        let cur = locked_prefix(schedules, ids, now, k);
        assert forall|p: int, q: int| 0 <= p < q < cur.len() implies cur[p] != cur[q] by {
            if entry_locked(schedules, ids[k - 1], now) && q == cur.len() - 1 {
                assert(cur[p] == prev[p]);
                assert(prev.contains(prev[p]));
                let j = choose|j: int| 0 <= j < k - 1 && ids[j] == prev[p];
                assert(ids[j] != ids[k - 1]);
            }
        }
    }
}

/// Two stores that agree on every listed id yield the same payable sum.
pub proof fn lemma_unlocked_sum_prefix_agree(
    m1: Map<ScheduleId, VestingSchedule>,
    m2: Map<ScheduleId, VestingSchedule>,
    ids: Seq<ScheduleId>,
    now: Timestamp,
    k: int,
)
    requires
        0 <= k <= ids.len(),
        forall|j: int|
            0 <= j < ids.len() ==> {
                &&& (m1.dom().contains(#[trigger] ids[j]) <==> m2.dom().contains(ids[j]))
                &&& (m1.dom().contains(ids[j]) ==> m1[ids[j]] == m2[ids[j]])
            },
    ensures
        unlocked_sum_prefix(m1, ids, now, k) == unlocked_sum_prefix(m2, ids, now, k),
    decreases k,
{
    if k > 0 {
        lemma_unlocked_sum_prefix_agree(m1, m2, ids, now, k - 1);
    }
}

/// If none of the listed schedules is unlocked, nothing is payable.
pub proof fn lemma_all_locked_payable_zero(
    schedules: Map<ScheduleId, VestingSchedule>,
    ids: Seq<ScheduleId>,
    now: Timestamp,
    k: int,
)
    requires
        0 <= k <= ids.len(),
        forall|j: int| 0 <= j < ids.len() ==> !entry_unlocked(schedules, #[trigger] ids[j], now),
    ensures
        unlocked_sum_prefix(schedules, ids, now, k) == 0,
    decreases k,
{
    if k > 0 {
        lemma_all_locked_payable_zero(schedules, ids, now, k - 1);
    }
}

/// A successful withdrawal preserves well-formedness.
pub proof fn lemma_withdraw_commit_wf(v: LedgerView, b: AccountId, now: Timestamp)
    requires
        v.wf(),
    ensures
        v.withdraw_commit(b, now).wf(),
{
    let w = v.withdraw_commit(b, now);
    let ids = v.claim_ids(b);
    let n = ids.len() as int;
    let unlocked = unlocked_prefix(v.schedules, ids, now, n);
    let locked = locked_prefix(v.schedules, ids, now, n);
    lemma_unlocked_prefix_membership(v.schedules, ids, now, n);
    lemma_locked_prefix_membership(v.schedules, ids, now, n);
    assert forall|p: int, q: int| 0 <= p < q < ids.len() implies ids[p] != ids[q] by {
        assert(v.claims.dom().contains(b));
    }
    lemma_locked_prefix_distinct(v.schedules, ids, now, n);

    // every listed id of b names a present schedule of b
    assert forall|j: int| 0 <= j < n implies entry_listed_ok(v, b, #[trigger] ids[j]) by {
        assert(v.claims.dom().contains(b));
    }

    // no id removed by the withdrawal belongs to another beneficiary
    assert forall|x: ScheduleId| #[trigger]
        unlocked.contains(x) implies entry_listed_ok(v, b, x) by {
        let j = choose|j: int| 0 <= j < n && ids[j] == x;
        assert(entry_listed_ok(v, b, ids[j]));
    }

    // issued ids stay below the counter
    assert forall|i: ScheduleId| #[trigger]
        w.schedules.dom().contains(i) implies i < w.next_id by {
        assert(v.schedules.dom().contains(i));
    }

    // every listed id is present and belongs to its beneficiary
    assert forall|b2: AccountId, k: int|
        w.claims.dom().contains(b2) && 0 <= k < w.claims[b2].len()
            implies entry_listed_ok(w, b2, #[trigger] w.claims[b2][k]) by {
        let x = w.claims[b2][k];
        if b2 == b {
            assert(locked.contains(x));
            assert(entry_locked(v.schedules, x, now));
            assert(!unlocked.contains(x));
        } else {
            assert(entry_listed_ok(v, b2, v.claims[b2][k]));
            assert(!unlocked.contains(x));
        }
        assert(w.schedules.dom().contains(x));
    }

    // every remaining schedule is listed under its beneficiary
    assert forall|i: ScheduleId| #[trigger]
        w.schedules.dom().contains(i) implies {
        &&& w.claims.dom().contains(w.schedules[i].beneficiary)
        &&& w.claims[w.schedules[i].beneficiary].contains(i)
    } by {
        assert(v.schedules.dom().contains(i));
        let owner_b = v.schedules[i].beneficiary;
        assert(v.claims[owner_b].contains(i));
        if owner_b == b {
            let j = choose|j: int| 0 <= j < ids.len() && ids[j] == i;
            assert(!unlocked.contains(i));
            assert(!entry_unlocked(v.schedules, ids[j], now));
            assert(entry_locked(v.schedules, ids[j], now));
            assert(locked.contains(ids[j]));
        }
    }

    // each id is listed at most once
    assert forall|b2: AccountId, j: int, k: int|
        w.claims.dom().contains(b2) && 0 <= j < k < w.claims[b2].len()
            implies #[trigger] w.claims[b2][j] != #[trigger] w.claims[b2][k] by {
        if b2 != b {
            assert(v.claims[b2][j] != v.claims[b2][k]);
        }
    }

    // amounts stay strictly positive
    assert forall|i: ScheduleId| #[trigger]
        w.schedules.dom().contains(i) implies w.schedules[i].amount > 0 by {
        assert(v.schedules.dom().contains(i));
    }
}

/// A successful deposit preserves well-formedness.
pub proof fn lemma_deposit_commit_wf(
    v: LedgerView,
    owner: AccountId,
    beneficiary: AccountId,
    unlock_time: Timestamp,
    amount: Balance,
)
    requires
        v.wf(),
        amount > 0,
        v.next_id < ScheduleId::MAX,
    ensures
        v.deposit_commit(owner, beneficiary, unlock_time, amount).wf(),
{
    let w = v.deposit_commit(owner, beneficiary, unlock_time, amount);
    let id = v.next_id;
    let l = v.claim_ids(beneficiary);
    lemma_next_id_fresh(v);

    // issued ids stay below the counter
    assert forall|i: ScheduleId| #[trigger]
        w.schedules.dom().contains(i) implies i < w.next_id by {
        if i != id {
            assert(v.schedules.dom().contains(i));
        }
    }

    // every listed id is present and belongs to its beneficiary
    assert forall|b: AccountId, k: int|
        w.claims.dom().contains(b) && 0 <= k < w.claims[b].len()
            implies entry_listed_ok(w, b, #[trigger] w.claims[b][k]) by {
        if b == beneficiary && k == l.len() {
            assert(w.claims[b][k] == id);
        } else {
            assert(w.claims[b][k] == v.claims[b][k]);
            assert(entry_listed_ok(v, b, v.claims[b][k]));
            assert(v.claims[b][k] != id);
        }
    }

    // every stored schedule is listed under its beneficiary
    assert forall|i: ScheduleId| #[trigger]
        w.schedules.dom().contains(i) implies {
        &&& w.claims.dom().contains(w.schedules[i].beneficiary)
        &&& w.claims[w.schedules[i].beneficiary].contains(i)
    } by {
        if i == id {
            assert(w.claims[beneficiary][l.len() as int] == id);
        } else {
            assert(v.schedules.dom().contains(i));
            let owner_b = v.schedules[i].beneficiary;
            let j = choose|j: int| 0 <= j < v.claims[owner_b].len() && v.claims[owner_b][j] == i;
            if owner_b == beneficiary {
                assert(w.claims[owner_b][j] == i);
            } else {
                assert(w.claims[owner_b][j] == i);
            }
        }
    }

    // amounts stay strictly positive
    assert forall|i: ScheduleId| #[trigger]
        w.schedules.dom().contains(i) implies w.schedules[i].amount > 0 by {
        if i != id {
            assert(v.schedules.dom().contains(i));
        }
    }

    // each id is listed at most once
    assert forall|b: AccountId, j: int, k: int|
        w.claims.dom().contains(b) && 0 <= j < k < w.claims[b].len()
            implies #[trigger] w.claims[b][j] != #[trigger] w.claims[b][k] by {
        if b == beneficiary && k == l.len() {
            assert(w.claims[b][j] == v.claims[b][j]);
            assert(w.claims[b][k] == id);
        }
    }
}

} // verus!

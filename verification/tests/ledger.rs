//! End-to-end tests of the schedule ledger through its public interface.

use vesting::Error;
use vesting::Vesting;

const ALICE: vesting::AccountId = 1;
const BOB: vesting::AccountId = 2;
const CHARLIE: vesting::AccountId = 3;

#[test]
fn test_id_overflow() {
    let unlocktime: vesting::Timestamp = 242208000;
    let mut vesting = Vesting::new();
    vesting.set_next_id(u64::MAX);

    let result = vesting.deposit_fund(ALICE, BOB, unlocktime, 100);

    assert_eq!(result, Err(Error::IdOverflow));
}

#[test]
fn successful_withdrawal_after_unlock() {
    let unlock_time_1: vesting::Timestamp = 1820044800;
    let unlock_time_2: vesting::Timestamp = 1851580800;
    let unlock_time_3: vesting::Timestamp = 1883116800;
    let amount_1: vesting::Balance = 100;
    let amount_2: vesting::Balance = 200;
    let amount_3: vesting::Balance = 300;
    let total_amount: vesting::Balance = amount_1 + amount_2 + amount_3;

    let mut contract = Vesting::new();

    assert_eq!(contract.deposit_fund(ALICE, BOB, unlock_time_1, amount_1), Ok(()));
    assert_eq!(contract.deposit_fund(ALICE, BOB, unlock_time_2, amount_2), Ok(()));
    assert_eq!(contract.deposit_fund(ALICE, BOB, unlock_time_3, amount_3), Ok(()));

    // after every unlock time has passed, one aggregated payout settles all
    let result = contract.withdraw_fund(BOB, unlock_time_3 + 1);
    assert_eq!(result, Ok(total_amount));
    assert_eq!(contract.schedule_ids_of(BOB).len(), 0);
}

#[test]
fn deposit_is_visible_to_lookup() {
    let mut ledger = Vesting::new();
    let before = ledger.next_id();

    assert_eq!(ledger.deposit_fund(ALICE, BOB, 500, 42), Ok(()));

    // the counter advanced by exactly one
    assert_eq!(ledger.next_id(), before + 1);

    // the beneficiary's list holds the issued id, and the stored record
    // carries exactly the deposited amount and unlock time
    let ids = ledger.schedule_ids_of(BOB);
    assert_eq!(ids, vec![before]);
    let schedule = ledger.get_schedule(before).expect("schedule must be stored");
    assert_eq!(schedule.owner, ALICE);
    assert_eq!(schedule.beneficiary, BOB);
    assert_eq!(schedule.amount, 42);
    assert_eq!(schedule.unlock_time, 500);
}

#[test]
fn zero_deposit_is_rejected() {
    let mut ledger = Vesting::new();

    assert_eq!(ledger.deposit_fund(ALICE, BOB, 500, 0), Err(Error::ZeroAmount));

    assert_eq!(ledger.next_id(), 0);
    assert_eq!(ledger.schedule_ids_of(BOB).len(), 0);
}

#[test]
fn overflow_then_reset_succeeds() {
    let mut ledger = Vesting::new();
    ledger.set_next_id(u64::MAX);

    assert_eq!(ledger.deposit_fund(ALICE, BOB, 500, 42), Err(Error::IdOverflow));

    // the rejected deposit consumed no id and stored nothing
    assert_eq!(ledger.next_id(), u64::MAX);
    assert_eq!(ledger.schedule_ids_of(BOB).len(), 0);

    // after resetting the counter the same deposit goes through
    ledger.set_next_id(0);
    assert_eq!(ledger.deposit_fund(ALICE, BOB, 500, 42), Ok(()));
    assert_eq!(ledger.next_id(), 1);
    assert_eq!(ledger.schedule_ids_of(BOB), vec![0]);
}

#[test]
fn locked_schedule_stays_claimable() {
    let mut ledger = Vesting::new();
    assert_eq!(ledger.deposit_fund(ALICE, BOB, 1000, 75), Ok(()));

    // too early: rejected, and the schedule stays present
    assert_eq!(ledger.withdraw_fund(BOB, 999), Err(Error::NoFundsAvailable));
    assert_eq!(ledger.schedule_ids_of(BOB), vec![0]);
    assert!(ledger.get_schedule(0).is_some());

    // a schedule unlocking exactly at the current time is payable
    assert_eq!(ledger.withdraw_fund(BOB, 1000), Ok(75));
    assert_eq!(ledger.schedule_ids_of(BOB).len(), 0);
    assert!(ledger.get_schedule(0).is_none());
}

#[test]
fn earlier_schedule_settles_first() {
    let mut ledger = Vesting::new();
    assert_eq!(ledger.deposit_fund(ALICE, BOB, 100, 10), Ok(()));
    assert_eq!(ledger.deposit_fund(ALICE, BOB, 200, 20), Ok(()));

    // only the earlier schedule has unlocked
    assert_eq!(ledger.withdraw_fund(BOB, 150), Ok(10));
    assert_eq!(ledger.schedule_ids_of(BOB), vec![1]);
    let later = ledger.get_schedule(1).expect("later schedule must remain");
    assert_eq!(later.amount, 20);

    // the later schedule is claimable once its own time has passed
    assert_eq!(ledger.withdraw_fund(BOB, 200), Ok(20));
    assert_eq!(ledger.schedule_ids_of(BOB).len(), 0);
}

#[test]
fn second_withdrawal_changes_nothing() {
    let mut ledger = Vesting::new();
    assert_eq!(ledger.deposit_fund(ALICE, BOB, 100, 10), Ok(()));
    assert_eq!(ledger.deposit_fund(ALICE, BOB, 900, 20), Ok(()));

    assert_eq!(ledger.withdraw_fund(BOB, 100), Ok(10));
    let ids_after_first = ledger.schedule_ids_of(BOB);
    let next_id_after_first = ledger.next_id();

    // same time, no new deposits: the repeat call fails and mutates nothing
    assert_eq!(ledger.withdraw_fund(BOB, 100), Err(Error::NoFundsAvailable));
    assert_eq!(ledger.schedule_ids_of(BOB), ids_after_first);
    assert_eq!(ledger.next_id(), next_id_after_first);
    assert_eq!(ledger.get_schedule(1).expect("locked schedule remains").amount, 20);
}

#[test]
fn beneficiaries_do_not_cross_contaminate() {
    let mut ledger = Vesting::new();
    assert_eq!(ledger.deposit_fund(ALICE, BOB, 100, 10), Ok(()));

    // the deposit for one account never appears under another
    assert_eq!(ledger.schedule_ids_of(CHARLIE).len(), 0);
    assert_eq!(ledger.withdraw_fund(CHARLIE, 500), Err(Error::NoFundsAvailable));

    // and settling one account leaves the other's claim intact
    assert_eq!(ledger.deposit_fund(ALICE, CHARLIE, 100, 30), Ok(()));
    assert_eq!(ledger.withdraw_fund(BOB, 500), Ok(10));
    assert_eq!(ledger.schedule_ids_of(CHARLIE), vec![1]);
    assert_eq!(ledger.withdraw_fund(CHARLIE, 500), Ok(30));
}

#[test]
fn aggregation_overflow_rejects_whole_call() {
    let mut ledger = Vesting::new();
    assert_eq!(ledger.deposit_fund(ALICE, BOB, 100, u128::MAX), Ok(()));
    assert_eq!(ledger.deposit_fund(ALICE, BOB, 100, 1), Ok(()));

    // the sum cannot be represented: all-or-nothing failure, nothing removed
    assert_eq!(ledger.withdraw_fund(BOB, 200), Err(Error::TransferFailed));
    assert_eq!(ledger.schedule_ids_of(BOB), vec![0, 1]);
    assert!(ledger.get_schedule(0).is_some());
    assert!(ledger.get_schedule(1).is_some());
}

#[test]
fn withdraw_with_no_schedules_fails() {
    let mut ledger = Vesting::new();
    assert_eq!(ledger.withdraw_fund(BOB, 0), Err(Error::NoFundsAvailable));
    assert_eq!(ledger.next_id(), 0);
}

//! Plain data carried by the ledger: identifiers, quantities, schedule
//! records, and the error taxonomy of the two entry points.

use vstd::prelude::*;

verus! {

/// Account identifier of a depositor or beneficiary.
pub type AccountId = u128;

/// Quantity of the single native value unit.
pub type Balance = u128;

/// Wall/block time used for unlock comparisons.
pub type Timestamp = u64;

/// Monotonically increasing schedule identifier; never reused.
pub type ScheduleId = u64;

/// Why a call to the ledger was rejected.  Every error is terminal for the
/// call and leaves no partial writes behind.
#[derive(Clone, Copy, Debug, PartialEq, Eq, Structural)]
pub enum Error {
    /// A deposit arrived with no attached value.
    ZeroAmount,
    /// No schedule of the caller is both present and unlocked.
    NoFundsAvailable,
    /// The aggregated payout would overflow, or the host transfer failed.
    TransferFailed,
    /// The schedule-id counter would wrap past its maximum.
    IdOverflow,
}

/// A single vesting schedule.  Immutable once created; it exists in the
/// ledger from deposit until a withdrawal pays it out, and its amount is
/// always strictly positive.
#[derive(Clone, Copy, Debug, PartialEq, Eq, Structural)]
pub struct VestingSchedule {
    /// Who created the schedule.
    pub owner: AccountId,
    /// Who may claim the funds.
    pub beneficiary: AccountId,
    /// Amount held in custody for the beneficiary.
    pub amount: Balance,
    /// Earliest time at which the amount may be withdrawn.
    pub unlock_time: Timestamp,
}

} // verus!

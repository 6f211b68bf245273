//! A time-locked custody ledger.
//!
//! Parties deposit value earmarked for a beneficiary, unlockable only after a
//! given timestamp; a beneficiary withdraws all currently unlocked value in a
//! single call.  The ledger owns three pieces of state: a monotonic schedule-id
//! counter, a map from schedule id to schedule record, and a secondary index
//! from beneficiary to the ids it may claim.  The host environment (caller
//! identity, current time, value transfer) stays outside this crate; the entry
//! points take those facts as plain arguments and report the value to transfer.

pub mod laws;
pub mod ledger;
pub mod model;
pub mod types;

pub use ledger::Vesting;
pub use types::AccountId;
pub use types::Balance;
pub use types::Error;
pub use types::ScheduleId;
pub use types::Timestamp;
pub use types::VestingSchedule;

pub mod bridge;
pub mod ledger;
pub mod pacing;
pub mod report;
pub mod ring;

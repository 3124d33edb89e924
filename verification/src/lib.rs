//! A shared ledger of net balances among parties identified by principals.
//!
//! One party pays an expense, the cost is divided among the participants,
//! and two parties can net their opposing balances against each other.

pub mod party;
pub mod model;
pub mod laws;
pub mod ledger;

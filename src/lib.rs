//! A ledger of client accounts driven by deposits, withdrawals, disputes,
//! resolutions and chargebacks, with fixed-point amounts of four decimal places.

pub mod account;
pub mod amount;
pub mod backend;
pub mod lemmas;
pub mod tx;
pub mod util;

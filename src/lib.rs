//! A cascading-donation ledger: identifiers are registered by principals,
//! donors fund them, owners forward configured shares of each pool to other
//! identifiers and claim the remainder.
//!
//! `CascadingDonations` holds all of the ledger's state and decides every
//! operation. What it leaves to its host: proving that `caller` is who it
//! claims to be before an operation is called; moving the donated amount
//! into custody around `donate`, and the amount that `claim` returns out of
//! it, within the same atomic unit of work; and publishing the events that
//! `take_events` hands out. An operation that fails changes nothing.

mod counter;
mod error;
mod events;
mod laws;
mod ledger;
mod rules;
mod table;

pub use counter::{Counter, CounterKey};
pub use error::Error;
pub use events::{
    emit_claimed, emit_distributed, emit_donated, emit_nickname_set, emit_ownership_transferred,
    emit_project_registered, emit_rules_set, Event, EventRecord,
};
pub use ledger::CascadingDonations;
pub use laws::{
    law_claim_drains_once, law_distribute_drains_once, law_distribution_moves_pool,
    law_dust_threshold_monotone, law_nickname_released, law_nickname_taken,
    law_refused_rules_keep_previous, law_register_once, law_rule_order_irrelevant,
    law_share_conservation,
};
pub use rules::{forward_amount, share_of_pool, RuleSet, BPS_BASE, MAX_RULES};
pub use table::{KeyEq, Table};

//! Confidential-computation core of a Texas Hold'em poker platform:
//! card/deck codec, shuffle-and-deal, community-card reveal, 7-card hand
//! evaluation with full tie-break precision, and exact pot/side-pot
//! settlement.  The surrounding ledger applies the results; this crate
//! holds the rules and proves them.

pub mod card;
pub mod codec;
pub mod evaluator;
pub mod pot;
pub mod community;
pub mod deal;
pub mod showdown;

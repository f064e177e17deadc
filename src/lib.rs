//! Claim and allocation engine for a token distribution: point scoring,
//! proportional capped allocation, an eight-step vesting ladder per account,
//! and admin-gated lifecycle controls over one owned state record.

pub mod principal;
pub mod points;
pub mod ladder;
pub mod store;
pub mod state;
pub mod allocation;
pub mod claims;
pub mod airdrop;
pub mod integrity;

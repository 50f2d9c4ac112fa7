//! Experience-point rewards for ranked time-trial leaderboards.
//!
//! A competitor's rank on a leaderboard and the size of the field map to an XP
//! award ([`xp_calculator`], with the tiers behind the leading ranks in
//! [`group_tier`]); the awards of many leaderboards are summed per game mode
//! and competitor ([`leaderboard`]); the totals are queued for the cache, each
//! under its key ([`cache_key`], [`xp_store`]).
//!
//! All arithmetic is exact integer arithmetic over rational parameters, and
//! every function is verified against the mathematical definitions given
//! beside it.

pub mod arith;
pub mod group_tier;
pub mod xp_calculator;
pub mod leaderboard;
pub mod cache_key;
pub mod xp_store;

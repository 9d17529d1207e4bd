//! Verified core of an arbitrage engine for betting exchanges: money,
//! offers and their matching across bookmakers, arbitrage opportunities,
//! the shared market table and the bookmakers' bookkeeping.

pub mod text;
pub mod currency;
pub mod events;
pub mod markets;
pub mod matcher;
pub mod opportunity;
pub mod timers;
pub mod logger;
pub mod gamblers;
pub mod bookie;
pub mod table;
pub mod combo;
pub mod session;
pub mod arbitrer;
pub mod barrier;
pub mod parse;
pub mod html;
pub mod error;

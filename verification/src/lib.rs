//! A price-time-priority order book over a fixed window of price ticks.

pub mod accepting;
pub mod access;
pub mod account;
pub mod accounts;
pub mod admin;
pub mod audit;
pub mod bitmap;
pub mod book;
pub mod client;
pub mod codec;
pub mod constants;
pub mod cranks;
pub mod custody;
pub mod dispatch;
pub mod entry;
pub mod errors;
pub mod events;
pub mod expiry;
pub mod findings;
pub mod flow;
pub mod fresh;
pub mod funding;
pub mod funds;
pub mod gates;
pub mod history;
pub mod hygiene;
pub mod inspect;
pub mod keys;
pub mod layout;
pub mod laws;
pub mod ledger;
pub mod level;
pub mod lifetime;
pub mod lists;
pub mod maker;
pub mod makers;
pub mod market;
pub mod matching;
pub mod model;
pub mod node;
pub mod opening;
pub mod orders;
pub mod placing;
pub mod priority;
pub mod quote;
pub mod quotes;
pub mod quoting;
pub mod reading;
pub mod records;
pub mod refusals;
pub mod requote;
pub mod scale;
pub mod seat;
pub mod seating;
pub mod side;
pub mod snapshot;
pub mod spending;
pub mod steps;
pub mod taker;
pub mod terms;
pub mod token;
pub mod trades;
pub mod undo;
pub mod vacancy;
pub mod versions;
pub mod windows;
pub mod wire;

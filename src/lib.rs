//! A personal ledger engine: names interned to dense ids, a date cursor,
//! a line parser, balance replay, and a monthly history of spending and
//! receiving.
//!
//! Amounts are integers: fiat in minor units, assets in their smallest unit.
//! The aggregate built-in accounts (net worth, yield, assets, return on
//! investment) receive no postings from the engine; reporting code derives
//! them from the raw balances.
use vstd::prelude::*;

pub mod date;
pub mod names;
pub mod ledger;
pub mod history;
pub mod parse;

verus! {

} // verus!

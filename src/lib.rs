//! Contract state and command handling for UTXO-anchored SCL token contracts.
use vstd::prelude::*;

pub mod commit;
pub mod contract;
pub mod dispatch;
pub mod history;
pub mod mint;
pub mod payload;
pub mod projections;
pub mod records;
pub mod schedule;
pub mod strmap;
pub mod text;
pub mod textops;
pub mod trade;
pub mod types;

verus! {

} // verus!

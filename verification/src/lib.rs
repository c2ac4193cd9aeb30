//! An indexed, queryable description of a smart contract's binary interface.

pub mod contract;
pub mod laws;
pub mod name_map;
pub mod name_order;
pub mod operation;

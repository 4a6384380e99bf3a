//! Verified in-memory collections for a small device registry: append-only
//! transaction logs, a growable array of timestamps, and two key-ordered
//! device indexes (a plain binary search tree and a self-balancing
//! red-black tree).

pub mod better_transaction_log;
pub mod binary_search_tree;
pub mod device;
pub mod dynamic_array;
pub mod red_black_tree;
pub mod transaction_log;

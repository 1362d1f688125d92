use vstd::prelude::*;

pub mod avl_tree;
pub mod cache;
pub mod cmd;
pub mod config;
pub mod controller;
pub mod cp_stream;
pub mod hash;
pub mod header;
pub mod interface;
pub mod memory;
pub mod parse_result;
pub mod parser_api;
pub mod pipeline_api;
pub mod program;
pub mod radix_tree;
pub mod table;
pub mod table_controller;
pub mod tss;
pub mod tx_conf;
pub mod udp;
pub mod worker;

verus! {

} // verus!

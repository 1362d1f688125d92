use vstd::prelude::*;

use crate::parse_result::ParseResult;
use crate::table::{ActionSet, Table};
use crate::tx_conf::TxConf;

verus! {

// The calls a pipeline program makes while it processes a packet.

/// Searches table `table_id` for the packet, records a copy of the action
/// found as that table's entry in `new_cache_data`, and returns the action.
pub fn search_table<'a>(
    table_list: &'a Vec<Table>,
    table_id: i32,
    pkt: &[u8],
    parse_result: &ParseResult,
    new_cache_data: &mut Vec<ActionSet>,
) -> (r: &'a ActionSet)
    requires
        0 <= table_id < table_list@.len(),
        table_id < old(new_cache_data)@.len(),
        table_list@[table_id as int].wf(),
        table_list@[table_id as int].search_ready(pkt@, *parse_result),
    ensures
        *r == table_list@[table_id as int].search_result(pkt@, *parse_result).action,
        final(new_cache_data)@.len() == old(new_cache_data)@.len(),
        final(new_cache_data)@[table_id as int].same_action(*r),
        forall|i: int|
            0 <= i < old(new_cache_data)@.len() && i != table_id ==> #[trigger] final(new_cache_data)@[i]
                == old(new_cache_data)@[i],
{
    let id = table_id as usize;
    let entry = table_list[id].search(pkt, parse_result);
    new_cache_data.set(id, entry.action.clone());
    &entry.action
}

/// The action a cache gave for table `table_id`.
pub fn get_action_set_from_cache(cache_data: &Vec<ActionSet>, table_id: i32) -> (r: &ActionSet)
    requires
        0 <= table_id < cache_data@.len(),
    ensures
        *r == cache_data@[table_id as int],
{
    &cache_data[table_id as usize]
}

/// The byte of the packet at `offset`.
pub fn read_pkt(pkt: &[u8], offset: i32) -> (r: i32)
    requires
        0 <= offset < pkt@.len(),
    ensures
        r == pkt@[offset as int],
{
    pkt[offset as usize] as i32
}

/// Writes `value` at `offset` in the packet.
pub fn write_pkt(pkt: &mut Vec<u8>, offset: u8, value: u8)
    requires
        offset < old(pkt)@.len(),
    ensures
        final(pkt)@ == old(pkt)@.update(offset as int, value),
{
    pkt.set(offset as usize, value);
}

/// Metadata `metadata_id` of the packet: its input port for 0, else 0.
pub fn get_metadata(parse_result: &ParseResult, metadata_id: i32) -> (r: i32)
    requires
        metadata_id == 0 ==> parse_result.metadata@.len() >= 1,
    ensures
        r == (if metadata_id == 0 {
            parse_result.metadata@[0] as i32
        } else {
            0
        }),
{
    match metadata_id {
        0 => parse_result.metadata[0] as i32,
        _ => 0,
    }
}

/// Sets metadata `metadata_id` of the output: the output port for 0;
/// other ids change nothing.
pub fn set_metadata(tx_conf: &mut TxConf, metadata_id: i32, value: i64)
    ensures
        final(tx_conf).output_port == (if metadata_id == 0 {
            value as usize
        } else {
            old(tx_conf).output_port
        }),
        final(tx_conf).is_drop == old(tx_conf).is_drop,
        final(tx_conf).is_flooding == old(tx_conf).is_flooding,
{
    match metadata_id {
        0 => {
            tx_conf.output_port = value as usize;
        },
        _ => {},
    }
}

/// The id of an action.
pub fn get_action_id(action_set: &ActionSet) -> (r: i32)
    ensures
        r == action_set.action_id as i32,
{
    action_set.action_id as i32
}

/// Sends the packet to the controller, which sits on port 0.
pub fn to_controller(tx_conf: &mut TxConf)
    ensures
        final(tx_conf).output_port == 0,
        final(tx_conf).is_drop == old(tx_conf).is_drop,
        final(tx_conf).is_flooding == old(tx_conf).is_flooding,
{
    tx_conf.output_port = 0;
}

/// Drops the packet.
pub fn drop(tx_conf: &mut TxConf)
    ensures
        final(tx_conf).is_drop,
        final(tx_conf).output_port == old(tx_conf).output_port,
        final(tx_conf).is_flooding == old(tx_conf).is_flooding,
{
    tx_conf.is_drop = true;
}

} // verus!

use vstd::prelude::*;

use crate::cmd::{RequestCmd, ResponseCmd};
use crate::table::{FlowEntry, Table};
use crate::table_controller::{add_flow_entry, entry_of_request, request_ok, show_flow_entry};

verus! {

// A control-plane request is one command byte, then for the commands on a
// table the table's index, then for `AddFlowEntry` the flow entry request
// (see `table_controller`).

/// The flow entry request carried by an `AddFlowEntry` command.
pub open spec fn entry_request(buf: Seq<u8>) -> Seq<u8> {
    buf.subrange(2, buf.len() as int)
}

/// The data plane can answer the request: a command on a table names one
/// of `tables`, and an added entry is complete and can be filed.
pub open spec fn request_acceptable(tables: Seq<Table>, buf: Seq<u8>) -> bool {
    &&& buf.len() >= 1
    &&& buf[0] == RequestCmd::AddFlowEntry.spec_code() ==> {
        &&& buf.len() >= 2
        &&& buf[1] < tables.len()
        &&& tables[buf[1] as int].wf()
        &&& request_ok(entry_request(buf))
        &&& forall|e: FlowEntry| #[trigger]
            entry_of_request(e, entry_request(buf)) ==> tables[buf[1] as int].tree.insert_ready(e)
    }
    &&& buf[0] == RequestCmd::ShowFlowEntry.spec_code() ==> buf.len() >= 2 && buf[1] < tables.len()
}

/// `after` is `before` with the flow entry of request `req` added to table
/// `id`.
pub open spec fn entry_added(before: Seq<Table>, after: Seq<Table>, id: int, req: Seq<u8>) -> bool {
    &&& after.len() == before.len()
    &&& forall|j: int| 0 <= j < before.len() && j != id ==> after[j] == before[j]
    &&& after[id].wf()
    &&& exists|e: FlowEntry| #[trigger]
        entry_of_request(e, req) && before[id].tree.inserted(after[id].tree, e)
    &&& after[id].tree_key_index == before[id].tree_key_index
    &&& after[id].keys == before[id].keys
    &&& after[id].default_entry == before[id].default_entry
    &&& after[id].header_list == before[id].header_list
}

/// Answers one control-plane request, changing the tables as it asks:
/// `Ping` is echoed, `AddFlowEntry` adds the entry and answers success,
/// `ShowFlowEntry` answers nothing, any other command answers an error.
pub fn handle_request(table_list: &mut Vec<Table>, request_buffer: &[u8]) -> (r: Vec<u8>)
    requires
        request_acceptable(old(table_list)@, request_buffer@),
    ensures
        request_buffer@[0] == RequestCmd::AddFlowEntry.spec_code() ==> {
            &&& r@ == seq![ResponseCmd::SuccessMessage.spec_code()]
            &&& entry_added(
                old(table_list)@,
                final(table_list)@,
                request_buffer@[1] as int,
                entry_request(request_buffer@),
            )
        },
        request_buffer@[0] != RequestCmd::AddFlowEntry.spec_code() ==> final(table_list)@ == old(table_list)@,
        request_buffer@[0] == RequestCmd::Ping.spec_code() ==> r@ == seq![RequestCmd::Ping.spec_code()],
        request_buffer@[0] == RequestCmd::ShowFlowEntry.spec_code() ==> r@ == Seq::<u8>::empty(),
        request_buffer@[0] > RequestCmd::ShowFlowEntry.spec_code() ==> r@ == seq![
            ResponseCmd::ErrorMessage.spec_code(),
        ],
{
    let mut response: Vec<u8> = Vec::new();
    let cmd = request_buffer[0];
    if cmd == RequestCmd::Ping.code() {
        response.push(RequestCmd::Ping.code());
    } else if cmd == RequestCmd::AddFlowEntry.code() {
        let table_id = request_buffer[1];
        let entry = &request_buffer[2..request_buffer.len()];
        let ghost before = table_list@;
        add_flow_entry(&mut table_list[table_id as usize], entry);
        assert(entry_added(before, table_list@, table_id as int, entry_request(request_buffer@)));
        response.push(ResponseCmd::SuccessMessage.code());
    } else if cmd == RequestCmd::ShowFlowEntry.code() {
        let table_id = request_buffer[1];
        let _flow_entry_str = show_flow_entry(&table_list[table_id as usize]);
    } else {
        response.push(ResponseCmd::ErrorMessage.code());
    }
    response
}

} // verus!

use vstd::prelude::*;

use crate::config::{DpConfig, DpConfigHeader, DpConfigTable};
use crate::cp_stream::entry_added;
use crate::header::{prefix_bits, sizes_valid, Header};
use crate::table::{kind_of, FlowEntry, Table};
use crate::table_controller::{add_flow_entry, entry_of_request, flow_entry_fits, request_ok};

verus! {

/// `Header::new` accepts the layout of this header.
pub open spec fn header_conf_ok(conf: DpConfigHeader) -> bool {
    &&& sizes_valid(conf.fields@)
    &&& prefix_bits(conf.fields@, conf.fields@.len() as int) <= 8 * usize::MAX
    &&& forall|k: int| 0 <= k < conf.used_fields@.len() ==> conf.used_fields@[k] < conf.fields@.len()
    &&& forall|k: int| 0 <= k < conf.parse_fields@.len() ==> conf.parse_fields@[k] < conf.fields@.len()
}

/// Lays out every configured header.
pub fn build_header_list(dp_config: &DpConfig) -> (r: Vec<Header>)
    requires
        forall|i: int| 0 <= i < dp_config.headers@.len() ==> header_conf_ok(#[trigger] dp_config.headers@[i]),
    ensures
        r@.len() == dp_config.headers@.len(),
        forall|i: int|
            0 <= i < r@.len() ==> (#[trigger] r@[i]).laid_out(
                dp_config.headers@[i].fields@,
                dp_config.headers@[i].used_fields@,
                dp_config.headers@[i].parse_fields@,
            ),
{
    let hdr_confs = &dp_config.headers;
    let mut header_list: Vec<Header> = Vec::new();
    let mut i: usize = 0;
    while i < hdr_confs.len()
        invariant
            hdr_confs == &dp_config.headers,
            i <= hdr_confs@.len(),
            header_list@.len() == i,
            forall|k: int| 0 <= k < hdr_confs@.len() ==> header_conf_ok(#[trigger] hdr_confs@[k]),
            forall|k: int|
                0 <= k < i ==> (#[trigger] header_list@[k]).laid_out(
                    hdr_confs@[k].fields@,
                    hdr_confs@[k].used_fields@,
                    hdr_confs@[k].parse_fields@,
                ),
        decreases hdr_confs@.len() - i,
    {
        let hdr_conf = &hdr_confs[i];
        assert(header_conf_ok(hdr_confs@[i as int]));
        let header = Header::new(hdr_conf.fields.as_slice(), hdr_conf.used_fields.as_slice(), hdr_conf.parse_fields.as_slice());
        header_list.push(header);
        i = i + 1;
    }
    header_list
}

/// `t` is the table `Table::new` builds from `conf`, over a copy of
/// `header_list`.
pub open spec fn table_of(t: Table, conf: DpConfigTable, header_list: Seq<Header>) -> bool {
    let tree_key = if conf.tree_key_index < conf.keys@.len() {
        conf.tree_key_index
    } else {
        0
    };
    &&& t.wf()
    &&& t.tree.is_empty()
    &&& t.tree.key_index() == tree_key
    &&& (t.tree is Radix <==> kind_of(conf.keys@[tree_key as int].match_kind@) is Lpm)
    &&& t.tree_key_index == conf.tree_key_index
    &&& t.keys@.len() == conf.keys@.len()
    &&& forall|j: int|
        0 <= j < t.keys@.len() ==> #[trigger] t.keys@[j] == (
            (conf.keys@[j].header_id as usize, conf.keys@[j].field_id as usize),
            kind_of(conf.keys@[j].match_kind@),
        )
    &&& t.default_entry.values@.len() == conf.keys@.len()
    &&& forall|j: int|
        0 <= j < t.default_entry.values@.len() ==> (#[trigger] t.default_entry.values@[j]).value is None
            && t.default_entry.values@[j].prefix_mask == 0
    &&& t.default_entry.priority == 0
    &&& t.default_entry.action.action_id == conf.default_action_id as u8
    &&& t.default_entry.action.action_data@ == Seq::<i32>::empty()
    &&& t.header_list@.len() == header_list.len()
    &&& forall|k: int| 0 <= k < header_list.len() ==> (#[trigger] t.header_list@[k]).same_layout(header_list[k])
}

/// Builds every configured table, each over its own copy of the headers.
pub fn build_table_list(dp_config: &DpConfig, header_list: &Vec<Header>) -> (r: Vec<Table>)
    requires
        forall|i: int| 0 <= i < dp_config.tables@.len() ==> (#[trigger] dp_config.tables@[i]).keys@.len() >= 1,
    ensures
        r@.len() == dp_config.tables@.len(),
        forall|i: int| 0 <= i < r@.len() ==> table_of(#[trigger] r@[i], dp_config.tables@[i], header_list@),
{
    let table_confs = &dp_config.tables;
    let mut table_list: Vec<Table> = Vec::new();
    let mut i: usize = 0;
    while i < table_confs.len()
        invariant
            table_confs == &dp_config.tables,
            i <= table_confs@.len(),
            table_list@.len() == i,
            forall|k: int| 0 <= k < table_confs@.len() ==> (#[trigger] table_confs@[k]).keys@.len() >= 1,
            forall|k: int| 0 <= k < i ==> table_of(#[trigger] table_list@[k], table_confs@[k], header_list@),
        decreases table_confs@.len() - i,
    {
        let table_conf = &table_confs[i];
        assert(table_confs@[i as int].keys@.len() >= 1);
        let headers = clone_headers(header_list);
        let table = Table::new(table_conf, headers);
        table_list.push(table);
        i = i + 1;
    }
    table_list
}

fn clone_headers(header_list: &Vec<Header>) -> (r: Vec<Header>)
    ensures
        r@.len() == header_list@.len(),
        forall|k: int| 0 <= k < header_list@.len() ==> (#[trigger] r@[k]).same_layout(header_list@[k]),
{
    let mut r: Vec<Header> = Vec::new();
    let mut k: usize = 0;
    while k < header_list.len()
        invariant
            k <= header_list@.len(),
            r@.len() == k,
            forall|m: int| 0 <= m < k ==> (#[trigger] r@[m]).same_layout(header_list@[m]),
        decreases header_list@.len() - k,
    {
        r.push(header_list[k].clone());
        k = k + 1;
    }
    r
}

// Initial table data is laid out as
//   entry_count (4 bytes, little-endian)
//   | (table_id (1 byte) | entry_size (2 bytes, little-endian) | entry)*
// where each entry is a flow entry request (see `table_controller`).

/// The number of records announced by initial table data.
pub open spec fn record_count(data: Seq<u8>) -> nat {
    (data[0] + data[1] * 0x100 + data[2] * 0x10000 + data[3] * 0x1000000) as nat
}

/// The size of the entry of the record at `p`.
pub open spec fn record_size(data: Seq<u8>, p: int) -> int {
    data[p + 1] + data[p + 2] * 0x100
}

/// Where record `k` starts.
pub open spec fn record_pos(data: Seq<u8>, k: nat) -> int
    decreases k,
{
    if k == 0 {
        4
    } else {
        let p = record_pos(data, (k - 1) as nat);
        p + 3 + record_size(data, p)
    }
}

/// The table record `k` adds an entry to.
pub open spec fn record_table(data: Seq<u8>, k: nat) -> int {
    data[record_pos(data, k)] as int
}

/// The flow entry request of record `k`.
pub open spec fn record_request(data: Seq<u8>, k: nat) -> Seq<u8> {
    let p = record_pos(data, k);
    data.subrange(p + 3, p + 3 + record_size(data, p))
}

/// Record `k` lies inside the data.
pub open spec fn record_fits(data: Seq<u8>, k: nat) -> bool {
    let p = record_pos(data, k);
    &&& p + 3 <= data.len()
    &&& p + 3 + record_size(data, p) <= data.len()
}

/// `trace` holds the tables before each of the first `n` records is loaded
/// and after the last of them.
pub open spec fn load_trace(trace: Seq<Seq<Table>>, data: Seq<u8>, n: nat) -> bool {
    &&& trace.len() == n + 1
    &&& forall|k: nat|
        k < n ==> entry_added(
            #[trigger] trace[k as int],
            trace[k as int + 1],
            record_table(data, k),
            record_request(data, k),
        )
}

/// Initial table data can be loaded into `tables`: empty data, or data
/// whose records all lie inside it, each naming a table and holding a
/// complete request whose entry can be filed when its turn comes.
pub open spec fn load_ready(tables: Seq<Table>, data: Seq<u8>) -> bool {
    data.len() != 0 ==> {
        &&& data.len() >= 4
        &&& forall|i: int| 0 <= i < tables.len() ==> (#[trigger] tables[i]).wf()
        &&& forall|k: nat|
            k < record_count(data) ==> {
                &&& #[trigger] record_fits(data, k)
                &&& 0 <= record_table(data, k) < tables.len()
                &&& request_ok(record_request(data, k))
            }
        &&& forall|trace: Seq<Seq<Table>>, k: nat, e: FlowEntry|
            #![trigger load_trace(trace, data, k), entry_of_request(e, record_request(data, k))]
            k < record_count(data) && load_trace(trace, data, k) && trace[0] == tables && entry_of_request(
                e,
                record_request(data, k),
            ) ==> trace[k as int][record_table(data, k)].tree.insert_ready(e)
    }
}

proof fn lemma_trace_wf(trace: Seq<Seq<Table>>, data: Seq<u8>, n: nat)
    requires
        load_trace(trace, data, n),
        forall|i: int| 0 <= i < trace[0].len() ==> (#[trigger] trace[0][i]).wf(),
        forall|k: nat| k < n ==> 0 <= #[trigger] record_table(data, k) < trace[0].len(),
    ensures
        trace[n as int].len() == trace[0].len(),
        forall|i: int| 0 <= i < trace[n as int].len() ==> (#[trigger] trace[n as int][i]).wf(),
    decreases n,
{
    if n > 0 {
        let m = (n - 1) as nat;
        let t = trace.subrange(0, m as int + 1);
        assert forall|k: nat| k < m implies entry_added(
            #[trigger] t[k as int],
            t[k as int + 1],
            record_table(data, k),
            record_request(data, k),
        ) by {
            assert(entry_added(trace[k as int], trace[k as int + 1], record_table(data, k), record_request(data, k)));
        }
        lemma_trace_wf(t, data, m);
        assert(entry_added(trace[m as int], trace[m as int + 1], record_table(data, m), record_request(data, m)));
        assert(0 <= record_table(data, m) < trace[0].len());
    }
}

proof fn lemma_trace_push(trace: Seq<Seq<Table>>, data: Seq<u8>, n: nat, after: Seq<Table>)
    requires
        load_trace(trace, data, n),
        entry_added(trace[n as int], after, record_table(data, n), record_request(data, n)),
    ensures
        load_trace(trace.push(after), data, n + 1),
        trace.push(after)[0] == trace[0],
        trace.push(after)[n as int + 1] == after,
{
    let t2 = trace.push(after);
    assert forall|k: nat| k < n + 1 implies entry_added(
        #[trigger] t2[k as int],
        t2[k as int + 1],
        record_table(data, k),
        record_request(data, k),
    ) by {
        if k < n {
            assert(entry_added(trace[k as int], trace[k as int + 1], record_table(data, k), record_request(data, k)));
        }
    }
}

/// Loads initial table data: each record's flow entry is added, in order,
/// to the table it names (see `load_trace`).
pub fn load_initial_table_data(table_list: &mut Vec<Table>, initial_table_data: &[u8])
    requires
        load_ready(old(table_list)@, initial_table_data@),
    ensures
        initial_table_data@.len() == 0 ==> final(table_list)@ == old(table_list)@,
        initial_table_data@.len() != 0 ==> exists|trace: Seq<Seq<Table>>| #[trigger]
            load_trace(trace, initial_table_data@, record_count(initial_table_data@)) && trace[0] == old(
                table_list,
            )@ && trace[record_count(initial_table_data@) as int] == final(table_list)@,
{
    let ghost data = initial_table_data@;
    if initial_table_data.len() == 0 {
        return ;
    }
    let entry_count: u32 = initial_table_data[0] as u32 + (initial_table_data[1] as u32) * 0x100
        + (initial_table_data[2] as u32) * 0x10000 + (initial_table_data[3] as u32) * 0x1000000;
    let ghost start = table_list@;
    let ghost mut trace: Seq<Seq<Table>> = seq![table_list@];
    let mut pos: usize = 4;
    let mut n: u32 = 0;
    while n < entry_count
        invariant
            data == initial_table_data@,
            data.len() >= 4,
            load_ready(start, data),
            entry_count == record_count(data),
            n <= entry_count,
            pos == record_pos(data, n as nat),
            load_trace(trace, data, n as nat),
            trace[0] == start,
            trace[n as int] == table_list@,
        decreases entry_count - n,
    {
        assert(record_fits(data, n as nat));
        proof {
            assert forall|k: nat| k < n implies 0 <= #[trigger] record_table(data, k) < trace[0].len() by {
                assert(record_fits(data, k));
            }
            lemma_trace_wf(trace, data, n as nat);
        }
        let table_id = initial_table_data[pos];
        let entry_buf_size: u16 = initial_table_data[pos + 1] as u16
            + (initial_table_data[pos + 2] as u16) * 0x100;
        pos = pos + 3;
        let entry = &initial_table_data[pos..pos + entry_buf_size as usize];
        let ghost before = table_list@;
        assert(entry@ == record_request(data, n as nat));
        assert forall|e: FlowEntry| #[trigger] entry_of_request(e, entry@) implies before[table_id as int].tree.insert_ready(
            e,
        ) by {
            assert(load_trace(trace, data, n as nat));
        }
        add_flow_entry(&mut table_list[table_id as usize], entry);
        proof {
            let after = table_list@;
            assert(entry_added(before, after, table_id as int, record_request(data, n as nat)));
            lemma_trace_push(trace, data, n as nat, after);
            trace = trace.push(after);
        }
        pos = pos + entry_buf_size as usize;
        n = n + 1;
    }
}

/// The first `n` records of `data` lie inside it and name one of
/// `tables_len` tables.
#[verifier::opaque]
pub open spec fn records_fit_upto(data: Seq<u8>, n: nat, tables_len: int) -> bool {
    forall|k: nat| k < n ==> record_fits(data, k) && 0 <= #[trigger] record_table(data, k) < tables_len
}

/// The first `n` records of `data` have been loaded into `start`, giving
/// `now` (see `load_trace`).
pub open spec fn loaded_upto(data: Seq<u8>, start: Seq<Table>, now: Seq<Table>, n: nat) -> bool {
    exists|t: Seq<Seq<Table>>| #[trigger] load_trace(t, data, n) && t[0] == start && t[n as int] == now
}

proof fn lemma_loaded_upto(trace: Seq<Seq<Table>>, data: Seq<u8>, n: nat, start: Seq<Table>, now: Seq<Table>)
    requires
        load_trace(trace, data, n),
        trace[0] == start,
        trace[n as int] == now,
    ensures
        loaded_upto(data, start, now, n),
{
}

/// The record of `data` at `p` can be loaded into `tables`: it lies inside
/// the data, names one of the tables, holds a complete request, and the
/// entry it describes can be filed in that table within the step bound of
/// `Table::insert_fits`.
pub open spec fn record_loadable_at(tables: Seq<Table>, data: Seq<u8>, p: int) -> bool {
    let req = data.subrange(p + 3, p + 3 + record_size(data, p));
    &&& 0 <= p
    &&& p + 3 <= data.len()
    &&& p + 3 + record_size(data, p) <= data.len()
    &&& 0 <= data[p] < tables.len()
    &&& request_ok(req)
    &&& forall|e: FlowEntry| #[trigger] entry_of_request(e, req) ==> tables[data[p] as int].tree.insert_fits_bounded(e)
}

/// Record `k` of `data` can be loaded into `tables` (see
/// `record_loadable_at`).
pub open spec fn record_loadable(tables: Seq<Table>, data: Seq<u8>, k: nat) -> bool {
    record_loadable_at(tables, data, record_pos(data, k))
}

/// Loads the record of `data` at `pos` when it can be loaded (see
/// `record_loadable_at`), giving where the next record starts; `None`, with
/// the tables unchanged, when it cannot.
fn load_record(table_list: &mut Vec<Table>, data: &[u8], pos: usize) -> (r: Option<usize>)
    requires
        forall|i: int| 0 <= i < old(table_list)@.len() ==> (#[trigger] old(table_list)@[i]).wf(),
    ensures
        r is None <==> !record_loadable_at(old(table_list)@, data@, pos as int),
        r is None ==> final(table_list)@ == old(table_list)@,
        r matches Some(next) ==> {
            &&& next == pos + 3 + record_size(data@, pos as int)
            &&& entry_added(
                old(table_list)@,
                final(table_list)@,
                data@[pos as int] as int,
                data@.subrange(pos + 3, next as int),
            )
        },
{
    if pos > data.len() || data.len() - pos < 3 {
        return None;
    }
    let table_id = data[pos];
    let size: u16 = data[pos + 1] as u16 + (data[pos + 2] as u16) * 0x100;
    if size as usize > data.len() - (pos + 3) || table_id as usize >= table_list.len() {
        return None;
    }
    let next = pos + 3 + size as usize;
    let entry = &data[pos + 3..next];
    assert(entry@ == data@.subrange(pos + 3, pos + 3 + record_size(data@, pos as int)));
    if !flow_entry_fits(&table_list[table_id as usize], entry) {
        return None;
    }
    let ghost before = table_list@;
    add_flow_entry(&mut table_list[table_id as usize], entry);
    assert(entry_added(before, table_list@, table_id as int, entry@));
    Some(next)
}

/// Loads initial table data as `load_initial_table_data` does, checking
/// each record before it is loaded: the records are added in order until one
/// cannot be loaded into the tables as they stand (see `record_loadable`);
/// its number is returned, and the records before it stay loaded. Non-empty
/// data too short to hold its count is refused before any record.
pub fn load_initial_table_data_checked(table_list: &mut Vec<Table>, initial_table_data: &[u8]) -> (r: Option<u32>)
    requires
        forall|i: int| 0 <= i < old(table_list)@.len() ==> (#[trigger] old(table_list)@[i]).wf(),
    ensures
        initial_table_data@.len() == 0 ==> r is None && final(table_list)@ == old(table_list)@,
        0 < initial_table_data@.len() < 4 ==> r == Some(0u32) && final(table_list)@ == old(table_list)@,
        initial_table_data@.len() >= 4 && r is None ==> loaded_upto(
            initial_table_data@,
            old(table_list)@,
            final(table_list)@,
            record_count(initial_table_data@),
        ),
        initial_table_data@.len() >= 4 ==> (r matches Some(k) ==> {
            &&& k < record_count(initial_table_data@)
            &&& loaded_upto(initial_table_data@, old(table_list)@, final(table_list)@, k as nat)
            &&& !record_loadable(final(table_list)@, initial_table_data@, k as nat)
        }),
{
    let ghost data = initial_table_data@;
    if initial_table_data.len() == 0 {
        return None;
    }
    if initial_table_data.len() < 4 {
        return Some(0);
    }
    let entry_count: u32 = initial_table_data[0] as u32 + (initial_table_data[1] as u32) * 0x100
        + (initial_table_data[2] as u32) * 0x10000 + (initial_table_data[3] as u32) * 0x1000000;
    let ghost start = table_list@;
    let ghost mut trace: Seq<Seq<Table>> = seq![table_list@];
    let mut pos: usize = 4;
    let mut n: u32 = 0;
    assert(records_fit_upto(data, 0, start.len() as int)) by {
        reveal(records_fit_upto);
    }
    while n < entry_count
        invariant
            data == initial_table_data@,
            data.len() >= 4,
            forall|i: int| 0 <= i < start.len() ==> (#[trigger] start[i]).wf(),
            entry_count == record_count(data),
            n <= entry_count,
            pos == record_pos(data, n as nat),
            records_fit_upto(data, n as nat, start.len() as int),
            load_trace(trace, data, n as nat),
            trace[0] == start,
            start == old(table_list)@,
            trace[n as int] == table_list@,
        decreases entry_count - n,
    {
        proof {
            reveal(records_fit_upto);
            lemma_trace_wf(trace, data, n as nat);
        }
        match load_record(table_list, initial_table_data, pos) {
            None => {
                proof {
                    lemma_loaded_upto(trace, data, n as nat, start, table_list@);
                }
                return Some(n);
            },
            Some(next) => {
                proof {
                    let after = table_list@;
                    assert(data.subrange(pos + 3, next as int) == record_request(data, n as nat));
                    assert(record_table(data, n as nat) == data[pos as int]);
                    lemma_trace_push(trace, data, n as nat, after);
                    trace = trace.push(after);
                    assert(records_fit_upto(data, (n + 1) as nat, start.len() as int)) by {
                        reveal(records_fit_upto);
                        assert(record_fits(data, n as nat));
                    }
                }
                pos = next;
                n = n + 1;
            },
        }
    }
    proof {
        lemma_loaded_upto(trace, data, n as nat, start, table_list@);
    }
    None
}

} // verus!

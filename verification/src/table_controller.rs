use vstd::prelude::*;

use crate::avl_tree::{lemma_add_defined_by_key, lemma_add_same_key};
use crate::table::{ActionSet, FlowEntry, MatchFieldValue, Table, Tree};

verus! {

// A request to add a flow entry is laid out as
//   value_count | (value_len | value bytes | prefix_mask)* | priority | action_id
//   | action_data_len | action data bytes
// where a value of length 0 (a wildcard) has neither bytes nor mask, and the
// action data is read as little-endian 32-bit words, a last partial word
// taking the bytes that remain.

/// Where the match value after the one at `p` starts.
pub open spec fn next_value_pos(buf: Seq<u8>, p: int) -> int {
    if buf[p] == 0 {
        p + 1
    } else {
        p + buf[p] + 2
    }
}

/// Where match value `i` of a request starts.
pub open spec fn value_pos(buf: Seq<u8>, i: nat) -> int
    decreases i,
{
    if i == 0 {
        1
    } else {
        next_value_pos(buf, value_pos(buf, (i - 1) as nat))
    }
}

/// Where the priority of a request stands, after its match values.
pub open spec fn actions_pos(buf: Seq<u8>) -> int {
    value_pos(buf, buf[0] as nat)
}

/// The match value at `p` lies inside the request.
pub open spec fn value_fits(buf: Seq<u8>, p: int) -> bool {
    &&& 0 <= p < buf.len()
    &&& buf[p] != 0 ==> p + buf[p] + 1 < buf.len()
}

/// The request holds every byte its layout announces.
pub open spec fn request_ok(buf: Seq<u8>) -> bool {
    &&& buf.len() >= 1
    &&& forall|i: nat| i < buf[0] ==> value_fits(buf, #[trigger] value_pos(buf, i))
    &&& actions_pos(buf) + 3 <= buf.len()
    &&& actions_pos(buf) + 3 + buf[actions_pos(buf) + 2] <= buf.len()
}

/// The little-endian 32-bit word at `p`.
pub open spec fn le_word(d: Seq<u8>, p: int) -> i32 {
    (d[p] + d[p + 1] * 0x100 + d[p + 2] * 0x10000 + d[p + 3] * 0x1000000) as i32
}

/// The partial word made of the `r` bytes (`r < 4`) at `p`, little-endian.
pub open spec fn residue_word(d: Seq<u8>, p: int, r: int) -> i32 {
    ((if r > 0 {
        d[p] as int
    } else {
        0
    }) + (if r > 1 {
        d[p + 1] * 0x100
    } else {
        0
    }) + (if r > 2 {
        d[p + 2] * 0x10000
    } else {
        0
    })) as i32
}

/// The action data words of the data bytes `d`: whole little-endian words,
/// then a partial word for the bytes that remain.
pub open spec fn action_words(d: Seq<u8>) -> Seq<i32> {
    let n4 = d.len() / 4;
    Seq::new(
        n4 + (if d.len() % 4 == 0 {
            0nat
        } else {
            1nat
        }),
        |k: int|
            if k < n4 {
                le_word(d, 4 * k)
            } else {
                residue_word(d, 4 * k, (d.len() % 4) as int)
            },
    )
}

/// `v` is the match value at `p` of the request.
pub open spec fn value_of_request(v: MatchFieldValue, buf: Seq<u8>, p: int) -> bool {
    if buf[p] == 0 {
        v.value is None && v.prefix_mask == 0
    } else {
        &&& v.value matches Some(b) && b@ == buf.subrange(p + 1, p + 1 + buf[p])
        &&& v.prefix_mask == buf[p + buf[p] + 1]
    }
}

/// `e` is the flow entry the request describes.
pub open spec fn entry_of_request(e: FlowEntry, buf: Seq<u8>) -> bool {
    let n = buf[0] as int;
    let a = actions_pos(buf);
    &&& e.values@.len() == n
    &&& forall|i: int| 0 <= i < n ==> value_of_request(#[trigger] e.values@[i], buf, value_pos(buf, i as nat))
    &&& e.priority == buf[a]
    &&& e.action.action_id == buf[a + 1]
    &&& e.action.action_data@ == action_words(buf.subrange(a + 3, a + 3 + buf[a + 2]))
}

proof fn lemma_value_pos_grows(buf: Seq<u8>, i: nat)
    requires
        request_ok(buf),
        i <= buf[0],
    ensures
        1 <= value_pos(buf, i) <= actions_pos(buf),
{
    lemma_value_pos_low(buf, i);
    lemma_value_pos_high(buf, i);
}

proof fn lemma_value_pos_low(buf: Seq<u8>, i: nat)
    ensures
        1 <= value_pos(buf, i),
    decreases i,
{
    if i > 0 {
        lemma_value_pos_low(buf, (i - 1) as nat);
    }
}

proof fn lemma_value_pos_high(buf: Seq<u8>, i: nat)
    requires
        request_ok(buf),
        i <= buf[0],
    ensures
        value_pos(buf, i) <= actions_pos(buf),
    decreases buf[0] - i,
{
    if i < buf[0] {
        lemma_value_pos_high(buf, i + 1);
        assert(value_fits(buf, value_pos(buf, i)));
    }
}

/// Checks that a request holds every byte its layout announces.
pub fn request_fits(request_buffer: &[u8]) -> (r: bool)
    ensures
        r == request_ok(request_buffer@),
{
    let ghost buf = request_buffer@;
    let len = request_buffer.len();
    if len == 0 {
        return false;
    }
    let value_count = request_buffer[0];
    let mut pos: usize = 1;
    let mut i: u8 = 0;
    while i < value_count
        invariant
            buf == request_buffer@,
            len == buf.len(),
            len >= 1,
            value_count == buf[0],
            i <= value_count,
            pos == value_pos(buf, i as nat),
            pos <= len,
            forall|k: nat| k < i ==> value_fits(buf, #[trigger] value_pos(buf, k)),
        decreases value_count - i,
    {
        if pos >= len {
            assert(!value_fits(buf, value_pos(buf, i as nat)));
            return false;
        }
        let value_len = request_buffer[pos];
        if value_len != 0 && value_len as usize + 1 >= len - pos {
            assert(!value_fits(buf, value_pos(buf, i as nat)));
            return false;
        }
        if value_len == 0 {
            pos = pos + 1;
        } else {
            pos = pos + value_len as usize + 2;
        }
        i = i + 1;
    }
    assert(pos == actions_pos(buf));
    if len - pos < 3 {
        return false;
    }
    request_buffer[pos + 2] as usize + 3 <= len - pos
}

/// Reads the flow entry a request describes.
pub fn parse_flow_entry(request_buffer: &[u8]) -> (r: FlowEntry)
    requires
        request_ok(request_buffer@),
    ensures
        entry_of_request(r, request_buffer@),
{
    let ghost buf = request_buffer@;
    let value_count = request_buffer[0];
    let mut values: Vec<MatchFieldValue> = Vec::new();
    let mut pos: usize = 1;
    let mut i: u8 = 0;
    while i < value_count
        invariant
            buf == request_buffer@,
            request_ok(buf),
            value_count == buf[0],
            i <= value_count,
            pos == value_pos(buf, i as nat),
            values@.len() == i,
            forall|k: int| 0 <= k < i ==> value_of_request(#[trigger] values@[k], buf, value_pos(buf, k as nat)),
        decreases value_count - i,
    {
        assert(value_fits(buf, value_pos(buf, i as nat)));
        proof {
            lemma_value_pos_grows(buf, (i + 1) as nat);
        }
        let value_len = request_buffer[pos];
        pos = pos + 1;
        if value_len == 0 {
            values.push(MatchFieldValue { value: None, prefix_mask: 0 });
        } else {
            let start = pos;
            let mut bytes: Vec<u8> = Vec::new();
            let mut j: u8 = 0;
            while j < value_len
                invariant
                    buf == request_buffer@,
                    start + value_len < buf.len(),
                    j <= value_len,
                    pos == start + j,
                    bytes@ == buf.subrange(start as int, start + j),
                decreases value_len - j,
            {
                bytes.push(request_buffer[pos]);
                pos = pos + 1;
                j = j + 1;
            }
            let prefix_mask = request_buffer[pos];
            pos = pos + 1;
            values.push(MatchFieldValue { value: Some(bytes), prefix_mask });
        }
        i = i + 1;
    }
    let ghost a = actions_pos(buf);
    proof {
        lemma_value_pos_grows(buf, buf[0] as nat);
    }
    let priority = request_buffer[pos];
    let action_id = request_buffer[pos + 1];
    let action_data_len = request_buffer[pos + 2];
    pos = pos + 3;
    let ghost d = buf.subrange(a + 3, a + 3 + action_data_len);
    let action_i32_len = action_data_len / 4;
    let action_i32_residue = action_data_len % 4;
    let mut action_data: Vec<i32> = Vec::new();
    let mut k: u8 = 0;
    while k < action_i32_len
        invariant
            buf == request_buffer@,
            0 <= a,
            a + 3 + action_data_len <= buf.len(),
            d == buf.subrange(a + 3, a + 3 + action_data_len),
            action_i32_len == action_data_len / 4,
            k <= action_i32_len,
            pos == a + 3 + 4 * k,
            action_data@.len() == k,
            forall|m: int| 0 <= m < k ==> #[trigger] action_data@[m] == le_word(d, 4 * m),
        decreases action_i32_len - k,
    {
        assert(4 * k + 4 <= action_data_len) by (nonlinear_arith)
            requires
                k < action_i32_len,
                action_i32_len == action_data_len / 4,
        ;
        let w: u32 = request_buffer[pos] as u32 + (request_buffer[pos + 1] as u32) * 0x100 + (request_buffer[pos
            + 2] as u32) * 0x10000 + (request_buffer[pos + 3] as u32) * 0x1000000;
        assert(d[4 * k] == buf[pos as int]);
        assert(d[4 * k + 1] == buf[pos + 1]);
        assert(d[4 * k + 2] == buf[pos + 2]);
        assert(d[4 * k + 3] == buf[pos + 3]);
        action_data.push(w as i32);
        pos = pos + 4;
        k = k + 1;
    }
    if action_i32_residue != 0 {
        let mut residue: u32 = 0;
        let mut t: u8 = 0;
        let ghost q = 4 * action_i32_len as int;
        assert(action_data_len == 4 * (action_data_len / 4) + action_data_len % 4) by (nonlinear_arith);
        while t < action_i32_residue
            invariant
                buf == request_buffer@,
                0 <= a,
            a + 3 + action_data_len <= buf.len(),
                d == buf.subrange(a + 3, a + 3 + action_data_len),
                q == 4 * (action_data_len / 4),
                action_i32_residue == action_data_len % 4,
                t <= action_i32_residue,
                pos == a + 3 + q + t,
                residue == (if t > 0 {
                    d[q] as int
                } else {
                    0
                }) + (if t > 1 {
                    d[q + 1] * 0x100
                } else {
                    0
                }) + (if t > 2 {
                    d[q + 2] * 0x10000
                } else {
                    0
                }),
            decreases action_i32_residue - t,
        {
            assert(d[q + t] == buf[pos as int]);
            if t == 0 {
                residue = residue + request_buffer[pos] as u32;
            } else if t == 1 {
                residue = residue + (request_buffer[pos] as u32) * 0x100;
            } else {
                residue = residue + (request_buffer[pos] as u32) * 0x10000;
            }
            pos = pos + 1;
            t = t + 1;
        }
        action_data.push(residue as i32);
    }
    assert(action_data@ =~= action_words(d));
    FlowEntry { values, priority, action: ActionSet { action_id, action_data } }
}

/// Whether a request to add a flow entry can be served by `add_flow_entry`:
/// it is complete, and the entry it describes can be filed in the table's
/// tree within the step bound of `Table::insert_fits`.
pub fn flow_entry_fits(table: &Table, request_buffer: &[u8]) -> (r: bool)
    requires
        table.wf(),
    ensures
        r == (request_ok(request_buffer@) && forall|e: FlowEntry| #[trigger]
            entry_of_request(e, request_buffer@) ==> table.tree.insert_fits_bounded(e)),
        r ==> forall|e: FlowEntry| #[trigger] entry_of_request(e, request_buffer@) ==> table.tree.insert_ready(e),
{
    if !request_fits(request_buffer) {
        return false;
    }
    let e0 = parse_flow_entry(request_buffer);
    if !table.insert_fits(&e0) {
        return false;
    }
    proof {
        let buf = request_buffer@;
        assert forall|e: FlowEntry| #[trigger] entry_of_request(e, buf) implies table.tree.insert_fits_bounded(e)
            && table.tree.insert_ready(e) by {
            let ki = table.tree.key_index() as int;
            assert(value_of_request(e.values@[ki], buf, value_pos(buf, ki as nat)));
            assert(value_of_request(e0.values@[ki], buf, value_pos(buf, ki as nat)));
            if let Tree::Avl(t) = table.tree {
                lemma_add_same_key(t, e0, e, t.vnodes().len());
                lemma_add_defined_by_key(t, e0, e);
            }
        }
    }
    true
}

/// Reads the flow entry a request describes and adds it to the table.
pub fn add_flow_entry(table: &mut Table, request_buffer: &[u8])
    requires
        old(table).wf(),
        request_ok(request_buffer@),
        forall|e: FlowEntry| #[trigger] entry_of_request(e, request_buffer@) ==> old(table).tree.insert_ready(e),
    ensures
        final(table).wf(),
        exists|e: FlowEntry| #[trigger]
            entry_of_request(e, request_buffer@) && old(table).tree.inserted(final(table).tree, e),
        final(table).tree_key_index == old(table).tree_key_index,
        final(table).keys == old(table).keys,
        final(table).default_entry == old(table).default_entry,
        final(table).header_list == old(table).header_list,
{
    let flow_entry = parse_flow_entry(request_buffer);
    let ghost e = flow_entry;
    table.insert(flow_entry);
    assert(entry_of_request(e, request_buffer@));
}

/// The listing of a table's entries, which is not implemented: always empty.
pub fn show_flow_entry(table: &Table) -> (r: String)
    ensures
        r@ == Seq::<char>::empty(),
{
    String::new()
}

/// The action data bytes of a request.
pub open spec fn action_data_bytes(buf: Seq<u8>) -> Seq<u8> {
    let a = actions_pos(buf);
    buf.subrange(a + 3, a + 3 + buf[a + 2])
}

/// Law of a flow entry request's action data: the entry it describes has
/// one word per four data bytes, plus one for any bytes left over; word `k`
/// of the whole words is the little-endian value of data bytes `4k` to
/// `4k + 3`, so the words keep the order of the request; the word for the
/// bytes left over takes them little-endian too. Its priority and action
/// number are the bytes after the match values.
pub proof fn law_request_action_data(buf: Seq<u8>, e: FlowEntry)
    requires
        request_ok(buf),
        entry_of_request(e, buf),
    ensures
        ({
            let d = action_data_bytes(buf);
            let w = e.action.action_data@;
            &&& w.len() == (d.len() + 3) / 4
            &&& forall|k: int|
                0 <= k < d.len() / 4 ==> #[trigger] w[k] == (d[4 * k] + d[4 * k + 1] * 256 + d[4 * k + 2] * 65536
                    + d[4 * k + 3] * 16777216) as i32
            &&& d.len() % 4 != 0 ==> {
                let q = d.len() as int / 4;
                let b = d.len() as int - d.len() as int % 4;
                w[q] == (d[b] + (if d.len() % 4 > 1 {
                    d[b + 1] * 256
                } else {
                    0
                }) + (if d.len() % 4 > 2 {
                    d[b + 2] * 65536
                } else {
                    0
                })) as i32
            }
            &&& e.priority == buf[actions_pos(buf)]
            &&& e.action.action_id == buf[actions_pos(buf) + 1]
        }),
{
    let d = action_data_bytes(buf);
    let w = e.action.action_data@;
    assert(w == action_words(d));
    assert forall|k: int| 0 <= k < d.len() / 4 implies #[trigger] w[k] == (d[4 * k] + d[4 * k + 1] * 256 + d[4 * k
        + 2] * 65536 + d[4 * k + 3] * 16777216) as i32 by {
        assert(w[k] == le_word(d, 4 * k));
    }
    if d.len() % 4 != 0 {
        let q = d.len() as int / 4;
        assert(4 * q == d.len() as int - d.len() as int % 4);
        assert(w[q] == residue_word(d, 4 * q, (d.len() % 4) as int));
    }
}

} // verus!

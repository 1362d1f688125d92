use vstd::prelude::*;

use crate::parse_result::{Header, ParseResult};

verus! {

// The calls a parser program makes while it parses a packet.

/// The length of the packet, as the parser program reads it.
pub fn pkt_get_len(pkt_len: usize) -> (r: i32)
    ensures
        r == pkt_len as i32,
{
    pkt_len as i32
}

/// The byte of the packet at `offset`.
pub fn pkt_read(pkt: &[u8], offset: i32) -> (r: i32)
    requires
        0 <= offset < pkt@.len(),
    ensures
        r == pkt@[offset as int],
{
    pkt[offset as usize] as i32
}

/// Rejects the packet.
pub fn pkt_drop(is_accept: &mut bool)
    ensures
        !*final(is_accept),
{
    *is_accept = false;
}

/// Records that the packet holds header type `hdr_id` at `offset`, taking
/// `hdr_size` bytes.
pub fn extract_hdr(parse_result: &mut ParseResult, hdr_id: i64, offset: i32, hdr_size: i32)
    requires
        0 <= hdr_id < old(parse_result).header_list@.len(),
        0 <= offset <= u16::MAX,
        old(parse_result).hdr_size + (hdr_size as usize) <= usize::MAX,
    ensures
        final(parse_result).hdr_size == old(parse_result).hdr_size + (hdr_size as usize),
        final(parse_result).header_list@ == old(parse_result).header_list@.update(
            hdr_id as int,
            Header { is_valid: true, offset: offset as u16 },
        ),
        final(parse_result).metadata == old(parse_result).metadata,
{
    let n = parse_result.header_list.len();
    parse_result.hdr_size = parse_result.hdr_size + hdr_size as usize;
    let offset16: u16 = offset as u16;
    let id = hdr_id as usize;
    assert(id == hdr_id);
    parse_result.header_list.set(id, Header { is_valid: true, offset: offset16 });
}

} // verus!

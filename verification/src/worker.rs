use vstd::prelude::*;

use crate::cache::{lemma_signed_len_bound, signed_key_len, signed_len, slot_holds, slots_ok, CacheElement};
use crate::hash::{l1_hash_function_murmurhash3, l2_hash_function_murmurhash3, murmur3};
use crate::header::{field_bytes, Field, Header};
use crate::parse_result::{Header as ParsedHeader, ParseResult};
use crate::table::{copy_actions, same_actions, ActionSet};
use crate::tss::{overlay, search_from, search_ready_from, slot_at, KeyStore, TupleSpace};

verus! {

/// What the workers learn about a packet on its way: where it came from,
/// how it parsed, the cache keys and hashes computed for it, and the actions
/// found for it (one per table) once a cache or the pipeline gave them.
pub struct PktAnalysisResult {
    pub rx_id: usize,
    pub cache_id: usize,
    pub parse_result: ParseResult,
    pub cache_data: Vec<ActionSet>,
    pub is_cache_hit: bool,
    pub l1_key: Vec<u8>,
    pub l1_key_len: usize,
    pub l1_hash: u16,
    pub l2_key: Vec<u8>,
    pub l2_key_len: u8,
    pub l2_hash: u16,
    pub is_lbf_hit: bool,
}

/// Where a pipeline sends a packet.
pub enum Output {
    Port(usize),
    All,
    Controller,
    Drop,
}

/// The 16-bit cache hash of the first `len` bytes.
pub open spec fn hash16(bytes: Seq<u8>, len: usize, seed: u32) -> u16 {
    murmur3(bytes, len as int, seed) as u16
}

/// The slot of `cache` for hash `h`.
pub open spec fn slot_of(cache: Seq<CacheElement>, h: u16) -> CacheElement {
    cache[h as int]
}

/// Round-robin step over `core_limit` cores: the core after `current_core`,
/// wrapping to 0 when the limit is reached.
pub fn next_core(current_core: usize, core_limit: usize) -> (r: usize)
    requires
        current_core < usize::MAX,
    ensures
        r == (if current_core + 1 == core_limit { 0 } else { current_core + 1 }),
{
    let mut c = current_core + 1;
    if c == core_limit {
        c = 0;
    }
    c
}

/// Whether bit `i` of `flag` is set.
pub open spec fn bit_set(flag: u64, i: int) -> bool {
    (flag >> (i as u64)) & 1 == 1
}

/// The lowest index in `lo..hi` whose bit is set in `flag`.
pub open spec fn first_set(flag: u64, lo: int, hi: int) -> Option<int>
    decreases hi - lo,
{
    if lo >= hi {
        None
    } else if bit_set(flag, lo) {
        Some(lo)
    } else {
        first_set(flag, lo + 1, hi)
    }
}

proof fn lemma_first_set_range(flag: u64, lo: int, hi: int)
    ensures
        first_set(flag, lo, hi) matches Some(i) ==> lo <= i < hi && bit_set(flag, i),
    decreases hi - lo,
{
    if lo < hi && !bit_set(flag, lo) {
        lemma_first_set_range(flag, lo + 1, hi);
    }
}

/// The core chosen from the flags in `core_flag`: the first set one from
/// `start_pos` up to `core_len`, else the first set one below `start_pos`,
/// else `core_len` (none is set).
pub open spec fn spec_select_cache_core(core_flag: u64, core_len: int, start_pos: int) -> int {
    match first_set(core_flag, start_pos, core_len) {
        Some(i) => i,
        None => match first_set(core_flag, 0, start_pos) {
            Some(i) => i,
            None => core_len,
        },
    }
}

fn flag_bit(core_flag: u64, i: usize) -> (r: bool)
    requires
        i < 64,
    ensures
        r == bit_set(core_flag, i as int),
{
    let b = ((core_flag & (1u64 << i)) >> i) == 1;
    assert(b == ((core_flag >> (i as u64)) & 1 == 1)) by (bit_vector)
        requires
            i < 64,
            b == (((core_flag & (1u64 << i)) >> i) == 1),
    ;
    b
}

/// Scans `lo..hi` for the first set flag.
fn scan_flags(core_flag: u64, lo: usize, hi: usize) -> (r: Option<usize>)
    requires
        hi <= 64,
    ensures
        r == (match first_set(core_flag, lo as int, hi as int) {
            Some(i) => Some(i as usize),
            None => None::<usize>,
        }),
        r matches Some(i) ==> i < hi,
    decreases hi - lo,
{
    proof {
        lemma_first_set_range(core_flag, lo as int, hi as int);
    }
    if lo >= hi {
        return None;
    }
    if flag_bit(core_flag, lo) {
        Some(lo)
    } else {
        scan_flags(core_flag, lo + 1, hi)
    }
}

/// Picks the cache core for a packet: the first core whose flag is set in
/// `core_flag`, searching from `start_pos` up to `core_len` and then from 0
/// up to `start_pos`; `core_len` when no flag is set.
pub fn select_cache_core(core_flag: u64, core_len: usize, start_pos: usize) -> (r: usize)
    requires
        core_len <= 64,
        start_pos <= 64,
    ensures
        r == spec_select_cache_core(core_flag, core_len as int, start_pos as int),
{
    proof {
        lemma_first_set_range(core_flag, start_pos as int, core_len as int);
        lemma_first_set_range(core_flag, 0, start_pos as int);
    }
    match scan_flags(core_flag, start_pos, core_len) {
        Some(i) => i,
        None => match scan_flags(core_flag, 0, start_pos) {
            Some(i) => i,
            None => core_len,
        },
    }
}

/// First-level cache lookup, keyed by the parsed headers (the first
/// `hdr_size` bytes of the packet): the hash of those bytes, and a copy of
/// the slot's actions when the slot holds exactly those bytes.
pub fn lookup_l1_cache(l1_cache: &Vec<CacheElement>, pkt: &[u8], hdr_size: usize, seed: u32) -> (r: (
    u16,
    Option<Vec<ActionSet>>,
))
    requires
        hdr_size <= pkt@.len(),
        hash16(pkt@, hdr_size, seed) < l1_cache@.len(),
        slots_ok(l1_cache@),
    ensures
        r.0 == hash16(pkt@, hdr_size, seed),
        r.1 is Some <==> slot_holds(slot_of(l1_cache@, r.0), pkt@, hdr_size),
        r.1 matches Some(d) ==> same_actions(d@, slot_of(l1_cache@, r.0).data@),
{
    let l1_hash = l1_hash_function_murmurhash3(pkt, hdr_size, seed);
    let cache_element = &l1_cache[usize::from(l1_hash)];
    proof {
        lemma_signed_len_bound(hdr_size, pkt@.len());
        assert(slots_ok(l1_cache@) ==> cache_element.key_len <= cache_element.key@.len());
    }
    if cache_element.cmp_ptr_key(pkt, signed_key_len(hdr_size)) {
        (l1_hash, Some(copy_actions(&cache_element.data)))
    } else {
        (l1_hash, None)
    }
}

/// Second-level cache lookup on the cache core, for a packet whose
/// load-balancer filter hit: a copy of the slot's actions when the slot at
/// the packet's second-level hash holds its second-level key.
pub fn lookup_l2_cache(l2_cache: &Vec<CacheElement>, result: &PktAnalysisResult) -> (r: Option<Vec<ActionSet>>)
    requires
        result.is_lbf_hit ==> {
            &&& result.l2_hash < l2_cache@.len()
            &&& slots_ok(l2_cache@)
            &&& result.l2_key_len <= result.l2_key@.len()
        },
    ensures
        r is Some <==> result.is_lbf_hit && slot_holds(slot_of(l2_cache@, result.l2_hash), result.l2_key@, key_len_of(result.l2_key_len)),
        r matches Some(d) ==> same_actions(d@, slot_of(l2_cache@, result.l2_hash).data@),
{
    if !result.is_lbf_hit {
        return None;
    }
    let cache_element = &l2_cache[usize::from(result.l2_hash)];
    let key_len = usize::from(result.l2_key_len);
    proof {
        lemma_signed_len_bound(key_len, result.l2_key@.len());
        assert(slots_ok(l2_cache@) ==> cache_element.key_len <= cache_element.key@.len());
    }
    if cache_element.cmp_ptr_key(result.l2_key.as_slice(), signed_key_len(key_len)) {
        Some(copy_actions(&cache_element.data))
    } else {
        None
    }
}

/// A second-level key length widened for indexing.
pub open spec fn key_len_of(n: u8) -> usize {
    n as usize
}

/// The cache core a packet goes to: the core whose flag is set for its
/// second-level hash (see `select_cache_core`), or, when none is,
/// `random_index`; the flag says whether the filter hit.
pub fn choose_cache_core(core_flag: u64, core_len: usize, random_index: usize) -> (r: (usize, bool))
    requires
        core_len <= 64,
        random_index <= 64,
    ensures
        ({
            let sel = spec_select_cache_core(core_flag, core_len as int, random_index as int);
            if sel == core_len {
                r == (random_index, false)
            } else {
                r == (sel as usize, true)
            }
        }),
{
    let cache_core_index = select_cache_core(core_flag, core_len, random_index);
    if cache_core_index == core_len {
        (random_index, false)
    } else {
        (cache_core_index, true)
    }
}

/// The key bytes of the first `k` of `fields`, read at header offset `base`.
pub open spec fn fields_key(fields: Seq<Field>, pkt: Seq<u8>, base: int, k: int) -> Seq<u8>
    decreases k,
{
    if k <= 0 {
        Seq::empty()
    } else {
        fields_key(fields, pkt, base, k - 1) + field_bytes(fields[k - 1], pkt, base)
    }
}

/// The number of bytes the first `k` of `fields` take.
pub open spec fn fields_width(fields: Seq<Field>, k: int) -> int
    decreases k,
{
    if k <= 0 {
        0
    } else {
        fields_width(fields, k - 1) + fields[k - 1].end_byte_pos - fields[k - 1].start_byte_pos + 1
    }
}

/// The second-level key of a packet, over its first `j` header types: the
/// key fields (`used_fields`) of each header the packet holds, in order.
pub open spec fn l2_key_bytes(headers: Seq<Header>, parsed: Seq<ParsedHeader>, pkt: Seq<u8>, j: int) -> Seq<u8>
    decreases j,
{
    if j <= 0 {
        Seq::empty()
    } else {
        let prev = l2_key_bytes(headers, parsed, pkt, j - 1);
        if parsed[j - 1].is_valid {
            let fields = headers[j - 1].used_fields@;
            prev + fields_key(fields, pkt, parsed[j - 1].offset as int, fields.len() as int)
        } else {
            prev
        }
    }
}

/// The number of bytes the second-level key over the first `j` header
/// types takes.
pub open spec fn l2_key_width(headers: Seq<Header>, parsed: Seq<ParsedHeader>, j: int) -> int
    decreases j,
{
    if j <= 0 {
        0
    } else {
        let prev = l2_key_width(headers, parsed, j - 1);
        if parsed[j - 1].is_valid {
            let fields = headers[j - 1].used_fields@;
            prev + fields_width(fields, fields.len() as int)
        } else {
            prev
        }
    }
}

/// Every key field of each header the packet holds lies inside the packet.
pub open spec fn l2_key_readable(headers: Seq<Header>, parsed: Seq<ParsedHeader>, pkt: Seq<u8>) -> bool {
    forall|j: int|
        0 <= j < parsed.len() && (#[trigger] parsed[j]).is_valid ==> {
            &&& j < headers.len()
            &&& forall|k: int|
                0 <= k < headers[j].used_fields@.len() ==> {
                    let f = #[trigger] headers[j].used_fields@[k];
                    &&& f.start_byte_pos <= f.end_byte_pos
                    &&& parsed[j].offset + f.end_byte_pos < pkt.len()
                }
        }
}

proof fn lemma_fields_key_len(fields: Seq<Field>, pkt: Seq<u8>, base: int, k: int)
    requires
        0 <= k <= fields.len(),
        forall|m: int| 0 <= m < fields.len() ==> (#[trigger] fields[m]).start_byte_pos <= fields[m].end_byte_pos,
    ensures
        fields_key(fields, pkt, base, k).len() == fields_width(fields, k),
        fields_width(fields, k) >= 0,
    decreases k,
{
    if k > 0 {
        lemma_fields_key_len(fields, pkt, base, k - 1);
        assert(fields[k - 1].start_byte_pos <= fields[k - 1].end_byte_pos);
    }
}

proof fn lemma_l2_key_len(headers: Seq<Header>, parsed: Seq<ParsedHeader>, pkt: Seq<u8>, j: int)
    requires
        0 <= j <= parsed.len(),
        l2_key_readable(headers, parsed, pkt),
    ensures
        l2_key_bytes(headers, parsed, pkt, j).len() == l2_key_width(headers, parsed, j),
        l2_key_width(headers, parsed, j) >= 0,
    decreases j,
{
    if j > 0 {
        lemma_l2_key_len(headers, parsed, pkt, j - 1);
        if parsed[j - 1].is_valid {
            let fields = headers[j - 1].used_fields@;
            assert forall|m: int| 0 <= m < fields.len() implies (#[trigger] fields[m]).start_byte_pos
                <= fields[m].end_byte_pos by {
                assert(parsed[j - 1].is_valid);
                let f = headers[j - 1].used_fields@[m];
            }
            lemma_fields_key_len(fields, pkt, parsed[j - 1].offset as int, fields.len() as int);
        }
    }
}

proof fn lemma_l2_width_mono(headers: Seq<Header>, parsed: Seq<ParsedHeader>, pkt: Seq<u8>, i: int, j: int)
    requires
        0 <= i <= j <= parsed.len(),
        l2_key_readable(headers, parsed, pkt),
    ensures
        l2_key_width(headers, parsed, i) <= l2_key_width(headers, parsed, j),
    decreases j,
{
    if i < j {
        lemma_l2_width_mono(headers, parsed, pkt, i, j - 1);
        lemma_l2_key_len(headers, parsed, pkt, j);
        lemma_l2_key_len(headers, parsed, pkt, j - 1);
    }
}

/// Builds the second-level key of a packet in `l2_key`: the key fields of
/// each header the packet holds, in order; returns its length, truncated to
/// a byte.
pub fn build_l2_key(header_list: &Vec<Header>, parse_result: &ParseResult, pkt: &[u8], l2_key: &mut Vec<u8>) -> (r: u8)
    requires
        l2_key_readable(header_list@, parse_result.header_list@, pkt@),
        l2_key_width(header_list@, parse_result.header_list@, parse_result.header_list@.len() as int)
            <= old(l2_key)@.len(),
    ensures
        ({
            let key = l2_key_bytes(header_list@, parse_result.header_list@, pkt@, parse_result.header_list@.len() as int);
            &&& final(l2_key)@ == overlay(key, old(l2_key)@)
            &&& r == key.len() as u8
        }),
{
    let ghost headers = header_list@;
    let ghost parsed = parse_result.header_list@;
    let ghost key0 = l2_key@;
    let n = parse_result.header_list.len();
    let cap = l2_key.len();
    let mut l2_key_next_offset: usize = 0;
    let mut j: usize = 0;
    proof {
        lemma_l2_key_len(headers, parsed, pkt@, n as int);
    }
    while j < n
        invariant
            headers == header_list@,
            parsed == parse_result.header_list@,
            n == parsed.len(),
            cap == key0.len(),
            l2_key_readable(headers, parsed, pkt@),
            l2_key_width(headers, parsed, n as int) <= cap,
            j <= n,
            l2_key_next_offset == l2_key_bytes(headers, parsed, pkt@, j as int).len(),
            l2_key_next_offset == l2_key_width(headers, parsed, j as int),
            l2_key@ == overlay(l2_key_bytes(headers, parsed, pkt@, j as int), key0),
            l2_key@.len() == key0.len(),
        decreases n - j,
    {
        proof {
            lemma_l2_width_mono(headers, parsed, pkt@, j + 1, n as int);
            lemma_l2_key_len(headers, parsed, pkt@, j + 1);
        }
        if parse_result.header_list[j].is_valid {
            assert(parsed[j as int].is_valid);
            let fields = &header_list[j].used_fields;
            let base = parse_result.header_list[j].offset as usize;
            let ghost prefix = l2_key_bytes(headers, parsed, pkt@, j as int);
            let ghost flds = fields@;
            proof {
                assert forall|m: int| 0 <= m < flds.len() implies (#[trigger] flds[m]).start_byte_pos
                    <= flds[m].end_byte_pos by {
                    let f = headers[j as int].used_fields@[m];
                }
                lemma_fields_key_len(flds, pkt@, base as int, flds.len() as int);
            }
            let mut k: usize = 0;
            while k < fields.len()
                invariant
                    flds == fields@,
                    fields@ == headers[j as int].used_fields@,
                    parsed[j as int].is_valid,
                    base == parsed[j as int].offset,
                    j < n,
                    n == parsed.len(),
                    cap == key0.len(),
                    l2_key_readable(headers, parsed, pkt@),
                    forall|m: int| 0 <= m < flds.len() ==> (#[trigger] flds[m]).start_byte_pos <= flds[m].end_byte_pos,
                    prefix.len() + fields_width(flds, flds.len() as int) <= cap,
                    k <= flds.len(),
                    l2_key_next_offset == prefix.len() + fields_width(flds, k as int),
                    l2_key@ == overlay(prefix + fields_key(flds, pkt@, base as int, k as int), key0),
                    l2_key@.len() == key0.len(),
                decreases flds.len() - k,
            {
                proof {
                    lemma_fields_key_len(flds, pkt@, base as int, k as int);
                    lemma_fields_width_mono(flds, k as int + 1, flds.len() as int);
                }
                let field = &fields[k];
                assert(parsed[j as int].offset + flds[k as int].end_byte_pos < pkt@.len());
                let ghost before = prefix + fields_key(flds, pkt@, base as int, k as int);
                let copied = field.copy_ptr_value(base, pkt, l2_key, l2_key_next_offset);
                proof {
                    let fb = field_bytes(*field, pkt@, base as int);
                    assert(fields_key(flds, pkt@, base as int, k + 1) == fields_key(flds, pkt@, base as int, k as int) + fb);
                    assert(prefix + fields_key(flds, pkt@, base as int, k + 1) =~= before + fb);
                    assert(l2_key@ =~= overlay(before + fb, key0));
                }
                l2_key_next_offset = l2_key_next_offset + copied;
                k = k + 1;
            }
            assert(l2_key_bytes(headers, parsed, pkt@, j + 1) == prefix + fields_key(flds, pkt@, base as int, flds.len() as int));
        }
        j = j + 1;
    }
    l2_key_next_offset as u8
}

proof fn lemma_fields_width_mono(fields: Seq<Field>, i: int, j: int)
    requires
        0 <= i <= j <= fields.len(),
        forall|m: int| 0 <= m < fields.len() ==> (#[trigger] fields[m]).start_byte_pos <= fields[m].end_byte_pos,
    ensures
        fields_width(fields, i) <= fields_width(fields, j),
    decreases j,
{
    if i < j {
        lemma_fields_width_mono(fields, i, j - 1);
        assert(fields[j - 1].start_byte_pos <= fields[j - 1].end_byte_pos);
    }
}

/// `dst` after the elements of `src` were copied over its start.
pub open spec fn copied_over<T>(dst: Seq<T>, src: Seq<T>) -> Seq<T> {
    src + dst.skip(src.len() as int)
}

fn copy_key(src: &Vec<u8>, dst: &mut Vec<u8>)
    requires
        src@.len() <= old(dst)@.len(),
    ensures
        final(dst)@ == copied_over(old(dst)@, src@),
{
    let ghost d0 = dst@;
    let mut i: usize = 0;
    while i < src.len()
        invariant
            src@.len() <= d0.len(),
            i <= src@.len(),
            dst@ == copied_over(d0, src@.take(i as int)),
        decreases src@.len() - i,
    {
        dst.set(i, src[i]);
        i = i + 1;
        assert(dst@ =~= copied_over(d0, src@.take(i as int)));
    }
    assert(src@.take(i as int) =~= src@);
}

fn copy_data(src: &Vec<ActionSet>, dst: &mut Vec<ActionSet>)
    requires
        src@.len() <= old(dst)@.len(),
    ensures
        final(dst)@.len() == old(dst)@.len(),
        same_actions(final(dst)@.take(src@.len() as int), src@),
        final(dst)@.skip(src@.len() as int) == old(dst)@.skip(src@.len() as int),
{
    let ghost d0 = dst@;
    let mut i: usize = 0;
    while i < src.len()
        invariant
            src@.len() <= d0.len(),
            i <= src@.len(),
            dst@.len() == d0.len(),
            forall|k: int| 0 <= k < i ==> (#[trigger] dst@[k]).same_action(src@[k]),
            forall|k: int| i <= k < d0.len() ==> #[trigger] dst@[k] == d0[k],
        decreases src@.len() - i,
    {
        let a = src[i].clone();
        dst.set(i, a);
        i = i + 1;
    }
    assert(dst@.skip(src@.len() as int) =~= d0.skip(src@.len() as int));
}

/// The slot after `fill_slot`: the key copied over its key, the key length
/// set, the actions copied over its actions.
pub open spec fn slot_filled(before: CacheElement, after: CacheElement, key: Seq<u8>, key_len: isize, data: Seq<ActionSet>) -> bool {
    &&& after.key_len == key_len
    &&& after.key@ == copied_over(before.key@, key)
    &&& after.data@.len() == before.data@.len()
    &&& same_actions(after.data@.take(data.len() as int), data)
    &&& after.data@.skip(data.len() as int) == before.data@.skip(data.len() as int)
}

fn fill_slot(slot: &mut CacheElement, key: &Vec<u8>, key_len: isize, data: &Vec<ActionSet>)
    requires
        key@.len() <= old(slot).key@.len(),
        data@.len() <= old(slot).data@.len(),
    ensures
        slot_filled(*old(slot), *final(slot), key@, key_len, data@),
{
    slot.key_len = key_len;
    copy_key(key, &mut slot.key);
    copy_data(data, &mut slot.data);
}

/// The caches after `create_new_cache` filed `result`: the first-level slot
/// of its receive core and the second-level slot of its cache core took its
/// keys and actions; nothing else changed.
pub open spec fn cache_filled(
    l1_before: Seq<Vec<CacheElement>>,
    l1_after: Seq<Vec<CacheElement>>,
    l2_before: Seq<Vec<Vec<CacheElement>>>,
    l2_after: Seq<Vec<Vec<CacheElement>>>,
    result: PktAnalysisResult,
) -> bool {
    let rx = result.rx_id as int;
    let cid = result.cache_id as int;
    let h1 = result.l1_hash as int;
    let h2 = result.l2_hash as int;
    &&& l1_after.len() == l1_before.len()
    &&& forall|i: int| 0 <= i < l1_before.len() && i != rx ==> l1_after[i] == l1_before[i]
    &&& l1_after[rx]@.len() == l1_before[rx]@.len()
    &&& forall|s: int| 0 <= s < l1_before[rx]@.len() && s != h1 ==> l1_after[rx]@[s] == l1_before[rx]@[s]
    &&& slot_filled(
        l1_before[rx]@[h1],
        l1_after[rx]@[h1],
        result.l1_key@,
        signed_len(result.l1_key_len),
        result.cache_data@,
    )
    &&& l2_after.len() == l2_before.len()
    &&& forall|i: int| 0 <= i < l2_before.len() && i != rx ==> l2_after[i] == l2_before[i]
    &&& l2_after[rx]@.len() == l2_before[rx]@.len()
    &&& forall|c: int| 0 <= c < l2_before[rx]@.len() && c != cid ==> l2_after[rx]@[c] == l2_before[rx]@[c]
    &&& l2_after[rx]@[cid]@.len() == l2_before[rx]@[cid]@.len()
    &&& forall|s: int| 0 <= s < l2_before[rx]@[cid]@.len() && s != h2 ==> l2_after[rx]@[cid]@[s] == l2_before[rx]@[cid]@[s]
    &&& slot_filled(
        l2_before[rx]@[cid]@[h2],
        l2_after[rx]@[cid]@[h2],
        result.l2_key@,
        signed_len(result.l2_key_len as usize),
        result.cache_data@,
    )
}

/// The caches after `create_cache` filed `result`: as `create_new_cache`
/// leaves them, and the load-balancer filter marks the result's cache core
/// for its second-level hash.
pub open spec fn cache_created(
    l1_before: Seq<Vec<CacheElement>>,
    l1_after: Seq<Vec<CacheElement>>,
    l2_before: Seq<Vec<Vec<CacheElement>>>,
    l2_after: Seq<Vec<Vec<CacheElement>>>,
    lbf_before: Seq<Vec<u64>>,
    lbf_after: Seq<Vec<u64>>,
    result: PktAnalysisResult,
) -> bool {
    let rx = result.rx_id as int;
    let h2 = result.l2_hash as int;
    &&& cache_filled(l1_before, l1_after, l2_before, l2_after, result)
    &&& lbf_after.len() == lbf_before.len()
    &&& forall|i: int| 0 <= i < lbf_before.len() && i != rx ==> lbf_after[i] == lbf_before[i]
    &&& lbf_after[rx]@ == lbf_before[rx]@.update(h2, lbf_before[rx]@[h2] | (1u64 << result.cache_id))
}

/// What `create_new_cache` needs to file a packet's result: the slots its
/// hashes name exist and can hold its keys and actions.
pub open spec fn slots_ready(
    l1_cache_list: Seq<Vec<CacheElement>>,
    l2_cache_list: Seq<Vec<Vec<CacheElement>>>,
    result: PktAnalysisResult,
) -> bool {
    let rx = result.rx_id as int;
    &&& rx < l1_cache_list.len()
    &&& result.l1_hash < l1_cache_list[rx]@.len()
    &&& result.l1_key@.len() <= slot_of(l1_cache_list[rx]@, result.l1_hash).key@.len()
    &&& result.cache_data@.len() <= slot_of(l1_cache_list[rx]@, result.l1_hash).data@.len()
    &&& rx < l2_cache_list.len()
    &&& result.cache_id < l2_cache_list[rx]@.len()
    &&& result.l2_hash < l2_cache_list[rx]@[result.cache_id as int]@.len()
    &&& result.l2_key@.len() <= slot_of(l2_cache_list[rx]@[result.cache_id as int]@, result.l2_hash).key@.len()
    &&& result.cache_data@.len() <= slot_of(l2_cache_list[rx]@[result.cache_id as int]@, result.l2_hash).data@.len()
}

/// What the cache creater needs to file a packet's result: the slots are
/// ready, and the cache core it went through has a flag.
pub open spec fn cache_ready(
    l1_cache_list: Seq<Vec<CacheElement>>,
    l2_cache_list: Seq<Vec<Vec<CacheElement>>>,
    lbf_list: Seq<Vec<u64>>,
    result: PktAnalysisResult,
) -> bool {
    &&& slots_ready(l1_cache_list, l2_cache_list, result)
    &&& (result.rx_id as int) < lbf_list.len()
    &&& result.l2_hash < lbf_list[result.rx_id as int]@.len()
    &&& result.cache_id < 64
}

/// Files the result of a packet that went through the pipeline in the
/// caches: the first-level slot of its receive core and the second-level
/// slot of its cache core take its keys and actions. Nothing else changes.
pub fn create_new_cache(
    l1_cache_list: &mut Vec<Vec<CacheElement>>,
    l2_cache_list: &mut Vec<Vec<Vec<CacheElement>>>,
    result: &PktAnalysisResult,
)
    requires
        slots_ready(old(l1_cache_list)@, old(l2_cache_list)@, *result),
    ensures
        cache_filled(old(l1_cache_list)@, final(l1_cache_list)@, old(l2_cache_list)@, final(l2_cache_list)@, *result),
{
    let rx = result.rx_id;
    let h1 = result.l1_hash as usize;
    let h2 = result.l2_hash as usize;
    let cid = result.cache_id;
    fill_slot(&mut l1_cache_list[rx][h1], &result.l1_key, result.l1_key_len as isize, &result.cache_data);
    fill_slot(&mut l2_cache_list[rx][cid][h2], &result.l2_key, result.l2_key_len as isize, &result.cache_data);
}

/// Files the result of a packet that went through the pipeline (see
/// `create_new_cache`), and the load-balancer filter marks its cache core
/// for its second-level hash. Nothing else changes.
pub fn create_cache(
    l1_cache_list: &mut Vec<Vec<CacheElement>>,
    l2_cache_list: &mut Vec<Vec<Vec<CacheElement>>>,
    lbf_list: &mut Vec<Vec<u64>>,
    result: &PktAnalysisResult,
)
    requires
        cache_ready(old(l1_cache_list)@, old(l2_cache_list)@, old(lbf_list)@, *result),
    ensures
        cache_created(
            old(l1_cache_list)@,
            final(l1_cache_list)@,
            old(l2_cache_list)@,
            final(l2_cache_list)@,
            old(lbf_list)@,
            final(lbf_list)@,
            *result,
        ),
{
    create_new_cache(l1_cache_list, l2_cache_list, result);
    let rx = result.rx_id;
    let h2 = result.l2_hash as usize;
    let flag = lbf_list[rx][h2] | (1u64 << result.cache_id);
    lbf_list[rx].set(h2, flag);
}

/// Keeps the first-level key of a packet that went through the pipeline:
/// its parsed headers, the first `hdr_size` bytes of the packet.
pub fn record_l1_key(result: &mut PktAnalysisResult, pkt: &[u8])
    requires
        old(result).parse_result.hdr_size <= pkt@.len(),
        old(result).parse_result.hdr_size <= old(result).l1_key@.len(),
    ensures
        final(result).l1_key_len == old(result).parse_result.hdr_size,
        final(result).l1_key@ == copied_over(old(result).l1_key@, pkt@.take(old(result).parse_result.hdr_size as int)),
        final(result).rx_id == old(result).rx_id,
        final(result).cache_id == old(result).cache_id,
        final(result).parse_result == old(result).parse_result,
        final(result).cache_data == old(result).cache_data,
        final(result).is_cache_hit == old(result).is_cache_hit,
        final(result).l1_hash == old(result).l1_hash,
        final(result).l2_key == old(result).l2_key,
        final(result).l2_key_len == old(result).l2_key_len,
        final(result).l2_hash == old(result).l2_hash,
        final(result).is_lbf_hit == old(result).is_lbf_hit,
{
    let n = result.parse_result.hdr_size;
    result.l1_key_len = n;
    let ghost k0 = result.l1_key@;
    let mut i: usize = 0;
    while i < n
        invariant
            n == result.parse_result.hdr_size,
            n <= pkt@.len(),
            n <= k0.len(),
            i <= n,
            result.l1_key@ == copied_over(k0, pkt@.take(i as int)),
            result.l1_key_len == n,
            result.rx_id == old(result).rx_id,
            result.cache_id == old(result).cache_id,
            result.parse_result == old(result).parse_result,
            result.cache_data == old(result).cache_data,
            result.is_cache_hit == old(result).is_cache_hit,
            result.l1_hash == old(result).l1_hash,
            result.l2_key == old(result).l2_key,
            result.l2_key_len == old(result).l2_key_len,
            result.l2_hash == old(result).l2_hash,
            result.is_lbf_hit == old(result).is_lbf_hit,
            k0 == old(result).l1_key@,
        decreases n - i,
    {
        result.l1_key.set(i, pkt[i]);
        i = i + 1;
        assert(result.l1_key@ =~= copied_over(k0, pkt@.take(i as int)));
    }
}

/// The transmit queue a packet goes to: for an output port, the port's
/// next queue in turn; no queue for the other outputs.
pub fn tx_queue_of(next_tx_queue_list: &Vec<usize>, output: &Output) -> (r: Option<(usize, usize)>)
    requires
        output matches Output::Port(p) ==> p < next_tx_queue_list@.len(),
    ensures
        r == (match output {
            Output::Port(p) => Some((*p, next_tx_queue_list@[*p as int])),
            _ => None,
        }),
{
    match output {
        Output::Port(port_num) => Some((*port_num, next_tx_queue_list[*port_num])),
        _ => None,
    }
}

/// The turn of a port's transmit queues after a packet was handed to the
/// queue `tx_queue_of` names (an enqueue reports no failure), and whether
/// the packet goes on: a packet to a port moves the port's turn to its next
/// queue, wrapping after the last; one to all ports or to the controller
/// goes on with no queue used; a dropped one does not go on.
pub open spec fn spec_output_pkt(next: Seq<usize>, queue_counts: Seq<usize>, output: Output) -> (Seq<usize>, bool) {
    match output {
        Output::Port(p) => {
            let q = next[p as int] + 1;
            (next.update(p as int, if q >= queue_counts[p as int] { 0 } else { q as usize }), true)
        },
        Output::All => (next, true),
        Output::Controller => (next, true),
        Output::Drop => (next, false),
    }
}

/// Bookkeeping after a packet was handed on (see `spec_output_pkt`).
pub fn output_pkt(next_tx_queue_list: &mut Vec<usize>, queue_counts: &Vec<usize>, output: &Output) -> (r: bool)
    requires
        output matches Output::Port(p) ==> p < old(next_tx_queue_list)@.len() && p < queue_counts@.len()
            && old(next_tx_queue_list)@[p as int] < usize::MAX,
    ensures
        (final(next_tx_queue_list)@, r) == spec_output_pkt(old(next_tx_queue_list)@, queue_counts@, *output),
{
    match output {
        Output::Port(port_num) => {
            let p = *port_num;
            let mut q = next_tx_queue_list[p] + 1;
            if q >= queue_counts[p] {
                q = 0;
            }
            next_tx_queue_list.set(p, q);
            true
        },
        Output::All => true,
        Output::Controller => true,
        Output::Drop => false,
    }
}

/// The transmit counters `(sent, lost)` after a batch of which `sent` of
/// `dequeued` packets went out and the rest were lost.
pub open spec fn tx_step(counts: (int, int), dequeued: int, sent: int) -> (int, int) {
    (counts.0 + sent, counts.1 + (dequeued - sent))
}

/// The transmit counters after a run of batches `(dequeued, sent)`, counted
/// from zero.
pub open spec fn tx_counters(batches: Seq<(u64, u64)>) -> (int, int)
    decreases batches.len(),
{
    if batches.len() == 0 {
        (0, 0)
    } else {
        let b = batches.last();
        tx_step(tx_counters(batches.drop_last()), b.0 as int, b.1 as int)
    }
}

/// The packets of a run of batches that were dequeued.
pub open spec fn total_dequeued(batches: Seq<(u64, u64)>) -> int
    decreases batches.len(),
{
    if batches.len() == 0 {
        0
    } else {
        total_dequeued(batches.drop_last()) + batches.last().0
    }
}

/// The packets of a run of batches that went out.
pub open spec fn total_sent(batches: Seq<(u64, u64)>) -> int
    decreases batches.len(),
{
    if batches.len() == 0 {
        0
    } else {
        total_sent(batches.drop_last()) + batches.last().1
    }
}

/// The transmit counters after a batch: `sent` of `dequeued` packets went out,
/// the rest are lost.
pub fn count_tx(send_count: u64, loss_count: u64, dequeued: u64, sent: u64) -> (r: (u64, u64))
    requires
        sent <= dequeued,
        send_count + sent <= u64::MAX,
        loss_count + (dequeued - sent) <= u64::MAX,
    ensures
        r == ((send_count + sent) as u64, (loss_count + (dequeued - sent)) as u64),
        (r.0 as int, r.1 as int) == tx_step((send_count as int, loss_count as int), dequeued as int, sent as int),
{
    (send_count + sent, loss_count + (dequeued - sent))
}

/// Second-level hash of a built key: its first `l2_key_len` bytes.
pub fn l2_hash_of(l2_key: &Vec<u8>, l2_key_len: u8, seed: u32) -> (r: u16)
    requires
        l2_key_len <= l2_key@.len(),
    ensures
        r == hash16(l2_key@, l2_key_len as usize, seed),
{
    l2_hash_function_murmurhash3(l2_key.as_slice(), l2_key_len as usize, seed)
}

/// The receive core's turn-taking: the pipeline core its next first-level
/// hit goes to, and the cache core a packet goes to when the filter names
/// none.
pub struct RxState {
    pub next_pipeline_core: usize,
    pub random_cache_core_index: usize,
}

/// Where the receive core hands a packet.
pub enum RxAction {
    Drop,
    Pipeline(usize),
    Cache(usize),
}

/// Whether a parsed packet hits the first-level cache.
pub open spec fn rx_l1_hit(l1_cache: Seq<CacheElement>, pkt: Seq<u8>, p: ParseResult, l1_seed: u32) -> bool {
    slot_holds(slot_of(l1_cache, hash16(pkt, p.hdr_size, l1_seed)), pkt, p.hdr_size)
}

/// The second-level key bytes of a parsed packet.
pub open spec fn rx_l2_key_bytes(headers: Seq<Header>, p: ParseResult, pkt: Seq<u8>) -> Seq<u8> {
    l2_key_bytes(headers, p.header_list@, pkt, p.header_list@.len() as int)
}

/// The key buffer after the second-level key of a parsed packet was
/// written over `buf`.
pub open spec fn rx_l2_key(headers: Seq<Header>, p: ParseResult, pkt: Seq<u8>, buf: Seq<u8>) -> Seq<u8> {
    overlay(rx_l2_key_bytes(headers, p, pkt), buf)
}

/// The recorded length of the second-level key of a parsed packet (a byte).
pub open spec fn rx_l2_len(headers: Seq<Header>, p: ParseResult, pkt: Seq<u8>) -> u8 {
    rx_l2_key_bytes(headers, p, pkt).len() as u8
}

/// The second-level hash of a parsed packet, over its key written into
/// `buf`.
pub open spec fn rx_l2_hash(headers: Seq<Header>, p: ParseResult, pkt: Seq<u8>, buf: Seq<u8>, l2_seed: u32) -> u16 {
    hash16(rx_l2_key(headers, p, pkt, buf), rx_l2_len(headers, p, pkt) as usize, l2_seed)
}

/// What a receive step reads lies where it reads it: for a packet that
/// parsed, its first-level hash names a slot; on a hit, the pipeline core
/// in turn exists; on a miss, the key fields lie in the packet and fit the
/// key buffer, the second-level hash names a filter entry, and there are
/// between 1 and 64 cache cores with the turn on one of them.
pub open spec fn rx_ready(
    state: RxState,
    key_buf: Seq<u8>,
    l1_cache: Seq<CacheElement>,
    lbf: Seq<u64>,
    headers: Seq<Header>,
    pkt: Seq<u8>,
    parsed: Option<ParseResult>,
    n_pipe: usize,
    n_cache: usize,
    l1_seed: u32,
    l2_seed: u32,
) -> bool {
    pkt.len() > 0 && parsed is Some ==> {
        let p = parsed->0;
        &&& p.hdr_size <= pkt.len()
        &&& hash16(pkt, p.hdr_size, l1_seed) < l1_cache.len()
        &&& slots_ok(l1_cache)
        &&& rx_l1_hit(l1_cache, pkt, p, l1_seed) ==> state.next_pipeline_core < n_pipe
        &&& !rx_l1_hit(l1_cache, pkt, p, l1_seed) ==> {
            &&& l2_key_readable(headers, p.header_list@, pkt)
            &&& l2_key_width(headers, p.header_list@, p.header_list@.len() as int) <= key_buf.len()
            &&& rx_l2_hash(headers, p, pkt, key_buf, l2_seed) < lbf.len()
            &&& 1 <= n_cache <= 64
            &&& state.random_cache_core_index < n_cache
        }
    }
}

/// One packet on the receive core, after the parser ran (`parsed`, `None`
/// when it refused the packet): an empty or unparsed packet is dropped. A
/// parsed packet that hits the first-level cache takes the slot's actions
/// and goes to the pipeline core in turn, and the turn moves on. Otherwise
/// its first-level hash, second-level key, key length and hash are kept,
/// the load-balancer filter entry at that hash picks the cache core (see
/// `choose_cache_core`, with the cache-core turn as fallback), and the
/// cache-core turn moves on.
pub fn rx_step(
    state: &mut RxState,
    result: &mut PktAnalysisResult,
    l1_cache: &Vec<CacheElement>,
    lbf: &Vec<u64>,
    header_list: &Vec<Header>,
    pkt: &[u8],
    parsed: Option<ParseResult>,
    n_pipe: usize,
    n_cache: usize,
    l1_seed: u32,
    l2_seed: u32,
) -> (r: RxAction)
    requires
        rx_ready(
            *old(state),
            old(result).l2_key@,
            l1_cache@,
            lbf@,
            header_list@,
            pkt@,
            parsed,
            n_pipe,
            n_cache,
            l1_seed,
            l2_seed,
        ),
    ensures
        pkt@.len() == 0 || parsed is None ==> {
            &&& r == RxAction::Drop
            &&& *final(state) == *old(state)
            &&& *final(result) == *old(result)
        },
        pkt@.len() > 0 && parsed is Some ==> {
            let p = parsed->0;
            let h1 = hash16(pkt@, p.hdr_size, l1_seed);
            &&& final(result).parse_result == p
            &&& final(result).rx_id == old(result).rx_id
            &&& final(result).cache_id == old(result).cache_id
            &&& final(result).l1_key == old(result).l1_key
            &&& final(result).l1_key_len == old(result).l1_key_len
            &&& if rx_l1_hit(l1_cache@, pkt@, p, l1_seed) {
                &&& r == RxAction::Pipeline(old(state).next_pipeline_core)
                &&& final(state).next_pipeline_core == (if old(state).next_pipeline_core + 1 == n_pipe {
                    0
                } else {
                    old(state).next_pipeline_core + 1
                })
                &&& final(state).random_cache_core_index == old(state).random_cache_core_index
                &&& final(result).is_cache_hit
                &&& same_actions(final(result).cache_data@, slot_of(l1_cache@, h1).data@)
                &&& final(result).l1_hash == old(result).l1_hash
                &&& final(result).l2_key == old(result).l2_key
                &&& final(result).l2_key_len == old(result).l2_key_len
                &&& final(result).l2_hash == old(result).l2_hash
                &&& final(result).is_lbf_hit == old(result).is_lbf_hit
            } else {
                let h2 = rx_l2_hash(header_list@, p, pkt@, old(result).l2_key@, l2_seed);
                let ri = old(state).random_cache_core_index;
                let sel = spec_select_cache_core(lbf@[h2 as int], n_cache as int, ri as int);
                &&& r == RxAction::Cache(if sel == n_cache { ri } else { sel as usize })
                &&& final(result).is_lbf_hit == (sel != n_cache)
                &&& final(state).random_cache_core_index == (if ri + 1 == n_cache { 0 } else { ri + 1 })
                &&& final(state).next_pipeline_core == old(state).next_pipeline_core
                &&& !final(result).is_cache_hit
                &&& final(result).cache_data == old(result).cache_data
                &&& final(result).l1_hash == h1
                &&& final(result).l2_key@ == rx_l2_key(header_list@, p, pkt@, old(result).l2_key@)
                &&& final(result).l2_key_len == rx_l2_len(header_list@, p, pkt@)
                &&& final(result).l2_hash == h2
            }
        },
        r matches RxAction::Pipeline(c) ==> c < n_pipe,
        r matches RxAction::Cache(c) ==> c < n_cache,
        old(state).next_pipeline_core < n_pipe && old(state).random_cache_core_index < n_cache ==> {
            &&& final(state).next_pipeline_core < n_pipe
            &&& final(state).random_cache_core_index < n_cache
        },
{
    if pkt.len() == 0 {
        return RxAction::Drop;
    }
    let p = match parsed {
        Some(p) => p,
        None => return RxAction::Drop,
    };
    result.parse_result = p;
    result.is_cache_hit = false;
    let (l1_hash, hit) = lookup_l1_cache(l1_cache, pkt, result.parse_result.hdr_size, l1_seed);
    match hit {
        Some(data) => {
            result.cache_data = data;
            result.is_cache_hit = true;
            let core = state.next_pipeline_core;
            state.next_pipeline_core = next_core(core, n_pipe);
            RxAction::Pipeline(core)
        },
        None => {
            result.is_lbf_hit = false;
            result.l1_hash = l1_hash;
            let len = build_l2_key(header_list, &result.parse_result, pkt, &mut result.l2_key);
            result.l2_key_len = len;
            proof {
                lemma_l2_key_len(header_list@, result.parse_result.header_list@, pkt@, result.parse_result.header_list@.len() as int);
            }
            let l2_hash = l2_hash_of(&result.l2_key, len, l2_seed);
            result.l2_hash = l2_hash;
            let ri = state.random_cache_core_index;
            let flag = lbf[l2_hash as usize];
            proof {
                law_select_cache_core(flag, n_cache as int, ri as int);
            }
            let (core, lbf_hit) = choose_cache_core(flag, n_cache, ri);
            result.is_lbf_hit = lbf_hit;
            state.random_cache_core_index = next_core(ri, n_cache);
            RxAction::Cache(core)
        },
    }
}

/// One packet on cache core `cache_id`: the packet is marked as handled
/// there; when its load-balancer filter hit and the second-level cache slot
/// at its hash holds its key, it takes the slot's actions and counts as a
/// cache hit. Either way it goes to the pipeline core in turn, whose number
/// is returned, and the turn moves on.
pub fn cache_step(
    next_pipeline_core: &mut usize,
    result: &mut PktAnalysisResult,
    l2_cache: &Vec<CacheElement>,
    cache_id: usize,
    n_pipe: usize,
) -> (r: usize)
    requires
        *old(next_pipeline_core) < n_pipe,
        old(result).is_lbf_hit ==> {
            &&& old(result).l2_hash < l2_cache@.len()
            &&& slots_ok(l2_cache@)
            &&& old(result).l2_key_len <= old(result).l2_key@.len()
        },
    ensures
        r == *old(next_pipeline_core),
        r < n_pipe,
        *final(next_pipeline_core) == (if r + 1 == n_pipe { 0 } else { r + 1 }),
        final(result).cache_id == cache_id,
        ({
            let hit = old(result).is_lbf_hit && slot_holds(
                slot_of(l2_cache@, old(result).l2_hash),
                old(result).l2_key@,
                key_len_of(old(result).l2_key_len),
            );
            &&& final(result).is_cache_hit == hit
            &&& hit ==> same_actions(final(result).cache_data@, slot_of(l2_cache@, old(result).l2_hash).data@)
            &&& !hit ==> final(result).cache_data == old(result).cache_data
        }),
        final(result).rx_id == old(result).rx_id,
        final(result).parse_result == old(result).parse_result,
        final(result).l1_key == old(result).l1_key,
        final(result).l1_key_len == old(result).l1_key_len,
        final(result).l1_hash == old(result).l1_hash,
        final(result).l2_key == old(result).l2_key,
        final(result).l2_key_len == old(result).l2_key_len,
        final(result).l2_hash == old(result).l2_hash,
        final(result).is_lbf_hit == old(result).is_lbf_hit,
{
    result.cache_id = cache_id;
    result.is_cache_hit = false;
    if let Some(data) = lookup_l2_cache(l2_cache, result) {
        result.cache_data = data;
        result.is_cache_hit = true;
    }
    let core = *next_pipeline_core;
    *next_pipeline_core = next_core(core, n_pipe);
    core
}

/// What the pipeline core does with a packet once its program chose the
/// output: whether the packet's analysis goes to the cache creator, the
/// transmit queue `(port, queue)` it is handed to, if any, and whether the
/// packet goes on (a dropped one is freed).
pub struct PipelineAction {
    pub to_cache_creater: bool,
    pub tx_queue: Option<(usize, usize)>,
    pub forwarded: bool,
}

/// `after` is `before` with the packet's parsed headers (the first
/// `hdr_size` bytes) kept as its first-level key, and nothing else changed.
pub open spec fn l1_key_recorded(before: PktAnalysisResult, after: PktAnalysisResult, pkt: Seq<u8>) -> bool {
    &&& after.l1_key_len == before.parse_result.hdr_size
    &&& after.l1_key@ == copied_over(before.l1_key@, pkt.take(before.parse_result.hdr_size as int))
    &&& after.rx_id == before.rx_id
    &&& after.cache_id == before.cache_id
    &&& after.parse_result == before.parse_result
    &&& after.cache_data == before.cache_data
    &&& after.is_cache_hit == before.is_cache_hit
    &&& after.l1_hash == before.l1_hash
    &&& after.l2_key == before.l2_key
    &&& after.l2_key_len == before.l2_key_len
    &&& after.l2_hash == before.l2_hash
    &&& after.is_lbf_hit == before.is_lbf_hit
}

/// One packet on the pipeline core, after its program chose `output`: a
/// packet that missed the caches has its first-level key recorded and goes
/// to the cache creator; then the packet is handed to the output port's
/// queue in turn (see `tx_queue_of`, `output_pkt`).
pub fn pipeline_step(
    next_tx_queue_list: &mut Vec<usize>,
    queue_counts: &Vec<usize>,
    result: &mut PktAnalysisResult,
    pkt: &[u8],
    output: &Output,
) -> (r: PipelineAction)
    requires
        !old(result).is_cache_hit ==> {
            &&& old(result).parse_result.hdr_size <= pkt@.len()
            &&& old(result).parse_result.hdr_size <= old(result).l1_key@.len()
        },
        output matches Output::Port(p) ==> p < old(next_tx_queue_list)@.len() && p < queue_counts@.len()
            && old(next_tx_queue_list)@[p as int] < usize::MAX,
    ensures
        r.to_cache_creater == !old(result).is_cache_hit,
        r.to_cache_creater ==> l1_key_recorded(*old(result), *final(result), pkt@),
        !r.to_cache_creater ==> *final(result) == *old(result),
        r.tx_queue == (match *output {
            Output::Port(p) => Some((p, old(next_tx_queue_list)@[p as int])),
            _ => None,
        }),
        (final(next_tx_queue_list)@, r.forwarded) == spec_output_pkt(old(next_tx_queue_list)@, queue_counts@, *output),
{
    let to_cache_creater = !result.is_cache_hit;
    if to_cache_creater {
        record_l1_key(result, pkt);
    }
    let tx_queue = tx_queue_of(next_tx_queue_list, output);
    let forwarded = output_pkt(next_tx_queue_list, queue_counts, output);
    PipelineAction { to_cache_creater, tx_queue, forwarded }
}

/// What the single core does with a packet: drop it, run the cache pipeline
/// with the actions found, or run the full pipeline.
pub enum SingleCoreAction {
    Drop,
    Hit(Vec<ActionSet>),
    Miss,
}

/// What a single-core step reads lies where it reads it: for a packet that
/// parsed, its first-level hash names a slot, and on a miss the tuple space
/// search can read what it reads.
pub open spec fn single_core_ready(
    l1_cache: Seq<CacheElement>,
    l3_cache: TupleSpace,
    key_store: KeyStore,
    pkt: Seq<u8>,
    parsed: Option<&ParseResult>,
    l1_seed: u32,
) -> bool {
    pkt.len() > 0 && parsed is Some ==> {
        let p = *parsed->0;
        &&& p.hdr_size <= pkt.len()
        &&& hash16(pkt, p.hdr_size, l1_seed) < l1_cache.len()
        &&& slots_ok(l1_cache)
        &&& !rx_l1_hit(l1_cache, pkt, p, l1_seed) ==> {
            &&& l3_cache.wf()
            &&& search_ready_from(l3_cache.tuples(), pkt, key_store.key@, key_store.key_len, 0)
        }
    }
}

/// One packet on the single core, after the parser ran (`parsed`, `None`
/// when it refused the packet): an empty or unparsed packet is dropped; a
/// packet that hits the first-level cache takes that slot's actions; on a
/// miss the tuple space is searched (see `TupleSpace::search`), and a hit
/// there gives its slot's actions; otherwise the full pipeline runs.
pub fn single_core_step(
    l1_cache: &Vec<CacheElement>,
    l3_cache: &TupleSpace,
    key_store: &mut KeyStore,
    pkt: &[u8],
    parsed: Option<&ParseResult>,
    l1_seed: u32,
) -> (r: SingleCoreAction)
    requires
        single_core_ready(l1_cache@, *l3_cache, *old(key_store), pkt@, parsed, l1_seed),
    ensures
        pkt@.len() == 0 || parsed is None ==> r is Drop && *final(key_store) == *old(key_store),
        pkt@.len() > 0 && parsed is Some ==> {
            let p = *parsed->0;
            let h1 = hash16(pkt@, p.hdr_size, l1_seed);
            if rx_l1_hit(l1_cache@, pkt@, p, l1_seed) {
                &&& r matches SingleCoreAction::Hit(d) && same_actions(d@, slot_of(l1_cache@, h1).data@)
                &&& *final(key_store) == *old(key_store)
            } else {
                let (hit, k, l) = search_from(l3_cache.tuples(), pkt@, old(key_store).key@, old(key_store).key_len, 0);
                &&& final(key_store).key@ == k
                &&& final(key_store).key_len == l
                &&& match hit {
                    None => r is Miss,
                    Some((i, h)) => r matches SingleCoreAction::Hit(d) && same_actions(
                        d@,
                        slot_at(l3_cache.tuples()[i], h).data@,
                    ),
                }
            }
        },
{
    if pkt.len() == 0 {
        return SingleCoreAction::Drop;
    }
    let p = match parsed {
        Some(p) => p,
        None => return SingleCoreAction::Drop,
    };
    let (_, hit) = lookup_l1_cache(l1_cache, pkt, p.hdr_size, l1_seed);
    match hit {
        Some(data) => SingleCoreAction::Hit(data),
        None => match l3_cache.search(pkt, key_store) {
            Some(data) => SingleCoreAction::Hit(data),
            None => SingleCoreAction::Miss,
        },
    }
}

/// Law of the first-level cache: once `create_cache` has filed a result, a
/// packet whose parsed headers are the result's first-level key, and whose
/// hash names the result's slot, hits that slot on its receive core, and the
/// slot gives the result's actions first.
pub proof fn law_l1_cache_hit_after_create(
    l1_before: Seq<Vec<CacheElement>>,
    l1_after: Seq<Vec<CacheElement>>,
    l2_before: Seq<Vec<Vec<CacheElement>>>,
    l2_after: Seq<Vec<Vec<CacheElement>>>,
    lbf_before: Seq<Vec<u64>>,
    lbf_after: Seq<Vec<u64>>,
    result: PktAnalysisResult,
    pkt: Seq<u8>,
    seed: u32,
)
    requires
        cache_ready(l1_before, l2_before, lbf_before, result),
        cache_created(l1_before, l1_after, l2_before, l2_after, lbf_before, lbf_after, result),
        result.l1_key_len <= result.l1_key@.len(),
        result.l1_key_len <= pkt.len(),
        result.l1_key@.take(result.l1_key_len as int) == pkt.take(result.l1_key_len as int),
        result.l1_hash == hash16(pkt, result.l1_key_len, seed),
    ensures
        ({
            let slot = slot_of(l1_after[result.rx_id as int]@, hash16(pkt, result.l1_key_len, seed));
            &&& slot_holds(slot, pkt, result.l1_key_len)
            &&& same_actions(slot.data@.take(result.cache_data@.len() as int), result.cache_data@)
        }),
{
    let n = result.l1_key_len;
    let slot = slot_of(l1_after[result.rx_id as int]@, result.l1_hash);
    assert forall|i: int| 0 <= i < signed_len(n) implies slot.key@[i] == pkt[i] by {
        lemma_signed_len_bound(n, result.l1_key@.len());
        assert(slot.key@[i] == result.l1_key@[i]);
        assert(result.l1_key@.take(n as int)[i] == pkt.take(n as int)[i]);
    }
}

/// Law of the second-level cache: once `create_cache` has filed a result,
/// the result's second-level slot on its cache core holds the result's
/// second-level key and gives the result's actions first, so that a packet
/// with that key hits it.
pub proof fn law_l2_cache_hit_after_create(
    l1_before: Seq<Vec<CacheElement>>,
    l1_after: Seq<Vec<CacheElement>>,
    l2_before: Seq<Vec<Vec<CacheElement>>>,
    l2_after: Seq<Vec<Vec<CacheElement>>>,
    lbf_before: Seq<Vec<u64>>,
    lbf_after: Seq<Vec<u64>>,
    result: PktAnalysisResult,
)
    requires
        cache_ready(l1_before, l2_before, lbf_before, result),
        cache_created(l1_before, l1_after, l2_before, l2_after, lbf_before, lbf_after, result),
        result.l2_key_len <= result.l2_key@.len(),
    ensures
        ({
            let slot = slot_of(l2_after[result.rx_id as int]@[result.cache_id as int]@, result.l2_hash);
            &&& slot_holds(slot, result.l2_key@, key_len_of(result.l2_key_len))
            &&& same_actions(slot.data@.take(result.cache_data@.len() as int), result.cache_data@)
        }),
{
    let n = key_len_of(result.l2_key_len);
    let slot = slot_of(l2_after[result.rx_id as int]@[result.cache_id as int]@, result.l2_hash);
    assert forall|i: int| 0 <= i < signed_len(n) implies slot.key@[i] == result.l2_key@[i] by {
        lemma_signed_len_bound(n, result.l2_key@.len());
    }
}

proof fn lemma_first_set_finds(flag: u64, lo: int, hi: int, c: int)
    requires
        lo <= c < hi,
        bit_set(flag, c),
    ensures
        first_set(flag, lo, hi) matches Some(i) && i <= c,
    decreases hi - lo,
{
    if lo < c && !bit_set(flag, lo) {
        lemma_first_set_finds(flag, lo + 1, hi, c);
    }
}

/// Law of the load-balancer filter: once `create_cache` has marked the cache
/// core of a result for its second-level hash, a receive core that looks
/// that hash up hits the filter, whichever core it starts the search from;
/// and the flags set before stay set.
pub proof fn law_filter_hit_after_create(
    l1_before: Seq<Vec<CacheElement>>,
    l1_after: Seq<Vec<CacheElement>>,
    l2_before: Seq<Vec<Vec<CacheElement>>>,
    l2_after: Seq<Vec<Vec<CacheElement>>>,
    lbf_before: Seq<Vec<u64>>,
    lbf_after: Seq<Vec<u64>>,
    result: PktAnalysisResult,
    core_len: usize,
    start_pos: usize,
)
    requires
        cache_ready(l1_before, l2_before, lbf_before, result),
        cache_created(l1_before, l1_after, l2_before, l2_after, lbf_before, lbf_after, result),
        result.cache_id < core_len <= 64,
        start_pos <= 64,
    ensures
        ({
            let flag = lbf_after[result.rx_id as int]@[result.l2_hash as int];
            let old_flag = lbf_before[result.rx_id as int]@[result.l2_hash as int];
            &&& spec_select_cache_core(flag, core_len as int, start_pos as int) < core_len
            &&& bit_set(flag, result.cache_id as int)
            &&& forall|i: int| 0 <= i < 64 && #[trigger] bit_set(old_flag, i) ==> bit_set(flag, i)
        }),
{
    let rx = result.rx_id as int;
    let h2 = result.l2_hash as int;
    let c = result.cache_id;
    let old_flag = lbf_before[rx]@[h2];
    let flag = lbf_after[rx]@[h2];
    assert(flag == old_flag | (1u64 << c));
    assert(((old_flag | (1u64 << c)) >> c) & 1 == 1) by (bit_vector)
        requires
            c < 64,
    ;
    assert forall|i: int| 0 <= i < 64 && #[trigger] bit_set(old_flag, i) implies bit_set(flag, i) by {
        let iu = i as u64;
        assert((old_flag >> iu) & 1 == 1 ==> ((old_flag | (1u64 << c)) >> iu) & 1 == 1) by (bit_vector)
            requires
                c < 64,
                iu < 64,
        ;
    }
    let ci = c as int;
    if start_pos <= ci {
        lemma_first_set_finds(flag, start_pos as int, core_len as int, ci);
        lemma_first_set_range(flag, start_pos as int, core_len as int);
    } else {
        lemma_first_set_range(flag, start_pos as int, core_len as int);
        lemma_first_set_finds(flag, 0, start_pos as int, ci);
        lemma_first_set_range(flag, 0, start_pos as int);
    }
}

/// Law of the transmit counters: after any run of batches, each sending no
/// more packets than it dequeued, the send counter is the number of packets
/// that went out, and the send and loss counters together are the number of
/// packets dequeued.
pub proof fn law_tx_counters(batches: Seq<(u64, u64)>)
    requires
        forall|i: int| 0 <= i < batches.len() ==> #[trigger] batches[i].1 <= batches[i].0,
    ensures
        tx_counters(batches).0 == total_sent(batches),
        tx_counters(batches).0 + tx_counters(batches).1 == total_dequeued(batches),
        tx_counters(batches).1 >= 0,
    decreases batches.len(),
{
    if batches.len() > 0 {
        let front = batches.drop_last();
        assert forall|i: int| 0 <= i < front.len() implies #[trigger] front[i].1 <= front[i].0 by {
            assert(front[i] == batches[i]);
        }
        law_tx_counters(front);
        assert(batches[batches.len() - 1].1 <= batches[batches.len() - 1].0);
    }
}

/// Law of the cache core choice: the core chosen has its flag set, and the
/// number of cores comes back only when no core below it has its flag set.
pub proof fn law_select_cache_core(core_flag: u64, core_len: int, start_pos: int)
    requires
        0 <= start_pos <= core_len,
    ensures
        spec_select_cache_core(core_flag, core_len, start_pos) != core_len ==> {
            let r = spec_select_cache_core(core_flag, core_len, start_pos);
            &&& 0 <= r < core_len
            &&& bit_set(core_flag, r)
        },
        spec_select_cache_core(core_flag, core_len, start_pos) == core_len ==> forall|i: int|
            0 <= i < core_len ==> !#[trigger] bit_set(core_flag, i),
{
    lemma_first_set_range(core_flag, start_pos, core_len);
    lemma_first_set_range(core_flag, 0, start_pos);
    assert forall|i: int| 0 <= i < core_len && spec_select_cache_core(core_flag, core_len, start_pos) == core_len implies !#[trigger] bit_set(
        core_flag,
        i,
    ) by {
        if bit_set(core_flag, i) {
            if start_pos <= i {
                lemma_first_set_finds(core_flag, start_pos, core_len, i);
            } else {
                lemma_first_set_finds(core_flag, 0, start_pos, i);
            }
        }
    }
}

} // verus!

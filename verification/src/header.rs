use vstd::prelude::*;

verus! {

/// The fields of one header type, in wire order, with the subsets of them
/// that the cache keys and the parser use.
pub struct Header {
    pub fields: Vec<Field>,
    pub used_fields: Vec<Field>,
    pub parse_fields: Vec<Field>,
    pub fields_len: usize,
    pub used_fields_len: usize,
}

/// Position of a header field inside a header: the first and the last byte it
/// touches, each with the mask of the bits of that byte that belong to it.
/// Bits are numbered from the most significant one, as on the wire.
#[derive(Clone, Copy)]
pub struct Field {
    pub start_byte_pos: usize,
    pub start_bit_mask: u8,
    pub end_byte_pos: usize,
    pub end_bit_mask: u8,
}

// ---------------------------------------------------------------------------
// Bit masks of one byte
// ---------------------------------------------------------------------------

/// The mask of the `n` most significant bits of a byte (`0 <= n <= 8`).
pub open spec fn top_mask(n: u8) -> u8 {
    ((0xff00u16 >> n) & 0xffu16) as u8
}

/// The mask of the bits `a .. b` of a byte, counted from the most significant
/// one (`0 <= a <= b <= 8`).
pub open spec fn bits_between(a: u8, b: u8) -> u8 {
    top_mask(b) ^ top_mask(a)
}

/// 1-based position, from the least significant end, of the highest set bit;
/// 8 for the empty mask.
pub open spec fn high_pos(m: u8) -> u8 {
    if m >= 128 {
        8
    } else if m >= 64 {
        7
    } else if m >= 32 {
        6
    } else if m >= 16 {
        5
    } else if m >= 8 {
        4
    } else if m >= 4 {
        3
    } else if m >= 2 {
        2
    } else if m >= 1 {
        1
    } else {
        8
    }
}

/// Number of set bits of a byte.
pub open spec fn pop8(m: u8) -> u8 {
    ((m & 1) + ((m >> 1u8) & 1) + ((m >> 2u8) & 1) + ((m >> 3u8) & 1) + ((m >> 4u8) & 1) + ((m
        >> 5u8) & 1) + ((m >> 6u8) & 1) + ((m >> 7u8) & 1)) as u8
}

/// Index, counted from the most significant bit, one past the lowest set bit
/// of a mask (0 for the empty mask).
pub open spec fn mask_end(m: u8) -> u8 {
    if m & 1 != 0 {
        8
    } else if m & 2 != 0 {
        7
    } else if m & 4 != 0 {
        6
    } else if m & 8 != 0 {
        5
    } else if m & 16 != 0 {
        4
    } else if m & 32 != 0 {
        3
    } else if m & 64 != 0 {
        2
    } else if m & 128 != 0 {
        1
    } else {
        0
    }
}

/// Index, counted from the most significant bit, of the highest set bit.
pub open spec fn mask_begin(m: u8) -> u8 {
    (8 - high_pos(m)) as u8
}

/// A mask is contiguous when it is empty or one run of set bits.
pub open spec fn contiguous(m: u8) -> bool {
    m == 0 || m == bits_between(mask_begin(m), mask_end(m))
}

// ---------------------------------------------------------------------------
// The layout computed by `Field::new`
// ---------------------------------------------------------------------------

/// First byte, its mask, and the number of bits of the new field that fall
/// into that byte.
pub open spec fn spec_field_first(pre: Field, n: int) -> (int, u8, int) {
    let m = pre.end_bit_mask;
    if m & 1 == 1 {
        if n >= 8 {
            (pre.end_byte_pos + 1, 0xffu8, 8)
        } else {
            (pre.end_byte_pos + 1, top_mask(n as u8), n)
        }
    } else {
        let space = high_pos(m) - pop8(m);
        if space > n {
            (pre.end_byte_pos as int, top_mask(n as u8) >> ((8 - high_pos(m) + pop8(m)) as u8), n)
        } else {
            (pre.end_byte_pos as int, m ^ (0xffu8 >> ((8 - high_pos(m)) as u8)), space)
        }
    }
}

/// Last byte and its mask of the new field.
pub open spec fn spec_field_last(pre: Field, n: int) -> (int, u8) {
    let (sb, sm, read) = spec_field_first(pre, n);
    let rem = n - read;
    if rem == 0 {
        (sb, sm)
    } else if rem % 8 == 0 {
        (sb + rem / 8, 0xffu8)
    } else {
        (sb + rem / 8 + 1, top_mask((rem % 8) as u8))
    }
}

/// The field of `n` bits that `Field::new` places after `pre`.
pub open spec fn spec_field_new(pre: Field, n: int) -> Field {
    Field {
        start_byte_pos: spec_field_first(pre, n).0 as usize,
        start_bit_mask: spec_field_first(pre, n).1,
        end_byte_pos: spec_field_last(pre, n).0 as usize,
        end_bit_mask: spec_field_last(pre, n).1,
    }
}

/// The byte positions of the new field fit in a `usize`.
pub open spec fn field_new_fits(pre: Field, n: int) -> bool {
    spec_field_last(pre, n).0 <= usize::MAX
}

fn top_mask_exec(n: u16) -> (r: u8)
    requires
        n <= 8,
    ensures
        r == top_mask(n as u8),
{
    let k = n as u8;
    assert(((0xff00u16 >> k) & 0xffu16) < 256) by (bit_vector);
    ((0xff00u16 >> k) & 0xffu16) as u8
}

fn high_pos_exec(m: u8) -> (r: u32)
    ensures
        r == high_pos(m),
{
    if m >= 128 {
        8
    } else if m >= 64 {
        7
    } else if m >= 32 {
        6
    } else if m >= 16 {
        5
    } else if m >= 8 {
        4
    } else if m >= 4 {
        3
    } else if m >= 2 {
        2
    } else if m >= 1 {
        1
    } else {
        8
    }
}

fn pop8_exec(m: u8) -> (r: u32)
    ensures
        r == pop8(m),
        r <= 8,
{
    assert(pop8(m) <= 8 && pop8(m) == (m & 1) + ((m >> 1u8) & 1) + ((m >> 2u8) & 1) + ((m >> 3u8)
        & 1) + ((m >> 4u8) & 1) + ((m >> 5u8) & 1) + ((m >> 6u8) & 1) + ((m >> 7u8) & 1)) by (bit_vector);
    let c: u32 = (m & 1) as u32 + ((m >> 1u8) & 1) as u32 + ((m >> 2u8) & 1) as u32 + ((m >> 3u8)
        & 1) as u32 + ((m >> 4u8) & 1) as u32 + ((m >> 5u8) & 1) as u32 + ((m >> 6u8) & 1) as u32
        + ((m >> 7u8) & 1) as u32;
    c
}

proof fn lemma_pop_le_high(m: u8)
    ensures
        pop8(m) <= high_pos(m),
        m & 1 != 1 ==> pop8(m) < high_pos(m),
        1 <= high_pos(m) <= 8,
{
    assert(pop8(m) <= high_pos(m) && (m & 1 != 1 ==> pop8(m) < high_pos(m)) && 1 <= high_pos(m)
        <= 8) by (bit_vector);
}


// ---------------------------------------------------------------------------
// Fields as runs of bits
// ---------------------------------------------------------------------------

/// The bit right after a field, counted from the start of the header, when
/// its last mask is contiguous (the empty mask stands for "nothing used yet in
/// this byte").
pub open spec fn next_bit(f: Field) -> int {
    f.end_byte_pos * 8 + mask_end(f.end_bit_mask)
}

/// `f` covers exactly the `n` bits `start .. start + n` of the header, bit `k`
/// being bit `k % 8` (from the most significant one) of byte `k / 8`.
pub open spec fn covers(f: Field, start: int, n: int) -> bool {
    let last = start + n - 1;
    &&& f.start_byte_pos == start / 8
    &&& f.end_byte_pos == last / 8
    &&& if start / 8 == last / 8 {
        &&& f.start_bit_mask == bits_between((start % 8) as u8, (last % 8 + 1) as u8)
        &&& f.end_bit_mask == f.start_bit_mask
    } else {
        &&& f.start_bit_mask == bits_between((start % 8) as u8, 8)
        &&& f.end_bit_mask == bits_between(0, (last % 8 + 1) as u8)
    }
}

/// Both masks of the field are contiguous.
pub open spec fn well_shaped(f: Field) -> bool {
    contiguous(f.start_bit_mask) && contiguous(f.end_bit_mask)
}

proof fn lemma_run_facts(a: u8, b: u8)
    by (bit_vector)
    requires
        a < b <= 8,
    ensures
        bits_between(a, b) != 0,
        mask_begin(bits_between(a, b)) == a,
        mask_end(bits_between(a, b)) == b,
        pop8(bits_between(a, b)) == b - a,
        high_pos(bits_between(a, b)) == 8 - a,
        ((bits_between(a, b) & 1) == 1) == (b == 8),
        bits_between(a, b) ^ (0xffu8 >> a) == bits_between(b, 8),
{
}

proof fn lemma_nonzero_order(m: u8)
    by (bit_vector)
    requires
        m != 0,
    ensures
        mask_begin(m) < mask_end(m) <= 8,
{
}

proof fn lemma_shifted_top(n: u8, b: u8)
    by (bit_vector)
    requires
        1 <= n,
        b + n <= 8,
    ensures
        top_mask(n) >> b == bits_between(b, (b + n) as u8),
        top_mask(n) == bits_between(0, n),
{
}

proof fn lemma_empty_mask()
    ensures
        high_pos(0) == 8,
        pop8(0) == 0,
        mask_end(0) == 0,
        (0u8 & 1) != 1,
        0u8 ^ (0xffu8 >> 0u8) == bits_between(0, 8),
        top_mask(8) == 0xff,
        bits_between(0, 8) == 0xff,
{
    assert(pop8(0) == 0 && (0u8 & 1) != 1 && 0u8 ^ (0xffu8 >> 0u8) == bits_between(0, 8)
        && top_mask(8) == 0xff && bits_between(0, 8) == 0xff && mask_end(0) == 0) by (bit_vector);
}

/// A field that covers a run of bits has contiguous masks, and the bit after
/// it is the bit after the run.
pub proof fn lemma_covers_next(f: Field, start: int, n: int)
    requires
        start >= 0,
        n >= 1,
        covers(f, start, n),
    ensures
        well_shaped(f),
        next_bit(f) == start + n,
{
    let last = start + n - 1;
    if start / 8 == last / 8 {
        lemma_run_facts((start % 8) as u8, (last % 8 + 1) as u8);
    } else {
        lemma_run_facts((start % 8) as u8, 8);
        lemma_run_facts(0, (last % 8 + 1) as u8);
    }
}

/// Layout law of `Field::new`: after a field whose last mask is contiguous,
/// the new field of `n` bits covers exactly the `n` bits that follow it.
pub proof fn law_field_new_covers(pre: Field, n: int)
    requires
        1 <= n <= u16::MAX,
        contiguous(pre.end_bit_mask),
    ensures
        spec_field_first(pre, n).0 == next_bit(pre) / 8,
        spec_field_last(pre, n).0 == (next_bit(pre) + n - 1) / 8,
        field_new_fits(pre, n) ==> covers(spec_field_new(pre, n), next_bit(pre), n),
{
    let m = pre.end_bit_mask;
    let e = pre.end_byte_pos as int;
    lemma_empty_mask();
    let b: u8 = mask_end(m);
    if m != 0 {
        lemma_nonzero_order(m);
        lemma_run_facts(mask_begin(m), mask_end(m));
    }
    let p = next_bit(pre);
    let (sb, sm, read) = spec_field_first(pre, n);
    let (eb, em) = spec_field_last(pre, n);
    let rem = n - read;
    let last = p + n - 1;
    assert(p == e * 8 + b);
    if m & 1 == 1 {
        assert(b == 8);
        assert(p / 8 == e + 1 && p % 8 == 0);
        if n >= 8 {
            assert(sm == bits_between(0, 8));
            assert(read == 8);
        } else {
            lemma_shifted_top(n as u8, 0);
            assert(read == n);
            assert(last / 8 == e + 1 && last % 8 == n - 1);
        }
        if rem > 0 && rem % 8 != 0 {
            lemma_shifted_top((rem % 8) as u8, 0);
            assert(last / 8 == e + 1 + rem / 8 + 1);
            assert(last % 8 == rem % 8 - 1);
        } else if rem > 0 {
            assert(last / 8 == e + 1 + rem / 8);
            assert(last % 8 == 7);
        }
    } else {
        assert(b < 8);
        assert(p / 8 == e && p % 8 == b);
        let space = high_pos(m) - pop8(m);
        assert(space == 8 - b);
        if space > n {
            lemma_shifted_top(n as u8, b);
            assert((8 - high_pos(m) + pop8(m)) as u8 == b);
            assert(last / 8 == e && last % 8 == b + n - 1);
        } else {
            assert(sm == bits_between(b, 8));
            assert(read == 8 - b);
            assert(last == e * 8 + 7 + rem);
            if rem > 0 && rem % 8 != 0 {
                lemma_shifted_top((rem % 8) as u8, 0);
                assert(last / 8 == e + rem / 8 + 1);
                assert(last % 8 == rem % 8 - 1);
            } else if rem > 0 {
                assert(last / 8 == e + rem / 8);
                assert(last % 8 == 7);
            } else {
                assert(last / 8 == e && last % 8 == 7);
            }
        }
    }
}

impl Field {
    /// Places a field of `field_bit_size` bits right after `pre_field`.
    pub fn new(pre_field: &Field, field_bit_size: u16) -> (r: Field)
        requires
            field_bit_size >= 1,
            field_new_fits(*pre_field, field_bit_size as int),
        ensures
            r == spec_field_new(*pre_field, field_bit_size as int),
            contiguous(pre_field.end_bit_mask) ==> {
                &&& covers(r, next_bit(*pre_field), field_bit_size as int)
                &&& well_shaped(r)
                &&& next_bit(r) == next_bit(*pre_field) + field_bit_size
            },
    {
        proof {
            if contiguous(pre_field.end_bit_mask) {
                law_field_new_covers(*pre_field, field_bit_size as int);
                lemma_covers_next(spec_field_new(*pre_field, field_bit_size as int), next_bit(*pre_field), field_bit_size as int);
            }
        }
        let m = pre_field.end_bit_mask;
        let n = field_bit_size;
        proof {
            lemma_pop_le_high(m);
        }
        let (start_byte_pos, start_bit_mask, readed_bit): (usize, u8, u16) = if (m & 1) == 1 {
            if n >= 8 {
                (pre_field.end_byte_pos + 1, 0xff, 8)
            } else {
                (pre_field.end_byte_pos + 1, top_mask_exec(n), n)
            }
        } else {
            let pre_end_bit_start_pos = high_pos_exec(m);
            let pre_end_bit_count = pop8_exec(m);
            let bit_space = pre_end_bit_start_pos - pre_end_bit_count;
            if bit_space > n as u32 {
                let sh: u32 = (8 - pre_end_bit_start_pos) + pre_end_bit_count;
                (pre_field.end_byte_pos, top_mask_exec(n) >> sh, n)
            } else {
                let sh: u32 = 8 - pre_end_bit_start_pos;
                (pre_field.end_byte_pos, m ^ (0xffu8 >> sh), bit_space as u16)
            }
        };
        let rem = n - readed_bit;
        let (end_byte_pos, end_bit_mask): (usize, u8) = if rem == 0 {
            (start_byte_pos, start_bit_mask)
        } else {
            let residue_bit = rem % 8;
            if residue_bit == 0 {
                (start_byte_pos + ((rem / 8) as usize), 0xff)
            } else {
                (start_byte_pos + ((rem / 8) as usize) + 1, top_mask_exec(residue_bit))
            }
        };
        Field { start_byte_pos, start_bit_mask, end_byte_pos, end_bit_mask }
    }

    /// The four components of the field.
    pub fn get(&self) -> (r: (usize, u8, usize, u8))
        ensures
            r == (self.start_byte_pos, self.start_bit_mask, self.end_byte_pos, self.end_bit_mask),
    {
        (self.start_byte_pos, self.start_bit_mask, self.end_byte_pos, self.end_bit_mask)
    }
}


// ---------------------------------------------------------------------------
// Headers
// ---------------------------------------------------------------------------

/// The field that stands before the first field of a header.
pub open spec fn zero_field() -> Field {
    Field { start_byte_pos: 0, start_bit_mask: 0, end_byte_pos: 0, end_bit_mask: 0 }
}

/// Field `i` of a header whose field sizes (in bits) are `sizes`.
pub open spec fn field_at(sizes: Seq<u16>, i: int) -> Field
    decreases i,
{
    if i <= 0 {
        spec_field_new(zero_field(), sizes[0] as int)
    } else {
        spec_field_new(field_at(sizes, i - 1), sizes[i] as int)
    }
}

/// Number of bits taken by the first `i` fields.
pub open spec fn prefix_bits(sizes: Seq<u16>, i: int) -> int
    decreases i,
{
    if i <= 0 {
        0
    } else {
        prefix_bits(sizes, i - 1) + sizes[i - 1]
    }
}

/// Every field has at least one bit.
pub open spec fn sizes_valid(sizes: Seq<u16>) -> bool {
    forall|i: int| 0 <= i < sizes.len() ==> sizes[i] >= 1
}

proof fn lemma_prefix_bits_mono(sizes: Seq<u16>, i: int, j: int)
    requires
        0 <= i <= j,
    ensures
        prefix_bits(sizes, i) <= prefix_bits(sizes, j),
    decreases j,
{
    if i < j {
        lemma_prefix_bits_mono(sizes, i, j - 1);
    }
}

/// Layout law of a header: field `i` covers exactly the bits that follow the
/// first `i` fields, so the fields lie back to back, in order, without gaps
/// or overlaps.
pub proof fn law_header_layout(sizes: Seq<u16>, i: int)
    requires
        sizes_valid(sizes),
        0 <= i < sizes.len(),
        prefix_bits(sizes, sizes.len() as int) <= 8 * usize::MAX,
    ensures
        covers(field_at(sizes, i), prefix_bits(sizes, i), sizes[i] as int),
        well_shaped(field_at(sizes, i)),
        next_bit(field_at(sizes, i)) == prefix_bits(sizes, i + 1),
    decreases i,
{
    let pre = if i == 0 { zero_field() } else { field_at(sizes, i - 1) };
    if i > 0 {
        law_header_layout(sizes, i - 1);
    } else {
        lemma_empty_mask();
    }
    lemma_prefix_bits_mono(sizes, i + 1, sizes.len() as int);
    law_field_new_covers(pre, sizes[i] as int);
    lemma_covers_next(field_at(sizes, i), prefix_bits(sizes, i), sizes[i] as int);
}

impl Header {
    /// `other` describes the same layout.
    pub open spec fn same_layout(&self, other: Header) -> bool {
        &&& self.fields@ == other.fields@
        &&& self.used_fields@ == other.used_fields@
        &&& self.parse_fields@ == other.parse_fields@
        &&& self.fields_len == other.fields_len
        &&& self.used_fields_len == other.used_fields_len
    }

    /// The header that `Header::new` lays out from these lists.
    pub open spec fn laid_out(&self, field_len_list: Seq<u16>, used_field_index_list: Seq<u16>, parse_field_index_list: Seq<u16>) -> bool {
        &&& self.fields@.len() == field_len_list.len()
        &&& forall|i: int| 0 <= i < field_len_list.len() ==> #[trigger] self.fields@[i] == field_at(field_len_list, i)
        &&& self.used_fields@.len() == used_field_index_list.len()
        &&& forall|k: int|
            0 <= k < used_field_index_list.len() ==> #[trigger] self.used_fields@[k] == self.fields@[used_field_index_list[k] as int]
        &&& self.parse_fields@.len() == parse_field_index_list.len()
        &&& forall|k: int|
            0 <= k < parse_field_index_list.len() ==> #[trigger] self.parse_fields@[k] == self.fields@[parse_field_index_list[k] as int]
        &&& self.fields_len == field_len_list.len()
        &&& self.used_fields_len == used_field_index_list.len()
    }

    /// Lays out the fields of a header from their sizes in bits, and picks
    /// the fields named by the two index lists.
    pub fn new(field_len_list: &[u16], used_field_index_list: &[u16], parse_field_index_list: &[u16]) -> (r: Header)
        requires
            sizes_valid(field_len_list@),
            prefix_bits(field_len_list@, field_len_list@.len() as int) <= 8 * usize::MAX,
            forall|k: int| 0 <= k < used_field_index_list@.len() ==> used_field_index_list@[k] < field_len_list@.len(),
            forall|k: int| 0 <= k < parse_field_index_list@.len() ==> parse_field_index_list@[k] < field_len_list@.len(),
        ensures
            r.fields@.len() == field_len_list@.len(),
            forall|i: int| 0 <= i < field_len_list@.len() ==> r.fields@[i] == field_at(field_len_list@, i),
            r.used_fields@.len() == used_field_index_list@.len(),
            forall|k: int| 0 <= k < used_field_index_list@.len() ==> r.used_fields@[k] == r.fields@[used_field_index_list@[k] as int],
            r.parse_fields@.len() == parse_field_index_list@.len(),
            forall|k: int| 0 <= k < parse_field_index_list@.len() ==> r.parse_fields@[k] == r.fields@[parse_field_index_list@[k] as int],
            r.fields_len == field_len_list@.len(),
            r.used_fields_len == used_field_index_list@.len(),
            forall|i: int| 0 <= i < field_len_list@.len() ==> covers(#[trigger] r.fields@[i], prefix_bits(field_len_list@, i), field_len_list@[i] as int),
    {
        let sizes = Ghost(field_len_list@);
        let mut fields: Vec<Field> = Vec::new();
        let mut pre_field = Field { start_byte_pos: 0, start_bit_mask: 0, end_byte_pos: 0, end_bit_mask: 0 };
        let mut i: usize = 0;
        proof {
            lemma_empty_mask();
        }
        while i < field_len_list.len()
            invariant
                sizes@ == field_len_list@,
                sizes_valid(sizes@),
                prefix_bits(sizes@, sizes@.len() as int) <= 8 * usize::MAX,
                0 <= i <= sizes@.len(),
                fields@.len() == i,
                forall|k: int| 0 <= k < i ==> fields@[k] == field_at(sizes@, k),
                pre_field == (if i == 0 { zero_field() } else { field_at(sizes@, i - 1) }),
                contiguous(pre_field.end_bit_mask),
                next_bit(pre_field) == prefix_bits(sizes@, i as int),
            decreases sizes@.len() - i,
        {
            proof {
                lemma_prefix_bits_mono(sizes@, i + 1, sizes@.len() as int);
                law_field_new_covers(pre_field, sizes@[i as int] as int);
            }
            let f = Field::new(&pre_field, field_len_list[i]);
            fields.push(f);
            pre_field = f;
            i = i + 1;
        }
        let mut used_fields: Vec<Field> = Vec::new();
        let mut k: usize = 0;
        while k < used_field_index_list.len()
            invariant
                0 <= k <= used_field_index_list@.len(),
                fields@.len() == field_len_list@.len(),
                forall|j: int| 0 <= j < used_field_index_list@.len() ==> used_field_index_list@[j] < field_len_list@.len(),
                used_fields@.len() == k,
                forall|j: int| 0 <= j < k ==> used_fields@[j] == fields@[used_field_index_list@[j] as int],
            decreases used_field_index_list@.len() - k,
        {
            used_fields.push(fields[used_field_index_list[k] as usize]);
            k = k + 1;
        }
        let mut parse_fields: Vec<Field> = Vec::new();
        let mut k: usize = 0;
        while k < parse_field_index_list.len()
            invariant
                0 <= k <= parse_field_index_list@.len(),
                fields@.len() == field_len_list@.len(),
                forall|j: int| 0 <= j < parse_field_index_list@.len() ==> parse_field_index_list@[j] < field_len_list@.len(),
                parse_fields@.len() == k,
                forall|j: int| 0 <= j < k ==> parse_fields@[j] == fields@[parse_field_index_list@[j] as int],
            decreases parse_field_index_list@.len() - k,
        {
            parse_fields.push(fields[parse_field_index_list[k] as usize]);
            k = k + 1;
        }
        proof {
            assert forall|i: int| 0 <= i < field_len_list@.len() implies covers(#[trigger] fields@[i], prefix_bits(field_len_list@, i), field_len_list@[i] as int) by {
                law_header_layout(field_len_list@, i);
            }
        }
        Header {
            fields,
            used_fields,
            parse_fields,
            fields_len: field_len_list.len(),
            used_fields_len: used_field_index_list.len(),
        }
    }
}


// ---------------------------------------------------------------------------
// Reading a field out of a packet
// ---------------------------------------------------------------------------

/// The bytes of field `f` read from `src` at header offset `base`: the first
/// byte under the start mask, the inner bytes whole, the last byte under the
/// end mask.
pub open spec fn field_bytes(f: Field, src: Seq<u8>, base: int) -> Seq<u8> {
    let s = f.start_byte_pos as int;
    let e = f.end_byte_pos as int;
    Seq::new(
        (e - s + 1) as nat,
        |k: int|
            if k == 0 {
                src[base + s] & f.start_bit_mask
            } else if k == e - s {
                src[base + e] & f.end_bit_mask
            } else {
                src[base + s + k]
            },
    )
}

/// A key with its last byte masked.
pub open spec fn masked_key(bytes: Seq<u8>, m: u8) -> Seq<u8> {
    bytes.update(bytes.len() - 1, bytes[bytes.len() - 1] & m)
}

/// The bytes of the packet that a key of `n` bytes is compared with, for a
/// field at header offset `off`.
pub open spec fn pkt_key(f: Field, pkt: Seq<u8>, off: int, n: int, m: u8) -> Seq<u8> {
    masked_key(pkt.subrange(f.start_byte_pos + off, f.start_byte_pos + off + n), m)
}

/// Lexicographic comparison of two byte strings of the same length:
/// 1 when `a` is greater, -1 when it is smaller, 0 when they are equal.
pub open spec fn lex_order(a: Seq<u8>, b: Seq<u8>) -> int
    decreases a.len(),
{
    if a.len() == 0 {
        0
    } else if a[0] > b[0] {
        1
    } else if a[0] < b[0] {
        -1
    } else {
        lex_order(a.drop_first(), b.drop_first())
    }
}

/// What a comparison of a field with a key may read.
pub open spec fn key_readable(f: Field, pkt: Seq<u8>, hdr_offset: u16, v: Seq<u8>) -> bool {
    let off = hdr_offset as int;
    &&& v.len() >= 1
    &&& f.start_byte_pos <= f.end_byte_pos
    &&& if f.start_byte_pos == f.end_byte_pos {
        f.start_byte_pos + off < pkt.len()
    } else {
        f.start_byte_pos + off + v.len() <= pkt.len()
    }
}

/// Exact match of the field against a key whose last byte is compared under
/// `m`; a field within one byte is compared under its own mask.
pub open spec fn field_matches(f: Field, pkt: Seq<u8>, hdr_offset: u16, v: Seq<u8>, m: u8) -> bool {
    let off = hdr_offset as int;
    let s = f.start_byte_pos + off;
    if f.start_byte_pos == f.end_byte_pos {
        pkt[s] & f.start_bit_mask == v[0]
    } else {
        pkt[s] == v[0] && pkt_key(f, pkt, off, v.len() as int, m) == masked_key(v, m)
    }
}

/// Ordering of the field against a key (see `lex_order`); a field within one
/// byte is compared under its own mask.
pub open spec fn field_order(f: Field, pkt: Seq<u8>, hdr_offset: u16, v: Seq<u8>, m: u8) -> int {
    let off = hdr_offset as int;
    let s = f.start_byte_pos + off;
    if f.start_byte_pos == f.end_byte_pos {
        if pkt[s] & f.start_bit_mask > v[0] {
            1
        } else if pkt[s] & f.start_bit_mask < v[0] {
            -1
        } else {
            0
        }
    } else {
        lex_order(pkt_key(f, pkt, off, v.len() as int, m), masked_key(v, m))
    }
}

pub proof fn lemma_lex_order_skip(a: Seq<u8>, b: Seq<u8>, i: int)
    requires
        a.len() == b.len(),
        0 <= i <= a.len(),
        forall|k: int| 0 <= k < i ==> a[k] == b[k],
    ensures
        lex_order(a, b) == lex_order(a.skip(i), b.skip(i)),
    decreases i,
{
    if i > 0 {
        lemma_lex_order_skip(a.drop_first(), b.drop_first(), i - 1);
        assert(a.drop_first().skip(i - 1) =~= a.skip(i));
        assert(b.drop_first().skip(i - 1) =~= b.skip(i));
    } else {
        assert(a.skip(0) =~= a);
        assert(b.skip(0) =~= b);
    }
}

impl Field {
    /// Copies the field, read from `src` at header offset `base_offset`, to
    /// `dst` from `dst_offset` on; returns the number of bytes written.
    pub fn copy_ptr_value(&self, base_offset: usize, src: &[u8], dst: &mut Vec<u8>, dst_offset: usize) -> (r: usize)
        requires
            self.start_byte_pos <= self.end_byte_pos,
            base_offset + self.end_byte_pos < src@.len(),
            dst_offset + (self.end_byte_pos - self.start_byte_pos) + 1 <= old(dst)@.len(),
        ensures
            r == self.end_byte_pos - self.start_byte_pos + 1,
            final(dst)@ == old(dst)@.subrange(0, dst_offset as int) + field_bytes(*self, src@, base_offset as int)
                + old(dst)@.subrange(dst_offset + r, old(dst)@.len() as int),
    {
        let ghost bytes = field_bytes(*self, src@, base_offset as int);
        let ghost d0 = dst@;
        let src_len = src.len();
        let dst_len = dst.len();
        let s = self.start_byte_pos;
        let e = self.end_byte_pos;
        dst.set(dst_offset, src[base_offset + s] & self.start_bit_mask);
        if s == e {
            assert(dst@ =~= d0.subrange(0, dst_offset as int) + bytes + d0.subrange(dst_offset + 1, d0.len() as int));
            return 1;
        }
        let mut k: usize = 1;
        while k < e - s
            invariant
                s < e,
                s == self.start_byte_pos,
                e == self.end_byte_pos,
                base_offset + e < src@.len(),
                src_len == src@.len(),
                dst_len == d0.len(),
                dst_offset + (e - s) + 1 <= d0.len(),
                bytes == field_bytes(*self, src@, base_offset as int),
                1 <= k <= e - s,
                dst@.len() == d0.len(),
                forall|j: int| 0 <= j < dst_offset ==> dst@[j] == d0[j],
                forall|j: int| dst_offset + k <= j < d0.len() ==> dst@[j] == d0[j],
                forall|j: int| 0 <= j < k ==> dst@[dst_offset + j] == bytes[j],
            decreases e - s - k,
        {
            dst.set(dst_offset + k, src[base_offset + s + k]);
            k = k + 1;
        }
        dst.set(dst_offset + (e - s), src[base_offset + e] & self.end_bit_mask);
        let n = e - s + 1;
        assert(dst@ =~= d0.subrange(0, dst_offset as int) + bytes + d0.subrange(dst_offset + n, d0.len() as int));
        n
    }

    /// The field read from `pkt` at header offset `hdr_offset` equals `value`,
    /// the last byte compared under `end_bit_mask`.
    pub fn cmp_pkt(&self, pkt: &[u8], hdr_offset: u16, value: &Vec<u8>, end_bit_mask: u8) -> (r: bool)
        requires
            key_readable(*self, pkt@, hdr_offset, value@),
        ensures
            r == field_matches(*self, pkt@, hdr_offset, value@, end_bit_mask),
    {
        self.match_bytes(pkt, hdr_offset, value, end_bit_mask)
    }

    fn match_bytes(&self, pkt: &[u8], hdr_offset: u16, value: &Vec<u8>, end_bit_mask: u8) -> (r: bool)
        requires
            key_readable(*self, pkt@, hdr_offset, value@),
        ensures
            r == field_matches(*self, pkt@, hdr_offset, value@, end_bit_mask),
    {
        let pkt_len = pkt.len();
        let s = self.start_byte_pos + hdr_offset as usize;
        if self.start_byte_pos == self.end_byte_pos {
            return (pkt[s] & self.start_bit_mask) == value[0];
        }
        if pkt[s] != value[0] {
            return false;
        }
        let n = value.len();
        let ghost pk = pkt_key(*self, pkt@, hdr_offset as int, n as int, end_bit_mask);
        let ghost vk = masked_key(value@, end_bit_mask);
        let mut i: usize = 1;
        while i < n - 1
            invariant
                1 <= i <= n,
                i <= n - 1 || n == 1,
                n == value@.len(),
                s + n <= pkt@.len(),
                pkt_len == pkt@.len(),
                s == self.start_byte_pos + hdr_offset,
                self.start_byte_pos != self.end_byte_pos,
                pk == pkt_key(*self, pkt@, hdr_offset as int, n as int, end_bit_mask),
                vk == masked_key(value@, end_bit_mask),
                pkt@[s as int] == value@[0],
                forall|k: int| 0 <= k < i && k < n - 1 ==> pkt@[s + k] == value@[k],
            decreases n - 1 - i,
        {
            if pkt[s + i] != value[i] {
                assert(pk[i as int] == pkt@[s + i]);
                assert(vk[i as int] == value@[i as int]);
                assert(pk[i as int] != vk[i as int]);
                return false;
            }
            i = i + 1;
        }
        let last = (pkt[s + n - 1] & end_bit_mask) == (value[n - 1] & end_bit_mask);
        if last {
            assert(pk =~= vk);
        } else {
            assert(pk[n - 1] != vk[n - 1]);
        }
        last
    }

    fn order_bytes(&self, pkt: &[u8], hdr_offset: u16, value: &Vec<u8>, end_bit_mask: u8) -> (r: i8)
        requires
            key_readable(*self, pkt@, hdr_offset, value@),
        ensures
            r == field_order(*self, pkt@, hdr_offset, value@, end_bit_mask),
    {
        let pkt_len = pkt.len();
        let s = self.start_byte_pos + hdr_offset as usize;
        if self.start_byte_pos == self.end_byte_pos {
            let first = pkt[s] & self.start_bit_mask;
            return if first > value[0] {
                1
            } else if first < value[0] {
                -1
            } else {
                0
            };
        }
        let n = value.len();
        let ghost pk = pkt_key(*self, pkt@, hdr_offset as int, n as int, end_bit_mask);
        let ghost vk = masked_key(value@, end_bit_mask);
        let mut i: usize = 0;
        while i < n - 1
            invariant
                i <= n - 1,
                n == value@.len(),
                n >= 1,
                s + n <= pkt@.len(),
                pkt_len == pkt@.len(),
                s == self.start_byte_pos + hdr_offset,
                self.start_byte_pos != self.end_byte_pos,
                pk == pkt_key(*self, pkt@, hdr_offset as int, n as int, end_bit_mask),
                vk == masked_key(value@, end_bit_mask),
                pk.len() == n,
                vk.len() == n,
                forall|k: int| 0 <= k < i ==> pk[k] == vk[k],
            decreases n - 1 - i,
        {
            let pkt_value = pkt[s + i];
            if pkt_value != value[i] {
                proof {
                    lemma_lex_order_skip(pk, vk, i as int);
                    let ps = pk.skip(i as int);
                    let vs = vk.skip(i as int);
                    assert(pk[i as int] == pkt@[s + i]);
                    assert(vk[i as int] == value@[i as int]);
                    assert(ps[0] == pkt_value);
                    assert(vs[0] == value@[i as int]);
                    assert(lex_order(ps, vs) == (if pkt_value > value@[i as int] { 1int } else { -1int }));
                }
                return if pkt_value > value[i] { 1 } else { -1 };
            }
            i = i + 1;
        }
        let a = pkt[s + n - 1] & end_bit_mask;
        let b = value[n - 1] & end_bit_mask;
        proof {
            lemma_lex_order_skip(pk, vk, (n - 1) as int);
            let ps = pk.skip((n - 1) as int);
            let vs = vk.skip((n - 1) as int);
            assert(ps[0] == a && vs[0] == b);
            assert(ps.drop_first().len() == 0);
            assert(lex_order(ps.drop_first(), vs.drop_first()) == 0);
        }
        if a > b {
            1
        } else if a < b {
            -1
        } else {
            0
        }
    }

    /// The field read from the packet is greater than or equal to `value`
    /// (big-endian, the last byte compared under `end_bit_mask`).
    pub fn cmp_pkt_ge_value(&self, pkt: &[u8], hdr_offset: u16, value: &Vec<u8>, end_bit_mask: u8) -> (r: bool)
        requires
            key_readable(*self, pkt@, hdr_offset, value@),
        ensures
            r == (field_order(*self, pkt@, hdr_offset, value@, end_bit_mask) >= 0),
    {
        self.order_bytes(pkt, hdr_offset, value, end_bit_mask) >= 0
    }

    /// The field read from the packet is less than or equal to `value`
    /// (big-endian, the last byte compared under `end_bit_mask`).
    pub fn cmp_pkt_le_value(&self, pkt: &[u8], hdr_offset: u16, value: &Vec<u8>, end_bit_mask: u8) -> (r: bool)
        requires
            key_readable(*self, pkt@, hdr_offset, value@),
        ensures
            r == (field_order(*self, pkt@, hdr_offset, value@, end_bit_mask) <= 0),
    {
        self.order_bytes(pkt, hdr_offset, value, end_bit_mask) <= 0
    }
}

impl Clone for Header {
    fn clone(&self) -> (r: Header)
        ensures
            r.same_layout(*self),
    {
        Header {
            fields: self.fields.clone(),
            used_fields: self.used_fields.clone(),
            parse_fields: self.parse_fields.clone(),
            fields_len: self.fields_len,
            used_fields_len: self.used_fields_len,
        }
    }
}

pub proof fn lemma_lex_order_zero(a: Seq<u8>, b: Seq<u8>)
    requires
        a.len() == b.len(),
    ensures
        (lex_order(a, b) == 0) == (a == b),
    decreases a.len(),
{
    if a.len() > 0 {
        lemma_lex_order_zero(a.drop_first(), b.drop_first());
        if a[0] == b[0] && a.drop_first() == b.drop_first() {
            assert(a =~= seq![a[0]] + a.drop_first());
            assert(b =~= seq![b[0]] + b.drop_first());
        }
        if a == b {
            assert(a.drop_first() =~= b.drop_first());
        }
    } else {
        assert(a =~= b);
    }
}

/// Law relating the comparisons of a field with a key: the field equals the
/// key (`cmp_pkt`) exactly when it is both at least and at most the key
/// (`cmp_pkt_ge_value` and `cmp_pkt_le_value`), for a field within one byte
/// or a key of two bytes or more.
pub proof fn law_match_iff_between(f: Field, pkt: Seq<u8>, hdr_offset: u16, v: Seq<u8>, m: u8)
    requires
        key_readable(f, pkt, hdr_offset, v),
        f.start_byte_pos == f.end_byte_pos || v.len() >= 2,
    ensures
        field_matches(f, pkt, hdr_offset, v, m) == (field_order(f, pkt, hdr_offset, v, m) >= 0 && field_order(
            f,
            pkt,
            hdr_offset,
            v,
            m,
        ) <= 0),
{
    let off = hdr_offset as int;
    if f.start_byte_pos != f.end_byte_pos {
        let pk = pkt_key(f, pkt, off, v.len() as int, m);
        let mv = masked_key(v, m);
        lemma_lex_order_zero(pk, mv);
        assert(pk[0] == pkt[f.start_byte_pos + off]);
        assert(mv[0] == v[0]);
    }
}

} // verus!

use vstd::prelude::*;

verus! {

/// A UDP header as the packet generator writes it: four 16-bit fields, each
/// sent most significant byte first.
#[derive(Clone, Copy)]
pub struct UDP {
    pub src_port: u16,
    pub dst_port: u16,
    pub len: u16,
    pub checksum: u16,
}

/// The two bytes of `v`, most significant first.
pub open spec fn be_bytes(v: u16) -> Seq<u8> {
    seq![(v / 256) as u8, (v % 256) as u8]
}

/// The value of two bytes, most significant first.
pub open spec fn be_value(hi: u8, lo: u8) -> u16 {
    (hi * 256 + lo) as u16
}

/// The 8 bytes of a header on the wire.
pub open spec fn header_bytes(h: UDP) -> Seq<u8> {
    be_bytes(h.src_port) + be_bytes(h.dst_port) + be_bytes(h.len) + be_bytes(h.checksum)
}

/// The header that 8 bytes on the wire hold.
pub open spec fn header_of(b: Seq<u8>) -> UDP {
    UDP {
        src_port: be_value(b[0], b[1]),
        dst_port: be_value(b[2], b[3]),
        len: be_value(b[4], b[5]),
        checksum: be_value(b[6], b[7]),
    }
}

fn split16(v: u16) -> (r: (u8, u8))
    ensures
        seq![r.0, r.1] == be_bytes(v),
{
    let hi = (v >> 8) as u8;
    let lo = (v & 0xff) as u8;
    assert(hi == (v / 256) as u8 && lo == (v % 256) as u8) by (bit_vector)
        requires
            hi == (v >> 8) as u8,
            lo == (v & 0xff) as u8,
    ;
    (hi, lo)
}

fn join16(hi: u8, lo: u8) -> (r: u16)
    ensures
        r == be_value(hi, lo),
{
    let r = ((hi as u16) << 8) | (lo as u16);
    assert(r == (hi * 256 + lo) as u16) by (bit_vector)
        requires
            r == ((hi as u16) << 8) | (lo as u16),
    ;
    r
}

impl UDP {
    /// A header with every field 0.
    pub fn new() -> (r: UDP)
        ensures
            r == (UDP { src_port: 0, dst_port: 0, len: 0, checksum: 0 }),
    {
        UDP { src_port: 0, dst_port: 0, len: 0, checksum: 0 }
    }

    /// The header's 8 bytes on the wire.
    pub fn into_bytes(&self) -> (r: [u8; 8])
        ensures
            r@ == header_bytes(*self),
    {
        let (a, b) = split16(self.src_port);
        let (c, d) = split16(self.dst_port);
        let (e, f) = split16(self.len);
        let (g, h) = split16(self.checksum);
        let r = [a, b, c, d, e, f, g, h];
        assert(r@ =~= header_bytes(*self));
        r
    }

    /// The header that 8 bytes on the wire hold.
    pub fn from_bytes(bytes: [u8; 8]) -> (r: UDP)
        ensures
            r == header_of(bytes@),
    {
        UDP {
            src_port: join16(bytes[0], bytes[1]),
            dst_port: join16(bytes[2], bytes[3]),
            len: join16(bytes[4], bytes[5]),
            checksum: join16(bytes[6], bytes[7]),
        }
    }
}

proof fn lemma_be_round_trip(v: u16, hi: u8, lo: u8)
    ensures
        be_value(be_bytes(v)[0], be_bytes(v)[1]) == v,
        be_bytes(be_value(hi, lo)) == seq![hi, lo],
{
    assert(((v / 256) as u8 * 256 + (v % 256) as u8) as u16 == v) by (bit_vector);
    assert(((hi * 256 + lo) as u16 / 256) as u8 == hi && ((hi * 256 + lo) as u16 % 256) as u8 == lo) by (bit_vector);
    assert(be_bytes(be_value(hi, lo)) =~= seq![hi, lo]);
}

/// Law of the header's wire form: reading back the bytes of a header gives
/// the header, and writing the header that 8 bytes hold gives the bytes.
pub proof fn law_udp_round_trip(h: UDP, b: Seq<u8>)
    requires
        b.len() == 8,
    ensures
        header_of(header_bytes(h)) == h,
        header_bytes(header_of(b)) == b,
{
    lemma_be_round_trip(h.src_port, b[0], b[1]);
    lemma_be_round_trip(h.dst_port, b[2], b[3]);
    lemma_be_round_trip(h.len, b[4], b[5]);
    lemma_be_round_trip(h.checksum, b[6], b[7]);
    let hb = header_bytes(h);
    assert(hb[0] == be_bytes(h.src_port)[0] && hb[1] == be_bytes(h.src_port)[1]);
    assert(hb[2] == be_bytes(h.dst_port)[0] && hb[3] == be_bytes(h.dst_port)[1]);
    assert(hb[4] == be_bytes(h.len)[0] && hb[5] == be_bytes(h.len)[1]);
    assert(hb[6] == be_bytes(h.checksum)[0] && hb[7] == be_bytes(h.checksum)[1]);
    assert(header_bytes(header_of(b)) =~= b);
}

} // verus!

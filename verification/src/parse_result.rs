use vstd::prelude::*;

verus! {

/// What the parser found in a packet: metadata (the input port first), the
/// total size of the parsed headers, and where each header type stands.
pub struct ParseResult {
    pub metadata: Vec<u32>,
    pub hdr_size: usize,
    pub header_list: Vec<Header>,
}

/// Indices into `ParseResult::metadata`.
pub enum Metadata {
    InPort,
}

/// One header type of a parsed packet: whether the packet holds it, and at
/// which byte offset.
#[derive(Clone, Copy)]
pub struct Header {
    pub is_valid: bool,
    pub offset: u16,
}

impl ParseResult {
    /// Clears the result before a packet is parsed: no header is valid and
    /// no header bytes are counted; offsets and metadata stay.
    pub fn reset(&mut self)
        ensures
            final(self).hdr_size == 0,
            final(self).metadata == old(self).metadata,
            final(self).header_list@.len() == old(self).header_list@.len(),
            forall|i: int|
                0 <= i < final(self).header_list@.len() ==> !(#[trigger] final(self).header_list@[i]).is_valid
                    && final(self).header_list@[i].offset == old(self).header_list@[i].offset,
    {
        self.hdr_size = 0;
        let n = self.header_list.len();
        let mut i: usize = 0;
        while i < n
            invariant
                n == self.header_list@.len(),
                self.header_list@.len() == old(self).header_list@.len(),
                self.hdr_size == 0,
                self.metadata == old(self).metadata,
                i <= n,
                forall|k: int| 0 <= k < i ==> !(#[trigger] self.header_list@[k]).is_valid,
                forall|k: int| 0 <= k < n ==> (#[trigger] self.header_list@[k]).offset == old(self).header_list@[k].offset,
            decreases n - i,
        {
            let offset = self.header_list[i].offset;
            self.header_list.set(i, Header { is_valid: false, offset });
            i = i + 1;
        }
    }
}

impl Metadata {
    /// The index of this metadata in `ParseResult::metadata`.
    pub fn index(&self) -> (r: usize)
        ensures
            r == 0,
    {
        match self {
            Metadata::InPort => 0,
        }
    }
}

} // verus!

use vstd::prelude::*;

verus! {

/// A network port and the queue a worker uses on it. This is the
/// kernel-network backend, which moves no packets yet.
#[derive(Clone, Copy)]
pub struct Interface {
    pub port: u16,
    pub queue: u16,
}

/// A packet buffer of the kernel-network backend.
pub struct PktBuf {
    pub buf: Vec<u8>,
}

impl Interface {
    /// Brings up the interface named `name` with the requested numbers of
    /// receive and transmit queues; this backend reports port 0 with no
    /// queues.
    pub fn init(name: &str, rx_queues: u16, tx_queues: u16) -> (r: (u16, u16, u16))
        ensures
            r == (0u16, 0u16, 0u16),
    {
        (0, 0, 0)
    }

    /// Prints the port's statistics; this backend has none.
    pub fn debug_show_info(&self) {
    }

    /// Receives up to `len` packets into `pktbuf`; this backend receives none.
    pub fn rx(&self, pktbuf: &Vec<PktBuf>, len: usize) -> (r: u16)
        ensures
            r == 0,
    {
        0
    }

    /// Sends the first `len` packets of `pktbuf`; this backend sends none.
    pub fn tx(&self, pktbuf: &Vec<PktBuf>, len: usize) -> (r: u16)
        ensures
            r == 0,
    {
        0
    }
}

impl PktBuf {
    /// An empty buffer.
    pub fn new() -> (r: PktBuf)
        ensures
            r.buf@ == Seq::<u8>::empty(),
    {
        PktBuf { buf: Vec::new() }
    }

    /// The packet bytes and the packet length; this backend holds no packet,
    /// so the length is 0.
    pub fn get_raw_pkt(&self) -> (r: (&[u8], usize))
        ensures
            r.0@ == self.buf@,
            r.1 == 0,
    {
        (self.buf.as_slice(), 0)
    }
}

} // verus!

use vstd::prelude::*;

verus! {

/// Where the pipeline sends a packet: an output port, or dropped, or to
/// every port.
pub struct TxConf {
    pub output_port: usize,
    pub is_drop: bool,
    pub is_flooding: bool,
}

impl TxConf {
    /// Resets the configuration: port 0, neither dropped nor flooded.
    pub fn init(&mut self)
        ensures
            final(self).output_port == 0,
            !final(self).is_drop,
            !final(self).is_flooding,
    {
        self.output_port = 0;
        self.is_drop = false;
        self.is_flooding = false;
    }
}

} // verus!

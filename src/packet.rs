//! A timestamped text packet record.
use vstd::prelude::*;
use crate::clock::now_ms;

verus! {

/// A text payload stamped with its seq and its creation time.
pub struct FluxelPacket {
    pub seq_num: u32,
    /// Milliseconds since the Unix epoch at creation.
    pub timestamp: u128,
    pub payload: String,
}

impl FluxelPacket {
    /// A packet carrying `payload` as seq `seq_num`, stamped `now_ms`.
    pub fn new_at(seq_num: u32, payload: String, now_ms: u64) -> (r: FluxelPacket)
        ensures
            r.seq_num == seq_num,
            r.payload@ == payload@,
            r.timestamp == now_ms as u128,
    {
        FluxelPacket { seq_num, timestamp: now_ms as u128, payload }
    }

    /// A packet carrying `payload` as seq `seq_num`, stamped with the current
    /// wall-clock time.
    pub fn new(seq_num: u32, payload: String) -> (r: FluxelPacket)
        ensures
            r.seq_num == seq_num,
            r.payload@ == payload@,
    {
        FluxelPacket::new_at(seq_num, payload, now_ms())
    }
}

} // verus!

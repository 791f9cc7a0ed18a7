//! Links and what they carry.

use vstd::prelude::*;

verus! {

/// The stability of a link that never fails: one, as a fixed-point number
/// with 52 fractional bits.
pub const FULL_STABILITY: u64 = 0x10_0000_0000_0000;

/// The stability a new link gets: 0.95, which 52 fractional bits hold exactly
/// as a double holds it.
pub const DEFAULT_STABILITY: u64 = 4278419646001971;

/// What a link carries: its capacity, the traffic routed over it in the
/// current trial, and the probability that it survives a trial.
///
/// `stability` counts in units of 2^-52, the resolution of a uniform draw
/// from [0, 1): `FULL_STABILITY` stands for 1.
#[derive(Clone, Copy, Debug, PartialEq, Eq, Structural)]
pub struct Connection {
    pub bandwidth: u64,
    pub flow: u64,
    pub stability: u64,
}

impl Connection {
    /// A link of the given bandwidth, with no flow and the default stability.
    pub fn new(bandwidth: u64) -> (connection: Connection)
        ensures
            connection == (Connection { bandwidth, flow: 0, stability: DEFAULT_STABILITY }),
    {
        Connection { bandwidth, flow: 0, stability: DEFAULT_STABILITY }
    }

    /// A link of the given bandwidth and stability, with no flow.
    pub fn with_stability(bandwidth: u64, stability: u64) -> (connection: Connection)
        ensures
            connection == (Connection { bandwidth, flow: 0, stability }),
    {
        Connection { bandwidth, flow: 0, stability }
    }

    /// This link carrying `flow` instead of what it carries now.
    pub open spec fn carrying(self, flow: u64) -> Connection {
        Connection { bandwidth: self.bandwidth, flow, stability: self.stability }
    }
}

/// A link as the topology holds it: the two nodes it joins, in the order in
/// which they were given, and what it carries.
#[derive(Clone, Copy, Debug, PartialEq, Eq, Structural)]
pub struct Link {
    pub a: u32,
    pub b: u32,
    pub wire: Connection,
}

impl Link {
    /// Whether the link runs between `x` and `y`, in either direction.
    pub open spec fn joins(self, x: u32, y: u32) -> bool {
        (self.a == x && self.b == y) || (self.a == y && self.b == x)
    }

    /// This link carrying `flow` instead of what it carries now.
    pub open spec fn carrying(self, flow: u64) -> Link {
        Link { a: self.a, b: self.b, wire: self.wire.carrying(flow) }
    }
}

} // verus!

use vstd::prelude::*;

use crate::network::node::{NodeId, NODE_ID_LIMIT};

verus! {

/// One weighted directed edge of a genome. `weight` is a fixed-point value
/// (1000 stands for 1.0). A disabled connection is kept in the gene list to
/// preserve alignment history; it is never removed.
#[derive(Copy, Clone, Debug, Eq, PartialEq, Hash, Structural)]
pub struct Connection {
    pub from: NodeId,
    pub to: NodeId,
    pub weight: i64,
    pub enabled: bool,
}

/// The gene identity of a connection: the pair of endpoints packed into one
/// integer. Two connections in different genomes describe the same structural
/// gene exactly when their keys are equal.
pub open spec fn key_spec(c: Connection) -> int {
    c.from.0 * 0x1_0000_0000 + c.to.0
}

impl Connection {
    /// The gene identity ("innovation key") of this connection.
    pub fn get_hash(&self) -> (r: u64)
        requires
            (self.from.0 as u64) < NODE_ID_LIMIT,
            (self.to.0 as u64) < NODE_ID_LIMIT,
        ensures
            r == key_spec(*self),
    {
        (self.from.0 as u64) * 0x1_0000_0000u64 + (self.to.0 as u64)
    }
}

/// The gene key determines both endpoints: packing 32-bit endpoint ids into
/// one integer is injective.
pub proof fn lemma_key_injective(a: Connection, b: Connection)
    requires
        (a.from.0 as u64) < NODE_ID_LIMIT,
        (a.to.0 as u64) < NODE_ID_LIMIT,
        (b.from.0 as u64) < NODE_ID_LIMIT,
        (b.to.0 as u64) < NODE_ID_LIMIT,
        key_spec(a) == key_spec(b),
    ensures
        a.from == b.from,
        a.to == b.to,
{
    assert(a.from.0 == b.from.0 && a.to.0 == b.to.0) by (nonlinear_arith)
        requires
            a.from.0 < 0x1_0000_0000,
            a.to.0 < 0x1_0000_0000,
            b.from.0 < 0x1_0000_0000,
            b.to.0 < 0x1_0000_0000,
            a.from.0 * 0x1_0000_0000 + a.to.0 == b.from.0 * 0x1_0000_0000 + b.to.0,
    ;
}

} // verus!

use vstd::prelude::*;

use crate::population::genome::LayerId;

verus! {

/// Identity of a node inside one genome. Node identities are unique within a
/// genome and stay below [`NODE_ID_LIMIT`] so that a connection's gene key
/// can pack its two endpoints into one integer.
#[derive(Copy, Clone, Debug, Eq, PartialEq, Hash, Ord, PartialOrd, Structural)]
pub struct NodeId(pub usize);

/// Exclusive upper bound on node identities: ids fit in 32 bits.
pub const NODE_ID_LIMIT: u64 = 0x1_0000_0000;

/// One vertex of a genome's graph. `value` is scratch state for phenotype
/// evaluation and carries no meaning between generations; it is kept as a
/// fixed-point integer like every other fractional quantity.
#[derive(Copy, Clone, Debug, Eq, PartialEq, Hash, Structural)]
pub struct Node {
    pub id: NodeId,
    pub value: i64,
    pub layer: LayerId,
}

} // verus!

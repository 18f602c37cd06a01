//! Differences of envelope balances in steps of 3 dB, along frequency.

use vstd::prelude::*;

use crate::ld_sbr::tree::{ascending_node, ascending_tree};

verus! {

/// The tree of differences of envelope balances in steps of 3 dB, along frequency.
pub const ENV_BALANCE_11_F: [[i8; 2]; 24] = [
    [-64, 1], [-65, 2], [-63, 3], [-66, 4], [-62, 5], [-61, 6],
    [-67, 7], [-68, 8], [-60, 9], [10, 13], [-69, 11], [-59, 12],
    [-58, -76], [14, 17], [15, 16], [-75, -74], [-73, -72], [18, 21],
    [19, 20], [-71, -70], [-57, -56], [22, 23], [-55, -54], [-53, -52],
];

/// The nodes of this tree.
pub closed spec fn nodes() -> Seq<[i8; 2]> {
    ENV_BALANCE_11_F@
}

/// What the nodes of this tree are.
pub proof fn lemma_nodes()
    ensures
        nodes() == ENV_BALANCE_11_F@,
{
}

/// The links of this tree lead to later nodes.
pub proof fn lemma_ascending()
    ensures
        ascending_tree(nodes()),
{
    assert forall|node: int| 0 <= node < 24 implies ascending_node(#[trigger] ENV_BALANCE_11_F@[node], node, 24) by {
    }
}

/// The tree as a slice.
pub fn tree() -> (tree: &'static [[i8; 2]])
    ensures
        tree@ == nodes(),
{
    &ENV_BALANCE_11_F
}

} // verus!

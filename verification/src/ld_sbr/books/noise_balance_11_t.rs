//! Differences of noise balances, along time.

use vstd::prelude::*;

use crate::ld_sbr::tree::{ascending_node, ascending_tree};

verus! {

/// The tree of differences of noise balances, along time.
pub const NOISE_BALANCE_11_T: [[i8; 2]; 24] = [
    [-65, 1], [-64, 2], [-63, 3], [4, 9], [-66, 5], [-62, 6],
    [7, 8], [-76, -75], [-74, -73], [10, 17], [11, 14], [12, 13],
    [-72, -71], [-70, -69], [15, 16], [-68, -67], [-61, -60], [18, 21],
    [19, 20], [-59, -58], [-57, -56], [22, 23], [-55, -54], [-53, -52],
];

/// The nodes of this tree.
pub closed spec fn nodes() -> Seq<[i8; 2]> {
    NOISE_BALANCE_11_T@
}

/// What the nodes of this tree are.
pub proof fn lemma_nodes()
    ensures
        nodes() == NOISE_BALANCE_11_T@,
{
}

/// The links of this tree lead to later nodes.
pub proof fn lemma_ascending()
    ensures
        ascending_tree(nodes()),
{
    assert forall|node: int| 0 <= node < 24 implies ascending_node(#[trigger] NOISE_BALANCE_11_T@[node], node, 24) by {
    }
}

/// The tree as a slice.
pub fn tree() -> (tree: &'static [[i8; 2]])
    ensures
        tree@ == nodes(),
{
    &NOISE_BALANCE_11_T
}

} // verus!

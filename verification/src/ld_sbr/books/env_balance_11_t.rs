//! Differences of envelope balances in steps of 3 dB, along time.

use vstd::prelude::*;

use crate::ld_sbr::tree::{ascending_node, ascending_tree};

verus! {

/// The tree of differences of envelope balances in steps of 3 dB, along time.
pub const ENV_BALANCE_11_T: [[i8; 2]; 24] = [
    [-64, 1], [-63, 2], [-65, 3], [-66, 4], [-62, 5], [-61, 6],
    [-67, 7], [-68, 8], [-60, 9], [10, 16], [11, 13], [-69, 12],
    [-76, -75], [14, 15], [-74, -73], [-72, -71], [17, 20], [18, 19],
    [-70, -59], [-58, -57], [21, 22], [-56, -55], [-54, 23], [-53, -52],
];

/// The nodes of this tree.
pub closed spec fn nodes() -> Seq<[i8; 2]> {
    ENV_BALANCE_11_T@
}

/// What the nodes of this tree are.
pub proof fn lemma_nodes()
    ensures
        nodes() == ENV_BALANCE_11_T@,
{
}

/// The links of this tree lead to later nodes.
pub proof fn lemma_ascending()
    ensures
        ascending_tree(nodes()),
{
    assert forall|node: int| 0 <= node < 24 implies ascending_node(#[trigger] ENV_BALANCE_11_T@[node], node, 24) by {
    }
}

/// The tree as a slice.
pub fn tree() -> (tree: &'static [[i8; 2]])
    ensures
        tree@ == nodes(),
{
    &ENV_BALANCE_11_T
}

} // verus!

//! Differences of envelope balances in steps of 1.5 dB, along time.

use vstd::prelude::*;

use crate::ld_sbr::tree::{ascending_node, ascending_tree};

verus! {

/// The tree of differences of envelope balances in steps of 1.5 dB, along time.
pub const ENV_BALANCE_10_T: [[i8; 2]; 48] = [
    [-64, 1], [-63, 2], [-65, 3], [-62, 4], [-66, 5], [-61, 6],
    [-67, 7], [-60, 8], [-68, 9], [10, 11], [-69, -59], [12, 13],
    [-70, -58], [14, 28], [15, 21], [16, 18], [-57, 17], [-71, -56],
    [19, 20], [-88, -87], [-86, -85], [22, 25], [23, 24], [-84, -83],
    [-82, -81], [26, 27], [-80, -79], [-78, -77], [29, 36], [30, 33],
    [31, 32], [-76, -75], [-74, -73], [34, 35], [-72, -55], [-54, -53],
    [37, 41], [38, 39], [-52, -51], [-50, 40], [-49, -48], [42, 45],
    [43, 44], [-47, -46], [-45, -44], [46, 47], [-43, -42], [-41, -40],
];

/// The nodes of this tree.
pub closed spec fn nodes() -> Seq<[i8; 2]> {
    ENV_BALANCE_10_T@
}

/// What the nodes of this tree are.
pub proof fn lemma_nodes()
    ensures
        nodes() == ENV_BALANCE_10_T@,
{
}

/// The links of this tree lead to later nodes.
pub proof fn lemma_ascending()
    ensures
        ascending_tree(nodes()),
{
    assert forall|node: int| 0 <= node < 48 implies ascending_node(#[trigger] ENV_BALANCE_10_T@[node], node, 48) by {
    }
}

/// The tree as a slice.
pub fn tree() -> (tree: &'static [[i8; 2]])
    ensures
        tree@ == nodes(),
{
    &ENV_BALANCE_10_T
}

} // verus!

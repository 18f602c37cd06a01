//! Differences of envelope balances in steps of 1.5 dB, along frequency.

use vstd::prelude::*;

use crate::ld_sbr::tree::{ascending_node, ascending_tree};

verus! {

/// The tree of differences of envelope balances in steps of 1.5 dB, along frequency.
pub const ENV_BALANCE_10_F: [[i8; 2]; 48] = [
    [-64, 1], [-65, 2], [-63, 3], [-66, 4], [-62, 5], [-61, 6],
    [-67, 7], [-68, 8], [-60, 9], [10, 11], [-69, -59], [-70, 12],
    [-58, 13], [14, 17], [-71, 15], [-57, 16], [-56, -73], [18, 32],
    [19, 25], [20, 22], [-72, 21], [-88, -87], [23, 24], [-86, -85],
    [-84, -83], [26, 29], [27, 28], [-82, -81], [-80, -79], [30, 31],
    [-78, -77], [-76, -75], [33, 40], [34, 37], [35, 36], [-74, -55],
    [-54, -53], [38, 39], [-52, -51], [-50, -49], [41, 44], [42, 43],
    [-48, -47], [-46, -45], [45, 46], [-44, -43], [-42, 47], [-41, -40],
];

/// The nodes of this tree.
pub closed spec fn nodes() -> Seq<[i8; 2]> {
    ENV_BALANCE_10_F@
}

/// What the nodes of this tree are.
pub proof fn lemma_nodes()
    ensures
        nodes() == ENV_BALANCE_10_F@,
{
}

/// The links of this tree lead to later nodes.
pub proof fn lemma_ascending()
    ensures
        ascending_tree(nodes()),
{
    assert forall|node: int| 0 <= node < 48 implies ascending_node(#[trigger] ENV_BALANCE_10_F@[node], node, 48) by {
    }
}

/// The tree as a slice.
pub fn tree() -> (tree: &'static [[i8; 2]])
    ensures
        tree@ == nodes(),
{
    &ENV_BALANCE_10_F
}

} // verus!

//! Differences of envelope levels in steps of 3 dB, along frequency.

use vstd::prelude::*;

use crate::ld_sbr::tree::{ascending_node, ascending_tree};

verus! {

/// The tree of differences of envelope levels in steps of 3 dB, along frequency.
pub const ENV_LEVEL_11_F: [[i8; 2]; 62] = [
    [-64, 1], [-65, 2], [-63, 3], [-66, 4], [-62, 5], [-67, 6],
    [7, 8], [-61, -68], [9, 10], [-60, -69], [11, 12], [-59, -70],
    [13, 14], [-58, -71], [15, 16], [-57, -72], [17, 19], [-56, 18],
    [-55, -73], [20, 24], [21, 22], [-74, -54], [-53, 23], [-75, -76],
    [25, 30], [26, 27], [-52, -51], [28, 29], [-77, -79], [-50, -49],
    [31, 39], [32, 35], [33, 34], [-78, -46], [-82, -88], [36, 37],
    [-83, -48], [-47, 38], [-86, -85], [40, 47], [41, 44], [42, 43],
    [-80, -44], [-43, -42], [45, 46], [-39, -87], [-84, -40], [48, 55],
    [49, 52], [50, 51], [-95, -94], [-93, -92], [53, 54], [-91, -90],
    [-89, -81], [56, 59], [57, 58], [-45, -41], [-38, -37], [60, 61],
    [-36, -35], [-34, -33],
];

/// The nodes of this tree.
pub closed spec fn nodes() -> Seq<[i8; 2]> {
    ENV_LEVEL_11_F@
}

/// What the nodes of this tree are.
pub proof fn lemma_nodes()
    ensures
        nodes() == ENV_LEVEL_11_F@,
{
}

/// The links of this tree lead to later nodes.
pub proof fn lemma_ascending()
    ensures
        ascending_tree(nodes()),
{
    assert forall|node: int| 0 <= node < 62 implies ascending_node(#[trigger] ENV_LEVEL_11_F@[node], node, 62) by {
    }
}

/// The tree as a slice.
pub fn tree() -> (tree: &'static [[i8; 2]])
    ensures
        tree@ == nodes(),
{
    &ENV_LEVEL_11_F
}

} // verus!

//! Differences of envelope levels in steps of 3 dB, along time.

use vstd::prelude::*;

use crate::ld_sbr::tree::{ascending_node, ascending_tree};

verus! {

/// The tree of differences of envelope levels in steps of 3 dB, along time.
pub const ENV_LEVEL_11_T: [[i8; 2]; 62] = [
    [-64, 1], [-65, 2], [-63, 3], [-66, 4], [-62, 5], [-67, 6],
    [-61, 7], [-68, 8], [-60, 9], [10, 11], [-69, -59], [12, 14],
    [-70, 13], [-71, -58], [15, 18], [16, 17], [-72, -57], [-73, -74],
    [19, 22], [-56, 20], [-55, 21], [-54, -77], [23, 31], [24, 25],
    [-75, -76], [26, 27], [-78, -53], [28, 29], [-52, -95], [-94, 30],
    [-93, -92], [32, 47], [33, 40], [34, 37], [35, 36], [-91, -90],
    [-89, -88], [38, 39], [-87, -86], [-85, -84], [41, 44], [42, 43],
    [-83, -82], [-81, -80], [45, 46], [-79, -51], [-50, -49], [48, 55],
    [49, 52], [50, 51], [-48, -47], [-46, -45], [53, 54], [-44, -43],
    [-42, -41], [56, 59], [57, 58], [-40, -39], [-38, -37], [60, 61],
    [-36, -35], [-34, -33],
];

/// The nodes of this tree.
pub closed spec fn nodes() -> Seq<[i8; 2]> {
    ENV_LEVEL_11_T@
}

/// What the nodes of this tree are.
pub proof fn lemma_nodes()
    ensures
        nodes() == ENV_LEVEL_11_T@,
{
}

/// The links of this tree lead to later nodes.
pub proof fn lemma_ascending()
    ensures
        ascending_tree(nodes()),
{
    assert forall|node: int| 0 <= node < 62 implies ascending_node(#[trigger] ENV_LEVEL_11_T@[node], node, 62) by {
    }
}

/// The tree as a slice.
pub fn tree() -> (tree: &'static [[i8; 2]])
    ensures
        tree@ == nodes(),
{
    &ENV_LEVEL_11_T
}

} // verus!

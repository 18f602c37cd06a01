//! Differences of noise levels, along time.

use vstd::prelude::*;

use crate::ld_sbr::tree::{ascending_node, ascending_tree};

verus! {

/// The tree of differences of noise levels, along time.
pub const NOISE_LEVEL_11_T: [[i8; 2]; 62] = [
    [-64, 1], [-63, 2], [-65, 3], [-66, 4], [-62, 5], [-67, 6],
    [7, 8], [-61, -68], [9, 30], [10, 15], [-60, 11], [-69, 12],
    [13, 14], [-59, -53], [-95, -94], [16, 23], [17, 20], [18, 19],
    [-93, -92], [-91, -90], [21, 22], [-89, -88], [-87, -86], [24, 27],
    [25, 26], [-85, -84], [-83, -82], [28, 29], [-81, -80], [-79, -78],
    [31, 46], [32, 39], [33, 36], [34, 35], [-77, -76], [-75, -74],
    [37, 38], [-73, -72], [-71, -70], [40, 43], [41, 42], [-58, -57],
    [-56, -55], [44, 45], [-54, -52], [-51, -50], [47, 54], [48, 51],
    [49, 50], [-49, -48], [-47, -46], [52, 53], [-45, -44], [-43, -42],
    [55, 58], [56, 57], [-41, -40], [-39, -38], [59, 60], [-37, -36],
    [-35, 61], [-34, -33],
];

/// The nodes of this tree.
pub closed spec fn nodes() -> Seq<[i8; 2]> {
    NOISE_LEVEL_11_T@
}

/// What the nodes of this tree are.
pub proof fn lemma_nodes()
    ensures
        nodes() == NOISE_LEVEL_11_T@,
{
}

/// The links of this tree lead to later nodes.
pub proof fn lemma_ascending()
    ensures
        ascending_tree(nodes()),
{
    assert forall|node: int| 0 <= node < 62 implies ascending_node(#[trigger] NOISE_LEVEL_11_T@[node], node, 62) by {
    }
}

/// The tree as a slice.
pub fn tree() -> (tree: &'static [[i8; 2]])
    ensures
        tree@ == nodes(),
{
    &NOISE_LEVEL_11_T
}

} // verus!

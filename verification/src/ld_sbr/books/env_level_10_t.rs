//! Differences of envelope levels in steps of 1.5 dB, along time.

use vstd::prelude::*;

use crate::ld_sbr::tree::{ascending_node, ascending_tree};

verus! {

/// The tree of differences of envelope levels in steps of 1.5 dB, along time.
pub const ENV_LEVEL_10_T: [[i8; 2]; 120] = [
    [1, 2], [-64, -65], [3, 4], [-63, -66], [5, 6], [-62, -67],
    [7, 8], [-61, -68], [9, 10], [-60, -69], [11, 12], [-59, -70],
    [13, 14], [-58, -71], [15, 16], [-57, -72], [17, 18], [-73, -56],
    [19, 21], [-74, 20], [-55, -75], [22, 26], [23, 24], [-54, -76],
    [-77, 25], [-53, -78], [27, 34], [28, 29], [-52, -79], [30, 31],
    [-80, -51], [32, 33], [-83, -82], [-81, -50], [35, 57], [36, 40],
    [37, 38], [-88, -84], [-48, 39], [-90, -85], [41, 46], [42, 43],
    [-49, -87], [44, 45], [-89, -86], [-124, -123], [47, 50], [48, 49],
    [-122, -121], [-120, -119], [51, 54], [52, 53], [-118, -117], [-116, -115],
    [55, 56], [-114, -113], [-112, -111], [58, 89], [59, 74], [60, 67],
    [61, 64], [62, 63], [-110, -109], [-108, -107], [65, 66], [-106, -105],
    [-104, -103], [68, 71], [69, 70], [-102, -101], [-100, -99], [72, 73],
    [-98, -97], [-96, -95], [75, 82], [76, 79], [77, 78], [-94, -93],
    [-92, -91], [80, 81], [-47, -46], [-45, -44], [83, 86], [84, 85],
    [-43, -42], [-41, -40], [87, 88], [-39, -38], [-37, -36], [90, 105],
    [91, 98], [92, 95], [93, 94], [-35, -34], [-33, -32], [96, 97],
    [-31, -30], [-29, -28], [99, 102], [100, 101], [-27, -26], [-25, -24],
    [103, 104], [-23, -22], [-21, -20], [106, 113], [107, 110], [108, 109],
    [-19, -18], [-17, -16], [111, 112], [-15, -14], [-13, -12], [114, 117],
    [115, 116], [-11, -10], [-9, -8], [118, 119], [-7, -6], [-5, -4],
];

/// The nodes of this tree.
pub closed spec fn nodes() -> Seq<[i8; 2]> {
    ENV_LEVEL_10_T@
}

/// What the nodes of this tree are.
pub proof fn lemma_nodes()
    ensures
        nodes() == ENV_LEVEL_10_T@,
{
}

/// The links of this tree lead to later nodes.
pub proof fn lemma_ascending()
    ensures
        ascending_tree(nodes()),
{
    assert forall|node: int| 0 <= node < 120 implies ascending_node(#[trigger] ENV_LEVEL_10_T@[node], node, 120) by {
    }
}

/// The tree as a slice.
pub fn tree() -> (tree: &'static [[i8; 2]])
    ensures
        tree@ == nodes(),
{
    &ENV_LEVEL_10_T
}

} // verus!

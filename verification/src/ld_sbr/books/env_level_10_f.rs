//! Differences of envelope levels in steps of 1.5 dB, along frequency.

use vstd::prelude::*;

use crate::ld_sbr::tree::{ascending_node, ascending_tree};

verus! {

/// The tree of differences of envelope levels in steps of 1.5 dB, along frequency.
pub const ENV_LEVEL_10_F: [[i8; 2]; 120] = [
    [1, 2], [-64, -65], [3, 4], [-63, -66], [5, 6], [-67, -62],
    [7, 8], [-68, -61], [9, 10], [-69, -60], [11, 13], [-70, 12],
    [-59, -71], [14, 16], [-58, 15], [-72, -57], [17, 19], [-73, 18],
    [-56, -74], [20, 23], [21, 22], [-55, -75], [-54, -53], [24, 27],
    [25, 26], [-76, -52], [-77, -51], [28, 31], [29, 30], [-50, -78],
    [-79, -49], [32, 36], [33, 34], [-48, -47], [-80, 35], [-81, -82],
    [37, 47], [38, 41], [39, 40], [-83, -46], [-45, -84], [42, 44],
    [-85, 43], [-44, -43], [45, 46], [-88, -87], [-86, -90], [48, 66],
    [49, 56], [50, 53], [51, 52], [-92, -42], [-41, -39], [54, 55],
    [-105, -89], [-38, -37], [57, 60], [58, 59], [-94, -91], [-40, -36],
    [61, 63], [-20, 62], [-115, -110], [64, 65], [-108, -107], [-101, -97],
    [67, 89], [68, 75], [69, 72], [70, 71], [-95, -93], [-34, -27],
    [73, 74], [-22, -17], [-16, -124], [76, 82], [77, 79], [-123, 78],
    [-122, -121], [80, 81], [-120, -119], [-118, -117], [83, 86], [84, 85],
    [-116, -114], [-113, -112], [87, 88], [-111, -109], [-106, -104], [90, 105],
    [91, 98], [92, 95], [93, 94], [-103, -102], [-100, -99], [96, 97],
    [-98, -96], [-35, -33], [99, 102], [100, 101], [-32, -31], [-30, -29],
    [103, 104], [-28, -26], [-25, -24], [106, 113], [107, 110], [108, 109],
    [-23, -21], [-19, -18], [111, 112], [-15, -14], [-13, -12], [114, 117],
    [115, 116], [-11, -10], [-9, -8], [118, 119], [-7, -6], [-5, -4],
];

/// The nodes of this tree.
pub closed spec fn nodes() -> Seq<[i8; 2]> {
    ENV_LEVEL_10_F@
}

/// What the nodes of this tree are.
pub proof fn lemma_nodes()
    ensures
        nodes() == ENV_LEVEL_10_F@,
{
}

/// The links of this tree lead to later nodes.
pub proof fn lemma_ascending()
    ensures
        ascending_tree(nodes()),
{
    assert forall|node: int| 0 <= node < 120 implies ascending_node(#[trigger] ENV_LEVEL_10_F@[node], node, 120) by {
    }
}

/// The tree as a slice.
pub fn tree() -> (tree: &'static [[i8; 2]])
    ensures
        tree@ == nodes(),
{
    &ENV_LEVEL_10_F
}

} // verus!

//! Groups of neighbouring bands whose gains are evened out against aliasing.

use vstd::prelude::*;

use super::schedule::{border_index, interval_of};

verus! {

/// The groups from a band on, with the start of an open group and behind those
/// closed before.
///
/// A group opens at a band that aliases into the next one, and closes behind
/// four bands or where the aliasing stops.
pub open spec fn groups_from(
    aliased: Seq<bool>,
    usable: Seq<bool>,
    band: int,
    open: Option<usize>,
    groups: Seq<(usize, usize)>,
) -> Seq<(usize, usize)>
    decreases usable.len() - band,
{
    if band + 1 >= usable.len() {
        match open {
            Some(start) => groups.push((start, usable.len() as usize)),
            None => groups,
        }
    } else if aliased[band] && usable[band] {
        match open {
            None => groups_from(aliased, usable, band + 1, Some(band as usize), groups),
            Some(start) => if start + 3 == band {
                groups_from(aliased, usable, band + 1, None, groups.push((start, (band + 1) as usize)))
            } else {
                groups_from(aliased, usable, band + 1, open, groups)
            },
        }
    } else {
        match open {
            None => groups_from(aliased, usable, band + 1, None, groups),
            Some(start) => {
                let stop = if usable[band] {
                    band + 1
                } else {
                    band
                };
                if stop > start {
                    groups_from(aliased, usable, band + 1, None, groups.push((start, stop as usize)))
                } else {
                    groups_from(aliased, usable, band + 1, None, groups)
                }
            },
        }
    }
}

/// Whether the gain of a subband may be evened out: not where its scale factor
/// band has a tone.
pub open spec fn may_even_out(high: Seq<u8>, harmonics: Seq<bool>, band: int) -> bool {
    match interval_of(high, band, 0) {
        Some(sfb) => sfb >= harmonics.len() || !harmonics[sfb],
        None => true,
    }
}

/// Tells whether the gain of a subband may be evened out.
pub fn alias_usable(high: &[u8], harmonics: &[bool], band: usize) -> (usable: bool)
    ensures
        usable == may_even_out(high@, harmonics@, band as int),
{
    match border_index(high, band) {
        Some(sfb) => sfb >= harmonics.len() || !harmonics[sfb],
        None => true,
    }
}

/// Groups neighbouring bands. `aliased` tells which bands alias into the next
/// one, `usable` which may be evened out.
pub fn alias_groups(aliased: &[bool], usable: &[bool]) -> (groups: Vec<(usize, usize)>)
    requires
        aliased@.len() + 1 >= usable@.len(),
    ensures
        groups@ == groups_from(aliased@, usable@, 0, None, Seq::empty()),
{
    assert(usable@.len() == usable.len());
    assert(aliased@.len() == aliased.len());
    let mut groups: Vec<(usize, usize)> = Vec::new();
    let mut open: Option<usize> = None;
    let mut band: usize = 0;
    while band < usable.len() && band + 1 < usable.len()
        invariant
            usable@.len() == usable.len(),
            aliased@.len() == aliased.len(),
            aliased@.len() + 1 >= usable@.len(),
            band <= usable@.len(),
            open matches Some(start) ==> start < band,
            groups_from(aliased@, usable@, 0, None, Seq::empty()) == groups_from(
                aliased@,
                usable@,
                band as int,
                open,
                groups@,
            ),
        decreases usable@.len() - band,
    {
        if aliased[band] && usable[band] {
            match open {
                None => {
                    open = Some(band);
                },
                Some(start) => {
                    if band - start == 3 {
                        groups.push((start, band + 1));
                        open = None;
                    }
                },
            }
        } else {
            match open {
                None => {},
                Some(start) => {
                    let stop: usize = if usable[band] {
                        band + 1
                    } else {
                        band
                    };
                    if stop > start {
                        groups.push((start, stop));
                    }
                    open = None;
                },
            }
        }
        band = band + 1;
    }
    match open {
        Some(start) => groups.push((start, usable.len())),
        None => {},
    }
    groups
}

/// Whether groups are not empty, hold at most four bands each, and follow one
/// another without overlap up to a band.
pub open spec fn groups_separate(groups: Seq<(usize, usize)>, end: int) -> bool {
    &&& forall|i: int| 0 <= i < groups.len() ==> (#[trigger] groups[i]).0 < groups[i].1 <= end && groups[i].1 <= groups[i].0
        + 4
    &&& forall|i: int| 0 <= i < groups.len() - 1 ==> (#[trigger] groups[i]).1 <= groups[i + 1].0
}

proof fn lemma_push_separate(groups: Seq<(usize, usize)>, group: (usize, usize), end: int)
    requires
        groups_separate(groups, group.0 as int),
        group.0 < group.1 <= end,
        group.1 <= group.0 + 4,
    ensures
        groups_separate(groups.push(group), end),
{
    let longer = groups.push(group);
    assert forall|i: int| 0 <= i < longer.len() implies (#[trigger] longer[i]).0 < longer[i].1 <= end && longer[i].1
        <= longer[i].0 + 4 by {
        if i < groups.len() {
            assert(longer[i] == groups[i]);
        }
    }
    assert forall|i: int| 0 <= i < longer.len() - 1 implies (#[trigger] longer[i]).1 <= longer[i + 1].0 by {
        assert(longer[i] == groups[i]);
        if i < groups.len() - 1 {
            assert(longer[i + 1] == groups[i + 1]);
        }
    }
}

proof fn lemma_groups_from(
    aliased: Seq<bool>,
    usable: Seq<bool>,
    band: int,
    open: Option<usize>,
    groups: Seq<(usize, usize)>,
)
    requires
        0 <= band <= usable.len() <= usize::MAX,
        band < usable.len() || open is None,
        match open {
            Some(start) => start < band <= start + 3 && groups_separate(groups, start as int),
            None => groups_separate(groups, band),
        },
    ensures
        groups_separate(groups_from(aliased, usable, band, open, groups), usable.len() as int),
    decreases usable.len() - band,
{
    if band + 1 >= usable.len() {
        match open {
            Some(start) => {
                lemma_push_separate(groups, (start, usable.len() as usize), usable.len() as int);
            },
            None => {
                lemma_later_end(groups, band, usable.len() as int);
            },
        }
    } else if aliased[band] && usable[band] {
        match open {
            None => {
                lemma_groups_from(aliased, usable, band + 1, Some(band as usize), groups);
            },
            Some(start) => {
                if start + 3 == band {
                    let group = (start, (band + 1) as usize);
                    lemma_push_separate(groups, group, band + 1);
                    lemma_groups_from(aliased, usable, band + 1, None, groups.push(group));
                } else {
                    lemma_groups_from(aliased, usable, band + 1, open, groups);
                }
            },
        }
    } else {
        match open {
            None => {
                lemma_later_end(groups, band, band + 1);
                lemma_groups_from(aliased, usable, band + 1, None, groups);
            },
            Some(start) => {
                let stop = if usable[band] {
                    band + 1
                } else {
                    band
                };
                let group = (start, stop as usize);
                lemma_push_separate(groups, group, band + 1);
                lemma_groups_from(aliased, usable, band + 1, None, groups.push(group));
            },
        }
    }
}

proof fn lemma_later_end(groups: Seq<(usize, usize)>, end: int, later: int)
    requires
        groups_separate(groups, end),
        end <= later,
    ensures
        groups_separate(groups, later),
{
}

/// Every group holds between one and four bands, and no band is in two groups.
pub proof fn lemma_groups_are_separate(aliased: Seq<bool>, usable: Seq<bool>)
    requires
        usable.len() <= usize::MAX,
    ensures
        groups_separate(groups_from(aliased, usable, 0, None, Seq::empty()), usable.len() as int),
{
    lemma_groups_from(aliased, usable, 0, None, Seq::empty());
}

/// How much a band takes part in the aliasing with the one below it.
#[derive(Debug, Clone, Copy, PartialEq, Eq, Structural)]
pub enum AliasDegree {
    Nothing,
    Full,
    /// As much as the reflection of the band below leaves.
    FromBelow,
    /// As much as its own reflection leaves.
    FromOwn,
}

/// Whether the sign of a reflection makes a tone of a band lie at its lower
/// border. Odd bands are mirrored.
pub open spec fn leans_down(band: int, sign: i8) -> bool {
    if band % 2 == 0 {
        sign < 0
    } else {
        sign > 0
    }
}

/// The same at its upper border.
pub open spec fn leans_up(band: int, sign: i8) -> bool {
    if band % 2 == 0 {
        sign > 0
    } else {
        sign < 0
    }
}

/// The degree of a band. It is decided by the band above where that one and the
/// band itself lean on their common border and the one below does not.
pub open spec fn alias_degree(signs: Seq<i8>, band: int) -> AliasDegree {
    if 1 <= band && band + 1 < signs.len() && leans_down(band + 1, signs[band + 1]) && leans_down(band + 1, signs[band])
        && leans_up(band + 1, signs[band - 1]) {
        AliasDegree::FromOwn
    } else if band < 2 || !leans_down(band, signs[band]) {
        AliasDegree::Nothing
    } else if leans_down(band, signs[band - 1]) {
        AliasDegree::Full
    } else if leans_up(band, signs[band - 2]) {
        AliasDegree::FromBelow
    } else {
        AliasDegree::Nothing
    }
}

fn down(band: usize, sign: i8) -> (result: bool)
    ensures
        result == leans_down(band as int, sign),
{
    if band % 2 == 0 {
        sign < 0
    } else {
        sign > 0
    }
}

fn up(band: usize, sign: i8) -> (result: bool)
    ensures
        result == leans_up(band as int, sign),
{
    if band % 2 == 0 {
        sign > 0
    } else {
        sign < 0
    }
}

/// Finds how much each band takes part in aliasing, from the signs of the
/// reflections.
pub fn alias_degrees(signs: &[i8]) -> (degrees: Vec<AliasDegree>)
    ensures
        degrees@ == Seq::new(signs@.len(), |band: int| alias_degree(signs@, band)),
{
    let mut degrees: Vec<AliasDegree> = Vec::new();
    assert(signs@.len() == signs.len());
    while degrees.len() < signs.len()
        invariant
            degrees@.len() <= signs@.len() == signs.len(),
            forall|band: int| 0 <= band < degrees@.len() ==> #[trigger] degrees@[band] == alias_degree(signs@, band),
        decreases signs@.len() - degrees@.len(),
    {
        let band: usize = degrees.len();
        let degree: AliasDegree = if 1 <= band && band + 1 < signs.len() && down(band + 1, signs[band + 1]) && down(
            band + 1,
            signs[band],
        ) && up(band + 1, signs[band - 1]) {
            AliasDegree::FromOwn
        } else if band < 2 || !down(band, signs[band]) {
            AliasDegree::Nothing
        } else if down(band, signs[band - 1]) {
            AliasDegree::Full
        } else if up(band, signs[band - 2]) {
            AliasDegree::FromBelow
        } else {
            AliasDegree::Nothing
        };
        degrees.push(degree);
    }
    assert(degrees@ =~= Seq::new(signs@.len(), |band: int| alias_degree(signs@, band)));
    degrees
}

/// Whether a band aliases into the next one and may be evened out.
pub open spec fn links_up(aliased: Seq<bool>, usable: Seq<bool>, band: int) -> bool {
    aliased[band] && usable[band]
}

/// Whether a group is right: every band of it but the last links up to the next one,
/// and where it holds less than four, nothing more could be added behind it.
pub open spec fn group_right(aliased: Seq<bool>, usable: Seq<bool>, group: (usize, usize)) -> bool {
    &&& group.0 < group.1 <= usable.len()
    &&& links_up(aliased, usable, group.0 as int)
    &&& forall|band: int| group.0 <= band < group.1 - 1 ==> #[trigger] links_up(aliased, usable, band)
    &&& group.1 < usable.len() && group.1 < group.0 + 4 ==> !links_up(aliased, usable, group.1 - 1) || !usable[group.1 as int]
}

/// Whether a band is in one of the groups.
pub open spec fn is_grouped(groups: Seq<(usize, usize)>, band: int) -> bool {
    exists|i: int| 0 <= i < groups.len() && (#[trigger] groups[i]).0 <= band < groups[i].1
}

/// Whether all groups are right, and the bands below another that link up are in
/// groups.
spec fn groups_hold(aliased: Seq<bool>, usable: Seq<bool>, groups: Seq<(usize, usize)>, end: int) -> bool {
    &&& forall|i: int| 0 <= i < groups.len() ==> group_right(aliased, usable, #[trigger] groups[i])
    &&& forall|k: int| 0 <= k < end && #[trigger] links_up(aliased, usable, k) ==> is_grouped(groups, k)
}

proof fn lemma_group_added(
    aliased: Seq<bool>,
    usable: Seq<bool>,
    groups: Seq<(usize, usize)>,
    group: (usize, usize),
    end: int,
)
    requires
        groups_hold(aliased, usable, groups, group.0 as int),
        group_right(aliased, usable, group),
        forall|k: int| group.0 <= k < end && #[trigger] links_up(aliased, usable, k) ==> k < group.1,
    ensures
        groups_hold(aliased, usable, groups.push(group), end),
{
    let longer = groups.push(group);
    assert forall|i: int| 0 <= i < longer.len() implies group_right(aliased, usable, #[trigger] longer[i]) by {
        if i < groups.len() {
            assert(longer[i] == groups[i]);
        }
    }
    assert forall|k: int| 0 <= k < end && #[trigger] links_up(aliased, usable, k) implies is_grouped(longer, k) by {
        if k < group.0 {
            assert(is_grouped(groups, k));
            let i = choose|i: int| 0 <= i < groups.len() && (#[trigger] groups[i]).0 <= k < groups[i].1;
            assert(longer[i] == groups[i]);
        } else {
            assert(longer[groups.len() as int] == group);
        }
    }
}

proof fn lemma_groups_right(
    aliased: Seq<bool>,
    usable: Seq<bool>,
    band: int,
    open: Option<usize>,
    groups: Seq<(usize, usize)>,
)
    requires
        0 <= band <= usable.len() <= usize::MAX,
        band < usable.len() || open is None,
        match open {
            Some(start) => start < band <= start + 3 && groups_hold(aliased, usable, groups, start as int) && (forall|k: int|
                start <= k < band ==> #[trigger] links_up(aliased, usable, k)),
            None => groups_hold(aliased, usable, groups, band),
        },
    ensures
        groups_hold(aliased, usable, groups_from(aliased, usable, band, open, groups), usable.len() - 1),
    decreases usable.len() - band,
{
    if band + 1 >= usable.len() {
        match open {
            Some(start) => {
                let group = (start, usable.len() as usize);
                assert(links_up(aliased, usable, start as int));
                assert(group_right(aliased, usable, group));
                lemma_group_added(aliased, usable, groups, group, usable.len() - 1);
            },
            None => {},
        }
    } else if aliased[band] && usable[band] {
        assert(links_up(aliased, usable, band));
        match open {
            None => {
                lemma_groups_right(aliased, usable, band + 1, Some(band as usize), groups);
            },
            Some(start) => {
                assert(links_up(aliased, usable, start as int));
                if start + 3 == band {
                    let group = (start, (band + 1) as usize);
                    assert(group_right(aliased, usable, group));
                    lemma_group_added(aliased, usable, groups, group, band + 1);
                    lemma_groups_right(aliased, usable, band + 1, None, groups.push(group));
                } else {
                    lemma_groups_right(aliased, usable, band + 1, open, groups);
                }
            },
        }
    } else {
        assert(!links_up(aliased, usable, band));
        match open {
            None => {
                lemma_groups_right(aliased, usable, band + 1, None, groups);
            },
            Some(start) => {
                let stop = if usable[band] {
                    band + 1
                } else {
                    band
                };
                let group = (start, stop as usize);
                assert(links_up(aliased, usable, start as int));
                assert(group_right(aliased, usable, group));
                lemma_group_added(aliased, usable, groups, group, band + 1);
                lemma_groups_right(aliased, usable, band + 1, None, groups.push(group));
            },
        }
    }
}

/// Bands that alias into the next one are grouped with it: every band of a group but its
/// last does, a group of less than four ends where that stops, and every band that does
/// is in a group.
pub proof fn lemma_groups_follow_aliasing(aliased: Seq<bool>, usable: Seq<bool>)
    requires
        usable.len() <= usize::MAX,
    ensures
        ({
            let all = groups_from(aliased, usable, 0, None, Seq::empty());
            &&& forall|i: int| 0 <= i < all.len() ==> group_right(aliased, usable, #[trigger] all[i])
            &&& forall|k: int|
                0 <= k < usable.len() - 1 && #[trigger] links_up(aliased, usable, k) ==> is_grouped(all, k)
        }),
{
    lemma_groups_right(aliased, usable, 0, None, Seq::empty());
}

/// Odd bands are mirrored: one band further up, reflections of the other sign mean the
/// same.
pub proof fn lemma_degrees_mirror(signs: Seq<i8>, shifted: Seq<i8>, band: int)
    requires
        shifted.len() == signs.len() + 1,
        forall|i: int| 0 <= i < signs.len() ==> signs[i] > i8::MIN && #[trigger] shifted[i + 1] == -signs[i],
        2 <= band < signs.len(),
    ensures
        alias_degree(shifted, band + 1) == alias_degree(signs, band),
{
    assert(shifted[band + 1] == -signs[band]);
    assert(shifted[(band - 1) + 1] == -signs[band - 1]);
    assert(shifted[(band - 2) + 1] == -signs[band - 2]);
    if band + 1 < signs.len() {
        assert(shifted[(band + 1) + 1] == -signs[band + 1]);
    }
}

/// A band takes part in aliasing only where its own reflection leans on a border that it
/// shares: with the band below, or for its own share with the band above.
pub proof fn lemma_degrees_need_leaning(signs: Seq<i8>, band: int)
    requires
        0 <= band < signs.len(),
    ensures
        signs[band] == 0 ==> alias_degree(signs, band) == AliasDegree::Nothing,
        alias_degree(signs, band) == AliasDegree::Full ==> band >= 2 && leans_down(band, signs[band]) && leans_down(
            band,
            signs[band - 1],
        ),
        alias_degree(signs, band) == AliasDegree::FromBelow ==> band >= 2 && leans_down(band, signs[band]) && !leans_down(
            band,
            signs[band - 1],
        ) && leans_up(band, signs[band - 2]),
{
}

} // verus!

//! Limiter bands: the borders between which gains are limited together.

use vstd::prelude::*;

use crate::ld_sbr::LdSbrFrequencyTables;

use super::error::QmfError;
use super::patches::SbrPatch;

verus! {

/// The starts of all patches but the first, and the highest band.
pub open spec fn patch_borders(patches: Seq<SbrPatch>, high: usize) -> Seq<usize> {
    Seq::new(
        if patches.len() == 0 {
            1
        } else {
            patches.len()
        },
        |i: int|
            if i + 1 < patches.len() {
                patches[i + 1].target_start_band as usize
            } else {
                high
            },
    )
}

/// Whether a band is a border of either kind.
pub open spec fn is_border(low: Seq<u8>, starts: Seq<usize>, band: int) -> bool {
    (exists|i: int| 0 <= i < low.len() && #[trigger] low[i] == band) || (exists|i: int|
        0 <= i < starts.len() && #[trigger] starts[i] == band)
}

/// All borders from a band on, in ascending order.
pub open spec fn borders_from(low: Seq<u8>, starts: Seq<usize>, band: int) -> Seq<usize>
    decreases 256 - band,
{
    if band >= 256 {
        Seq::empty()
    } else if is_border(low, starts, band) {
        seq![band as usize] + borders_from(low, starts, band + 1)
    } else {
        borders_from(low, starts, band + 1)
    }
}

/// The largest ratio of borders that are too close, with sixteen fractional
/// bits. It is two to the power 0.49 divided by the bands per octave.
pub open spec fn closest_ratio(limiter_bands: u8) -> int {
    if limiter_bands == 1 {
        86_976
    } else if limiter_bands == 2 {
        77_666
    } else {
        73_392
    }
}

/// Whether two borders are too close.
pub open spec fn too_close(lower: int, upper: int, limiter_bands: u8) -> bool {
    upper * 65_536 < lower * closest_ratio(limiter_bands)
}

/// Borders with those removed that are too close to the one before, from an
/// index on. Where patches meet, the border below gives way.
pub open spec fn thinned(borders: Seq<usize>, index: int, starts: Seq<usize>, limiter_bands: u8) -> Seq<usize>
    decreases borders.len() - index,
{
    if index >= borders.len() || index < 1 {
        borders
    } else if too_close(borders[index - 1] as int, borders[index] as int, limiter_bands) && !starts.contains(
        borders[index],
    ) {
        thinned(borders.remove(index), index, starts, limiter_bands)
    } else if too_close(borders[index - 1] as int, borders[index] as int, limiter_bands) && !starts.contains(
        borders[index - 1],
    ) && index > 1 {
        thinned(borders.remove(index - 1), index, starts, limiter_bands)
    } else {
        thinned(borders, index + 1, starts, limiter_bands)
    }
}

/// The limiter borders, or why there are none.
pub open spec fn limiter_borders(low: Seq<u8>, patches: Seq<SbrPatch>, limiter_bands: u8) -> Result<Seq<usize>, QmfError> {
    if limiter_bands > 3 || low.len() < 2 {
        Err(QmfError::EnvelopeLayoutMismatch)
    } else if limiter_bands == 0 {
        Ok(seq![low[0] as usize, low.last() as usize])
    } else {
        let starts = patch_borders(patches, low.last() as usize);
        Ok(thinned(borders_from(low, starts, 0), 1, starts, limiter_bands))
    }
}

fn made_patch_borders(patches: &[SbrPatch], high: usize) -> (starts: Vec<usize>)
    requires
        high <= 255,
    ensures
        starts@ == patch_borders(patches@, high),
        forall|i: int| 0 <= i < starts@.len() ==> #[trigger] starts@[i] <= 255,
{
    assert(patches@.len() == patches.len());
    let mut starts: Vec<usize> = Vec::new();
    let mut index: usize = 1;
    while index < patches.len()
        invariant
            1 <= index,
            index <= patches@.len() || index == 1,
            patches@.len() == patches.len(),
            starts@.len() == index - 1,
            forall|i: int|
                0 <= i < starts@.len() ==> #[trigger] starts@[i] == patches@[i + 1].target_start_band as usize,
        decreases patches@.len() - index,
    {
        starts.push(patches[index].target_start_band as usize);
        index = index + 1;
    }
    starts.push(high);
    assert(starts@ =~= patch_borders(patches@, high));
    starts
}

fn contains_band(bands: &Vec<usize>, band: usize) -> (found: bool)
    ensures
        found == bands@.contains(band),
{
    let mut index: usize = 0;
    while index < bands.len()
        invariant
            index <= bands@.len(),
            forall|i: int| 0 <= i < index ==> #[trigger] bands@[i] != band,
        decreases bands@.len() - index,
    {
        if bands[index] == band {
            assert(bands@[index as int] == band);
            return true;
        }
        index = index + 1;
    }
    false
}

fn contains_low(low: &Vec<u8>, band: usize) -> (found: bool)
    ensures
        found == exists|i: int| 0 <= i < low@.len() && #[trigger] low@[i] == band,
{
    let mut index: usize = 0;
    while index < low.len()
        invariant
            index <= low@.len(),
            forall|i: int| 0 <= i < index ==> #[trigger] low@[i] != band,
        decreases low@.len() - index,
    {
        if low[index] as usize == band {
            assert(low@[index as int] == band);
            return true;
        }
        index = index + 1;
    }
    false
}

fn collected_borders(low: &Vec<u8>, starts: &Vec<usize>) -> (borders: Vec<usize>)
    ensures
        borders@ == borders_from(low@, starts@, 0),
        forall|i: int| 0 <= i < borders@.len() ==> #[trigger] borders@[i] <= 255,
{
    let mut borders: Vec<usize> = Vec::new();
    let mut band: usize = 0;
    assert(borders@ + borders_from(low@, starts@, 0) =~= borders_from(low@, starts@, 0));
    while band < 256
        invariant
            band <= 256,
            borders@ + borders_from(low@, starts@, band as int) == borders_from(low@, starts@, 0),
            forall|i: int| 0 <= i < borders@.len() ==> #[trigger] borders@[i] <= 255,
        decreases 256 - band,
    {
        let in_starts: bool = contains_band(starts, band);
        assert(in_starts == exists|i: int| 0 <= i < starts@.len() && #[trigger] starts@[i] == band) by {
            if in_starts {
                let i = choose|i: int| 0 <= i < starts@.len() && starts@[i] == band;
                assert(starts@[i] == band);
            }
        }
        if contains_low(low, band) || in_starts {
            let ghost before = borders@;
            borders.push(band);
            assert(before + (seq![band] + borders_from(low@, starts@, band + 1)) =~= borders@ + borders_from(
                low@,
                starts@,
                band + 1,
            ));
        }
        band = band + 1;
    }
    assert(borders@ + borders_from(low@, starts@, 256) =~= borders@);
    borders
}

fn close_together(lower: usize, upper: usize, limiter_bands: u8) -> (close: bool)
    requires
        lower <= 255,
        upper <= 255,
    ensures
        close == too_close(lower as int, upper as int, limiter_bands),
{
    let ratio: u64 = if limiter_bands == 1 {
        86_976
    } else if limiter_bands == 2 {
        77_666
    } else {
        73_392
    };
    assert(lower * ratio <= 255 * 86_976) by (nonlinear_arith)
        requires
            0 <= lower <= 255,
            0 <= ratio <= 86_976,
    ;
    upper as u64 * 65_536 < lower as u64 * ratio
}

/// Derives the borders between which gains are limited together.
pub fn derive_limiter_borders(tables: &LdSbrFrequencyTables, patches: &[SbrPatch], limiter_bands: u8) -> (result: Result<
    Vec<usize>,
    QmfError,
>)
    ensures
        match limiter_borders(tables.low@, patches@, limiter_bands) {
            Ok(expected) => result matches Ok(borders) && borders@ == expected,
            Err(error) => result == Err::<Vec<usize>, QmfError>(error),
        },
{
    if limiter_bands > 3 || tables.low.len() < 2 {
        return Err(QmfError::EnvelopeLayoutMismatch);
    }
    let low: usize = tables.low[0] as usize;
    let high: usize = tables.low[tables.low.len() - 1] as usize;
    if limiter_bands == 0 {
        let mut borders: Vec<usize> = Vec::new();
        borders.push(low);
        borders.push(high);
        assert(borders@ =~= seq![low, high]);
        return Ok(borders);
    }
    let starts: Vec<usize> = made_patch_borders(patches, high);
    let mut borders: Vec<usize> = collected_borders(&tables.low, &starts);
    let mut index: usize = 1;
    while index < borders.len()
        invariant
            1 <= index,
            limiter_borders(tables.low@, patches@, limiter_bands) == Ok::<Seq<usize>, QmfError>(
                thinned(borders@, index as int, starts@, limiter_bands),
            ),
            forall|i: int| 0 <= i < borders@.len() ==> #[trigger] borders@[i] <= 255,
        decreases borders@.len() - index,
    {
        let lower: usize = borders[index - 1];
        let upper: usize = borders[index];
        if close_together(lower, upper, limiter_bands) {
            if !contains_band(&starts, upper) {
                let _ = borders.remove(index);
                continue;
            }
            if !contains_band(&starts, lower) && index > 1 {
                let _ = borders.remove(index - 1);
                continue;
            }
        }
        index = index + 1;
    }
    Ok(borders)
}

/// Whether bands rise.
pub open spec fn rising(borders: Seq<usize>) -> bool {
    forall|i: int, j: int| 0 <= i < j < borders.len() ==> #[trigger] borders[i] < #[trigger] borders[j]
}

proof fn lemma_all_borders(low: Seq<u8>, starts: Seq<usize>, band: int, border: usize)
    requires
        0 <= band <= 256,
    ensures
        band <= border < 256 && is_border(low, starts, border as int) ==> borders_from(low, starts, band).contains(border),
        forall|i: int|
            0 <= i < borders_from(low, starts, band).len() ==> band <= #[trigger] borders_from(low, starts, band)[i] < 256,
        rising(borders_from(low, starts, band)),
    decreases 256 - band,
{
    if band < 256 {
        lemma_all_borders(low, starts, band + 1, border);
        let rest = borders_from(low, starts, band + 1);
        if is_border(low, starts, band) {
            let all = seq![band as usize] + rest;
            assert(borders_from(low, starts, band) == all);
            if band == border {
                assert(all[0] == border);
            } else if rest.contains(border) {
                let i = choose|i: int| 0 <= i < rest.len() && rest[i] == border;
                assert(all[i + 1] == border);
            }
            assert forall|i: int| 0 <= i < all.len() implies band <= #[trigger] all[i] < 256 by {
                if i > 0 {
                    assert(all[i] == rest[i - 1]);
                }
            }
            assert forall|i: int, j: int| 0 <= i < j < all.len() implies #[trigger] all[i] < #[trigger] all[j] by {
                assert(all[j] == rest[j - 1]);
                if i > 0 {
                    assert(all[i] == rest[i - 1]);
                }
            }
        }
    }
}

proof fn lemma_removed(borders: Seq<usize>, at: int, border: usize)
    requires
        0 <= at < borders.len(),
        rising(borders),
    ensures
        rising(borders.remove(at)),
        borders.contains(border) && borders[at] != border ==> borders.remove(at).contains(border),
{
    let rest = borders.remove(at);
    assert forall|i: int, j: int| 0 <= i < j < rest.len() implies #[trigger] rest[i] < #[trigger] rest[j] by {
        let a = if i < at { i } else { i + 1 };
        let b = if j < at { j } else { j + 1 };
        assert(rest[i] == borders[a] && rest[j] == borders[b]);
    }
    if borders.contains(border) && borders[at] != border {
        let i = choose|i: int| 0 <= i < borders.len() && borders[i] == border;
        assert(rest[if i < at { i } else { i - 1 }] == border);
    }
}

proof fn lemma_thinned(borders: Seq<usize>, index: int, starts: Seq<usize>, limiter_bands: u8, border: usize)
    requires
        rising(borders),
    ensures
        rising(thinned(borders, index, starts, limiter_bands)),
        starts.contains(border) && borders.contains(border) ==> thinned(borders, index, starts, limiter_bands).contains(
            border,
        ),
    decreases borders.len() - index,
{
    if 1 <= index < borders.len() {
        let close = too_close(borders[index - 1] as int, borders[index] as int, limiter_bands);
        if close && !starts.contains(borders[index]) {
            lemma_removed(borders, index, border);
            lemma_thinned(borders.remove(index), index, starts, limiter_bands, border);
        } else if close && !starts.contains(borders[index - 1]) && index > 1 {
            lemma_removed(borders, index - 1, border);
            lemma_thinned(borders.remove(index - 1), index, starts, limiter_bands, border);
        } else {
            lemma_thinned(borders, index + 1, starts, limiter_bands, border);
        }
    }
}

/// Limiter borders rise, and every border between patches stays among them.
pub proof fn lemma_patch_borders_stay(low: Seq<u8>, patches: Seq<SbrPatch>, limiter_bands: u8, patch: int)
    requires
        1 <= limiter_bands <= 3,
        low.len() >= 2,
        1 <= patch < patches.len(),
    ensures
        limiter_borders(low, patches, limiter_bands) matches Ok(borders) && rising(borders) && borders.contains(
            patches[patch].target_start_band as usize,
        ) && borders.contains(low.last() as usize),
{
    let starts = patch_borders(patches, low.last() as usize);
    let all = borders_from(low, starts, 0);
    let border = patches[patch].target_start_band as usize;
    let last = low.last() as usize;
    assert(starts[patch - 1] == border);
    assert(starts[starts.len() - 1] == last);
    lemma_all_borders(low, starts, 0, border);
    lemma_all_borders(low, starts, 0, last);
    lemma_thinned(all, 1, starts, limiter_bands, border);
    lemma_thinned(all, 1, starts, limiter_bands, last);
}

/// Whether neighbouring borders are far enough from each other, or could not give way.
spec fn spaced(borders: Seq<usize>, index: int, starts: Seq<usize>, limiter_bands: u8) -> bool {
    too_close(borders[index - 1] as int, borders[index] as int, limiter_bands) ==> starts.contains(borders[index]) && (
    starts.contains(borders[index - 1]) || index == 1)
}

proof fn lemma_spaced(borders: Seq<usize>, index: int, starts: Seq<usize>, limiter_bands: u8)
    requires
        rising(borders),
        1 <= index,
        borders.len() >= 1,
        forall|k: int| 1 <= k < index && k < borders.len() ==> #[trigger] spaced(borders, k, starts, limiter_bands),
    ensures
        ({
            let rest = thinned(borders, index, starts, limiter_bands);
            &&& forall|k: int| 1 <= k < rest.len() ==> #[trigger] spaced(rest, k, starts, limiter_bands)
            &&& forall|k: int| 0 <= k < rest.len() ==> borders.contains(#[trigger] rest[k])
            &&& rest.len() >= 1
            &&& rest[0] == borders[0]
        }),
    decreases borders.len() - index,
{
    if index < borders.len() {
        let close = too_close(borders[index - 1] as int, borders[index] as int, limiter_bands);
        if close && !starts.contains(borders[index]) {
            let fewer = borders.remove(index);
            lemma_removed(borders, index, 0);
            assert forall|k: int| 1 <= k < index && k < fewer.len() implies #[trigger] spaced(
                fewer,
                k,
                starts,
                limiter_bands,
            ) by {
                assert(spaced(borders, k, starts, limiter_bands));
            }
            lemma_spaced(fewer, index, starts, limiter_bands);
            lemma_members(borders, index, thinned(borders, index, starts, limiter_bands));
        } else if close && !starts.contains(borders[index - 1]) && index > 1 {
            let fewer = borders.remove(index - 1);
            lemma_removed(borders, index - 1, 0);
            assert forall|k: int| 1 <= k < index && k < fewer.len() implies #[trigger] spaced(
                fewer,
                k,
                starts,
                limiter_bands,
            ) by {
                assert(spaced(borders, k, starts, limiter_bands));
                if k == index - 1 {
                    assert(fewer[k] == borders[index] && fewer[k - 1] == borders[index - 2]);
                    assert(borders[index - 1] < borders[index]);
                }
            }
            lemma_spaced(fewer, index, starts, limiter_bands);
            lemma_members(borders, index - 1, thinned(borders, index, starts, limiter_bands));
        } else {
            assert(spaced(borders, index, starts, limiter_bands));
            lemma_spaced(borders, index + 1, starts, limiter_bands);
        }
    } else {
        assert forall|k: int| 0 <= k < borders.len() implies borders.contains(#[trigger] borders[k]) by {
        }
    }
}

proof fn lemma_members(borders: Seq<usize>, at: int, rest: Seq<usize>)
    requires
        0 <= at < borders.len(),
        forall|k: int| 0 <= k < rest.len() ==> borders.remove(at).contains(#[trigger] rest[k]),
    ensures
        forall|k: int| 0 <= k < rest.len() ==> borders.contains(#[trigger] rest[k]),
{
    let fewer = borders.remove(at);
    assert forall|k: int| 0 <= k < rest.len() implies borders.contains(#[trigger] rest[k]) by {
        assert(fewer.contains(rest[k]));
        let i = choose|i: int| 0 <= i < fewer.len() && fewer[i] == rest[k];
        assert(borders[if i < at { i } else { i + 1 }] == rest[k]);
    }
}

/// Limiter borders are among those of the low-resolution bands and of the patches, and
/// begin with the lowest of them. Two neighbours are closer than the bands per octave
/// allow only where the upper one belongs to patches, and the lower one does too or is
/// the first.
pub proof fn lemma_limiter_spacing(low: Seq<u8>, patches: Seq<SbrPatch>, limiter_bands: u8, index: int)
    requires
        1 <= limiter_bands <= 3,
        low.len() >= 2,
    ensures
        limiter_borders(low, patches, limiter_bands) matches Ok(borders) && ({
            let starts = patch_borders(patches, low.last() as usize);
            &&& 0 <= index < borders.len() ==> is_border(low, starts, borders[index] as int)
            &&& borders.len() >= 1
            &&& forall|border: int| 0 <= border < 256 && #[trigger] is_border(low, starts, border) ==> borders[0] <= border
            &&& 1 <= index < borders.len() && too_close(
                borders[index - 1] as int,
                borders[index] as int,
                limiter_bands,
            ) ==> starts.contains(borders[index]) && (starts.contains(borders[index - 1]) || index == 1)
        }),
{
    let starts = patch_borders(patches, low.last() as usize);
    let all = borders_from(low, starts, 0);
    let last = low.last() as usize;
    assert(low[low.len() - 1] == last);
    assert(is_border(low, starts, last as int));
    lemma_all_borders(low, starts, 0, last);
    assert(all.len() >= 1);
    lemma_spaced(all, 1, starts, limiter_bands);
    let borders = thinned(all, 1, starts, limiter_bands);
    if 1 <= index < borders.len() {
        assert(spaced(borders, index, starts, limiter_bands));
    }
    if 0 <= index < borders.len() {
        assert(all.contains(borders[index]));
        lemma_only_borders(low, starts, 0, borders[index]);
    }
    assert forall|border: int| 0 <= border < 256 && #[trigger] is_border(low, starts, border) implies borders[0] <= border by {
        lemma_all_borders(low, starts, 0, border as usize);
        let i = choose|i: int| 0 <= i < all.len() && all[i] == border as usize;
        if i > 0 {
            assert(all[0] < all[i]);
        }
    }
}

proof fn lemma_only_borders(low: Seq<u8>, starts: Seq<usize>, band: int, border: usize)
    requires
        0 <= band <= 256,
        borders_from(low, starts, band).contains(border),
    ensures
        is_border(low, starts, border as int),
    decreases 256 - band,
{
    if band < 256 {
        let rest = borders_from(low, starts, band + 1);
        let all = borders_from(low, starts, band);
        let i = choose|i: int| 0 <= i < all.len() && all[i] == border;
        if is_border(low, starts, band) {
            if i > 0 {
                assert(rest[i - 1] == border);
                lemma_only_borders(low, starts, band + 1, border);
            }
        } else {
            assert(rest[i] == border);
            lemma_only_borders(low, starts, band + 1, border);
        }
    }
}

} // verus!

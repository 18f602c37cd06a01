//! Subband samples, and the copying of low bands to high ones. The samples may be
//! of any number format.

use vstd::prelude::*;

use super::error::QmfError;
use super::patches::{patches_join, SbrPatch};

verus! {

/// The subband samples at one time.
#[derive(Debug, Clone, PartialEq, Eq)]
pub struct QmfSlot<T> {
    pub real: Vec<T>,
    pub imaginary: Vec<T>,
}

/// The model of [`QmfSlot`].
#[verifier::ext_equal]
pub struct SlotFields<T> {
    pub real: Seq<T>,
    pub imaginary: Seq<T>,
}

impl<T> View for QmfSlot<T> {
    type V = SlotFields<T>;

    open spec fn view(&self) -> SlotFields<T> {
        SlotFields { real: self.real@, imaginary: self.imaginary@ }
    }
}

/// Samples filled up to 64 with silence.
pub open spec fn filled_up<T>(samples: Seq<T>, zero: T) -> Seq<T> {
    if samples.len() < 64 {
        Seq::new(
            64,
            |i: int|
                if i < samples.len() {
                    samples[i]
                } else {
                    zero
                },
        )
    } else {
        samples
    }
}

/// A slot filled up to 64 bands.
pub open spec fn filled_slot<T>(slot: SlotFields<T>, zero: T) -> SlotFields<T> {
    SlotFields { real: filled_up(slot.real, zero), imaginary: filled_up(slot.imaginary, zero) }
}

/// A slot with a band copied to another.
pub open spec fn copied<T>(slot: SlotFields<T>, source: int, target: int) -> SlotFields<T> {
    SlotFields {
        real: slot.real.update(target, slot.real[source]),
        imaginary: slot.imaginary.update(target, slot.imaginary[source]),
    }
}

/// A slot behind the patches from a band of a patch on, and what is wrong with
/// the patch at which copying stopped.
pub open spec fn patched<T>(slot: SlotFields<T>, patches: Seq<SbrPatch>, index: int, offset: int) -> (
    Option<QmfError>,
    SlotFields<T>,
)
    decreases patches.len() - index, 256 - offset,
{
    if index < 0 || index >= patches.len() {
        (None, slot)
    } else {
        let source = patches[index].source_start_band + offset;
        let target = patches[index].target_start_band + offset;
        if offset < 0 || offset >= patches[index].band_count {
            patched(slot, patches, index + 1, 0)
        } else if source >= 32 || target >= 64 {
            (Some(QmfError::InvalidPatchBand { source: source as usize, target: target as usize }), slot)
        } else {
            patched(copied(slot, source, target), patches, index, offset + 1)
        }
    }
}

/// The views of slots.
pub open spec fn slot_views<T>(slots: Seq<QmfSlot<T>>) -> Seq<SlotFields<T>> {
    slots.map_values(|slot: QmfSlot<T>| slot@)
}

/// Slots with the patches applied from a slot on. The first patch that leads out
/// of the bands ends the copying.
pub open spec fn patched_slots<T>(slots: Seq<SlotFields<T>>, patches: Seq<SbrPatch>, zero: T, index: int) -> (
    Option<QmfError>,
    Seq<SlotFields<T>>,
)
    decreases slots.len() - index,
{
    if index < 0 || index >= slots.len() {
        (None, slots)
    } else {
        match patched(filled_slot(slots[index], zero), patches, 0, 0) {
            (Some(error), slot) => (Some(error), slots.update(index, slot)),
            (None, slot) => patched_slots(slots.update(index, slot), patches, zero, index + 1),
        }
    }
}

fn fill_up<T: Copy>(samples: &Vec<T>, zero: T) -> (filled: Vec<T>)
    ensures
        filled@ == filled_up(samples@, zero),
{
    let mut filled: Vec<T> = vstd::slice::slice_to_vec(samples.as_slice());
    let ghost expected = filled_up(samples@, zero);
    while filled.len() < 64
        invariant
            filled@.len() < 64 ==> samples@.len() <= filled@.len(),
            samples@.len() >= 64 ==> filled@ == samples@,
            samples@.len() < 64 ==> samples@.len() <= filled@.len() <= 64,
            samples@.len() < 64 ==> forall|i: int|
                0 <= i < filled@.len() ==> #[trigger] filled@[i] == (if i < samples@.len() {
                    samples@[i]
                } else {
                    zero
                }),
        decreases 64 - filled@.len(),
    {
        filled.push(zero);
    }
    assert(filled@ =~= expected);
    filled
}

fn patch_slot<T: Copy>(slot: &QmfSlot<T>, patches: &[SbrPatch], zero: T) -> (result: (Option<QmfError>, QmfSlot<T>))
    ensures
        (result.0, result.1@) == patched(filled_slot(slot@, zero), patches@, 0, 0),
{
    let mut first: Vec<T> = fill_up(&slot.real, zero);
    let mut second: Vec<T> = fill_up(&slot.imaginary, zero);
    let ghost start = filled_slot(slot@, zero);
    let mut index: usize = 0;
    assert(patches@.len() == patches.len());
    assert(SlotFields { real: first@, imaginary: second@ } =~= start);
    while index < patches.len()
        invariant
            index <= patches@.len() == patches.len(),
            first@.len() >= 64,
            second@.len() >= 64,
            start == filled_slot(slot@, zero),
            patched(start, patches@, 0, 0) == patched(
                SlotFields { real: first@, imaginary: second@ },
                patches@,
                index as int,
                0,
            ),
        decreases patches@.len() - index,
    {
        let patch: SbrPatch = patches[index];
        let mut offset: u8 = 0;
        while offset < patch.band_count
            invariant
                index < patches@.len(),
                patch == patches@[index as int],
                offset <= patch.band_count,
                first@.len() >= 64,
                second@.len() >= 64,
                start == filled_slot(slot@, zero),
                patched(start, patches@, 0, 0) == patched(
                    SlotFields { real: first@, imaginary: second@ },
                    patches@,
                    index as int,
                    offset as int,
                ),
            decreases patch.band_count - offset,
        {
            let source: usize = patch.source_start_band as usize + offset as usize;
            let target: usize = patch.target_start_band as usize + offset as usize;
            if source >= 32 || target >= 64 {
                return (Some(QmfError::InvalidPatchBand { source, target }), QmfSlot { real: first, imaginary: second });
            }
            let ghost before = SlotFields { real: first@, imaginary: second@ };
            first.set(target, first[source]);
            second.set(target, second[source]);
            assert(SlotFields { real: first@, imaginary: second@ } =~= copied(before, source as int, target as int));
            offset = offset + 1;
        }
        index = index + 1;
    }
    (None, QmfSlot { real: first, imaginary: second })
}

/// Copies bands to the targets of patches, in every slot. A patch that leads out
/// of the bands is refused when it is reached.
pub fn apply_patches<T: Copy>(slots: &mut Vec<QmfSlot<T>>, patches: &[SbrPatch], zero: T) -> (result: Result<(), QmfError>)
    ensures
        slot_views(final(slots)@) == patched_slots(slot_views(old(slots)@), patches@, zero, 0).1,
        match patched_slots(slot_views(old(slots)@), patches@, zero, 0).0 {
            Some(error) => result == Err::<(), QmfError>(error),
            None => result is Ok,
        },
{
    let ghost start = slot_views(slots@);
    let mut index: usize = 0;
    while index < slots.len()
        invariant
            index <= slots@.len(),
            start == slot_views(old(slots)@),
            patched_slots(start, patches@, zero, 0) == patched_slots(slot_views(slots@), patches@, zero, index as int),
        decreases slots@.len() - index,
    {
        let ghost before = slot_views(slots@);
        let (error, slot): (Option<QmfError>, QmfSlot<T>) = patch_slot(&slots[index], patches, zero);
        assert(before[index as int] == slots@[index as int]@);
        slots.set(index, slot);
        assert(slot_views(slots@) =~= before.update(index as int, slot@));
        match error {
            Some(error) => return Err(error),
            None => {},
        }
        index = index + 1;
    }
    Ok(())
}

/// Whether a band of a patch holds the sample of its source.
pub open spec fn band_copied<T>(slot: SlotFields<T>, now: SlotFields<T>, patch: SbrPatch, k: int) -> bool {
    &&& now.real[patch.target_start_band + k] == slot.real[patch.source_start_band + k]
    &&& now.imaginary[patch.target_start_band + k] == slot.imaginary[patch.source_start_band + k]
}

/// Whether the bands before a place in patches hold the samples of their sources,
/// and those below the lowest are as they were.
spec fn copied_so_far<T>(
    slot: SlotFields<T>,
    now: SlotFields<T>,
    patches: Seq<SbrPatch>,
    lowest: int,
    index: int,
    offset: int,
) -> bool {
    &&& now.real.len() == slot.real.len()
    &&& now.imaginary.len() == slot.imaginary.len()
    &&& forall|b: int| 0 <= b < lowest ==> #[trigger] now.real[b] == slot.real[b]
    &&& forall|b: int| 0 <= b < lowest ==> #[trigger] now.imaginary[b] == slot.imaginary[b]
    &&& forall|i: int, k: int|
        0 <= i < patches.len() && 0 <= k < patches[i].band_count && (i < index || (i == index && k < offset))
            ==> #[trigger] band_copied(slot, now, patches[i], k)
}

proof fn lemma_targets_rise(patches: Seq<SbrPatch>, start: int, lowest: int, i: int, j: int)
    requires
        patches_join(patches, start, lowest),
        0 <= i < j < patches.len(),
    ensures
        patches[i].target_start_band + patches[i].band_count <= patches[j].target_start_band,
        start <= patches[i].target_start_band,
    decreases j + i,
{
    if i + 1 < j {
        lemma_targets_rise(patches, start, lowest, i, j - 1);
        assert(patches[j - 1].target_start_band + patches[j - 1].band_count == patches[j].target_start_band);
    } else {
        assert(patches[i].target_start_band + patches[i].band_count == patches[i + 1].target_start_band);
        if i > 0 {
            lemma_targets_rise(patches, start, lowest, i - 1, i);
        }
    }
}

proof fn lemma_copy_step<T>(
    slot: SlotFields<T>,
    now: SlotFields<T>,
    patches: Seq<SbrPatch>,
    start: int,
    lowest: int,
    index: int,
    offset: int,
)
    requires
        slot.real.len() >= 64,
        slot.imaginary.len() >= 64,
        patches_join(patches, start, lowest),
        0 <= lowest <= start,
        0 <= index < patches.len(),
        0 <= offset < patches[index].band_count,
        patches[index].source_start_band + offset < 32,
        patches[index].target_start_band + offset < 64,
        copied_so_far(slot, now, patches, lowest, index, offset),
    ensures
        copied_so_far(
            slot,
            copied(now, patches[index].source_start_band + offset, patches[index].target_start_band + offset),
            patches,
            lowest,
            index,
            offset + 1,
        ),
{
    let patch = patches[index];
    let source = patch.source_start_band + offset;
    let target = patch.target_start_band + offset;
    let next = copied(now, source, target);
    if index > 0 {
        lemma_targets_rise(patches, start, lowest, 0, index);
    }
    assert(source < lowest <= target);
    assert forall|i: int, k: int|
        0 <= i < patches.len() && 0 <= k < patches[i].band_count && (i < index || (i == index && k < offset
            + 1)) implies #[trigger] band_copied(slot, next, patches[i], k) by {
        if i < index {
            lemma_targets_rise(patches, start, lowest, i, index);
        }
        if i < index || k < offset {
            assert(band_copied(slot, now, patches[i], k));
            assert(patches[i].target_start_band + k != target);
        } else {
            assert(now.real[source] == slot.real[source]);
            assert(now.imaginary[source] == slot.imaginary[source]);
        }
    }
}

proof fn lemma_copying<T>(
    slot: SlotFields<T>,
    now: SlotFields<T>,
    patches: Seq<SbrPatch>,
    start: int,
    lowest: int,
    index: int,
    offset: int,
)
    requires
        slot.real.len() >= 64,
        slot.imaginary.len() >= 64,
        patches_join(patches, start, lowest),
        0 <= lowest <= start,
        0 <= index <= patches.len(),
        0 <= offset,
        index < patches.len() ==> offset <= patches[index].band_count,
        index == patches.len() ==> offset == 0,
        copied_so_far(slot, now, patches, lowest, index, offset),
    ensures
        patched(now, patches, index, offset).0 is None ==> copied_so_far(
            slot,
            patched(now, patches, index, offset).1,
            patches,
            lowest,
            patches.len() as int,
            0,
        ),
    decreases patches.len() - index, 256 - offset,
{
    if index < patches.len() {
        let patch = patches[index];
        let source = patch.source_start_band + offset;
        let target = patch.target_start_band + offset;
        if offset >= patch.band_count {
            lemma_copying(slot, now, patches, start, lowest, index + 1, 0);
        } else if source < 32 && target < 64 {
            lemma_copy_step(slot, now, patches, start, lowest, index, offset);
            lemma_copying(slot, copied(now, source, target), patches, start, lowest, index, offset + 1);
        }
    }
}

/// Where patches follow one another above their sources, every band that they
/// fill ends up with the sample of its source.
pub proof fn lemma_patches_copy<T>(slot: SlotFields<T>, patches: Seq<SbrPatch>, start: int, lowest: int, patch: int, offset: int)
    requires
        slot.real.len() >= 64,
        slot.imaginary.len() >= 64,
        patches_join(patches, start, lowest),
        0 <= lowest <= start,
        patched(slot, patches, 0, 0).0 is None,
        0 <= patch < patches.len(),
        0 <= offset < patches[patch].band_count,
    ensures
        band_copied(slot, patched(slot, patches, 0, 0).1, patches[patch], offset),
{
    assert(patches.len() > 0);
    lemma_copying(slot, slot, patches, start, lowest, 0, 0);
}

proof fn lemma_slots_behind<T>(slots: Seq<SlotFields<T>>, patches: Seq<SbrPatch>, zero: T, index: int, at: int)
    requires
        0 <= index <= slots.len(),
        0 <= at < slots.len(),
    ensures
        ({
            let (error, list) = patched_slots(slots, patches, zero, index);
            &&& list.len() == slots.len()
            &&& at < index ==> list[at] == slots[at]
            &&& at >= index && error is None ==> (None::<QmfError>, list[at]) == patched(
                filled_slot(slots[at], zero),
                patches,
                0,
                0,
            )
        }),
    decreases slots.len() - index,
{
    if index < slots.len() {
        let (error, slot) = patched(filled_slot(slots[index], zero), patches, 0, 0);
        if error is None {
            lemma_slots_behind(slots.update(index, slot), patches, zero, index + 1, at);
        }
    }
}

/// The sample of a band, or silence above the bands that a slot has.
pub open spec fn sample_or<T>(samples: Seq<T>, band: int, zero: T) -> T {
    if band < samples.len() {
        samples[band]
    } else {
        zero
    }
}

/// Where patches follow one another above their sources, every slot has in the bands that they
/// fill its own samples of the source bands, and below them what it had.
pub proof fn lemma_slots_patched<T>(
    slots: Seq<SlotFields<T>>,
    patches: Seq<SbrPatch>,
    zero: T,
    start: int,
    lowest: int,
    at: int,
    patch: int,
    offset: int,
    below: int,
)
    requires
        patches_join(patches, start, lowest),
        0 <= lowest <= start,
        patched_slots(slots, patches, zero, 0).0 is None,
        0 <= at < slots.len(),
        0 <= patch < patches.len(),
        0 <= offset < patches[patch].band_count,
        0 <= below < lowest,
        below < 64,
    ensures
        ({
            let now = patched_slots(slots, patches, zero, 0).1[at];
            let source = patches[patch].source_start_band + offset;
            let target = patches[patch].target_start_band + offset;
            &&& now.real[target] == sample_or(slots[at].real, source, zero)
            &&& now.imaginary[target] == sample_or(slots[at].imaginary, source, zero)
            &&& now.real[below] == sample_or(slots[at].real, below, zero)
            &&& now.imaginary[below] == sample_or(slots[at].imaginary, below, zero)
        }),
{
    let slot = filled_slot(slots[at], zero);
    lemma_slots_behind(slots, patches, zero, 0, at);
    lemma_copying(slot, slot, patches, start, lowest, 0, 0);
    let now = patched(slot, patches, 0, 0).1;
    assert(copied_so_far(slot, now, patches, lowest, patches.len() as int, 0));
    assert(band_copied(slot, now, patches[patch], offset));
    lemma_bands_reached(slot, patches, 0, 0, patch, offset);
}

/// The bands of patches that were all copied lie within the bands there are.
proof fn lemma_bands_reached<T>(
    slot: SlotFields<T>,
    patches: Seq<SbrPatch>,
    index: int,
    from: int,
    patch: int,
    offset: int,
)
    requires
        patched(slot, patches, index, from).0 is None,
        0 <= index <= patch < patches.len(),
        0 <= from,
        index == patch ==> from <= offset,
        0 <= offset < patches[patch].band_count,
    ensures
        patches[patch].source_start_band + offset < 32,
        patches[patch].target_start_band + offset < 64,
    decreases patches.len() - index, 256 - from,
{
    let source = patches[index].source_start_band + from;
    let target = patches[index].target_start_band + from;
    if from >= patches[index].band_count {
        lemma_bands_reached(slot, patches, index + 1, 0, patch, offset);
    } else if index < patch || from < offset {
        lemma_bands_reached(copied(slot, source, target), patches, index, from + 1, patch, offset);
    }
}

} // verus!

//! Patches: which low bands are copied to which high bands.

use vstd::prelude::*;

use crate::ld_sbr::{LdSbrError, LdSbrFrequencyTables};

use super::error::QmfError;
use super::schedule::{border_index, interval_of};

verus! {

/// Neighbouring low bands that are copied to neighbouring high bands.
#[derive(Debug, Clone, Copy, PartialEq, Eq, Structural)]
pub struct SbrPatch {
    pub source_start_band: u8,
    pub target_start_band: u8,
    pub band_count: u8,
}

/// The first border from an index on that is at least a goal.
pub open spec fn first_at_least(master: Seq<u8>, goal: int, from: int) -> Option<u8>
    decreases master.len() - from,
{
    if from >= master.len() {
        None
    } else if master[from] >= goal {
        Some(master[from])
    } else {
        first_at_least(master, goal, from + 1)
    }
}

/// The last border below an index that is at most a goal.
pub open spec fn last_at_most(master: Seq<u8>, goal: int, below: int) -> Option<u8>
    decreases below,
{
    if below <= 0 {
        None
    } else if master[below - 1] <= goal {
        Some(master[below - 1])
    } else {
        last_at_most(master, goal, below - 1)
    }
}

/// The border next to a goal in a direction, or the one at that end.
pub open spec fn nearest_border(master: Seq<u8>, goal: int, upward: bool) -> int {
    if upward {
        match first_at_least(master, goal, 0) {
            Some(border) => border as int,
            None => master.last() as int,
        }
    } else {
        match last_at_most(master, goal, master.len() as int) {
            Some(border) => border as int,
            None => master[0] as int,
        }
    }
}

/// Finds the border next to a goal in a direction.
pub fn closest_master(master: &[u8], goal: i32, upward: bool) -> (border: i32)
    requires
        master@.len() > 0,
    ensures
        border == nearest_border(master@, goal as int, upward),
        0 <= border <= 255,
{
    assert(master@.len() == master.len());
    if upward {
        let mut index: usize = 0;
        while index < master.len()
            invariant
                upward,
                index <= master@.len(),
                master@.len() > 0,
                first_at_least(master@, goal as int, 0) == first_at_least(master@, goal as int, index as int),
            decreases master@.len() - index,
        {
            if master[index] as i32 >= goal {
                return master[index] as i32;
            }
            index = index + 1;
        }
        master[master.len() - 1] as i32
    } else {
        let mut index: usize = master.len();
        while index > 0
            invariant
                !upward,
                index <= master@.len(),
                master@.len() > 0,
                last_at_most(master@, goal as int, master@.len() as int) == last_at_most(master@, goal as int, index as int),
            decreases index,
        {
            if master[index - 1] as i32 <= goal {
                return master[index - 1] as i32;
            }
            index = index - 1;
        }
        master[0] as i32
    }
}

/// A number rounded down to an even one.
pub open spec fn even_floor(value: int) -> int {
    value - value % 2
}

/// The low byte of a number.
pub open spec fn low_byte(value: int) -> u8 {
    (value % 256) as u8
}

/// Where the making of patches has come to.
pub struct PatchState {
    pub target_stop: int,
    pub source_start: int,
    pub desired_border: int,
    pub patches: Seq<SbrPatch>,
}

/// The number of bands of the next patch.
pub open spec fn next_count(state: PatchState, master: Seq<u8>) -> int {
    let lowest = master[0] as int;
    let count = state.desired_border - state.target_stop;
    if count >= lowest - state.source_start {
        let distance = even_floor(state.target_stop - state.source_start);
        nearest_border(
            master,
            state.target_stop + lowest - (state.target_stop - distance),
            false,
        ) - state.target_stop
    } else {
        count
    }
}

/// The next patch.
pub open spec fn next_patch(state: PatchState, master: Seq<u8>) -> SbrPatch {
    let count = next_count(state, master);
    let distance = even_floor(count + state.target_stop - master[0] + 1);
    SbrPatch {
        source_start_band: low_byte(state.target_stop - distance),
        target_start_band: low_byte(state.target_stop),
        band_count: low_byte(count),
    }
}

/// The state behind the next patch. A patch without bands is skipped; after the
/// first one, sources begin at the bottom again.
pub open spec fn next_state(state: PatchState, master: Seq<u8>, highest: int) -> PatchState {
    let count = next_count(state, master);
    let target_stop = if count > 0 {
        state.target_stop + count
    } else {
        state.target_stop
    };
    PatchState {
        target_stop,
        source_start: 1,
        desired_border: if state.desired_border - target_stop < 3 {
            highest
        } else {
            state.desired_border
        },
        patches: if count > 0 {
            state.patches.push(next_patch(state, master))
        } else {
            state.patches
        },
    }
}

/// Whether the next step leads nowhere.
pub open spec fn is_stuck(state: PatchState, next: PatchState) -> bool {
    next.target_stop == state.target_stop && next.source_start == state.source_start && next.desired_border
        == state.desired_border
}

/// Adding patches up to the highest band. More than seven, or a step that leads
/// nowhere, is an error.
pub open spec fn patches_from(state: PatchState, master: Seq<u8>, highest: int) -> Result<Seq<SbrPatch>, LdSbrError>
    decreases
            if state.target_stop < highest {
                highest - state.target_stop
            } else {
                0
            },
            if state.source_start != 1 {
                1int
            } else {
                0
            },
            if state.desired_border != highest {
                1int
            } else {
                0
            },
{
    if state.target_stop >= highest {
        Ok(state.patches)
    } else if state.patches.len() > 6 {
        Err(LdSbrError::InvalidFrequencyRange)
    } else {
        let next = next_state(state, master, highest);
        if is_stuck(state, next) {
            Err(LdSbrError::InvalidFrequencyRange)
        } else {
            patches_from(next, master, highest)
        }
    }
}

/// The number of sampling frequencies in 2.048 megahertz, rounded.
pub open spec fn goal_band(sampling_frequency: int) -> int {
    (4_096_000int / sampling_frequency + 1) / 2
}

/// Where the making of patches begins.
pub open spec fn first_state(master: Seq<u8>, high: Seq<u8>, sampling_frequency: int) -> PatchState {
    PatchState {
        target_stop: high[0] as int,
        source_start: 1 + high[0] - master[0],
        desired_border: nearest_border(master, goal_band(sampling_frequency), true),
        patches: Seq::empty(),
    }
}

/// Patches without a short last one.
pub open spec fn without_short_last(patches: Seq<SbrPatch>) -> Seq<SbrPatch> {
    if patches.len() > 1 && patches.last().band_count < 3 {
        patches.drop_last()
    } else {
        patches
    }
}

/// The patches of a channel, or why there are none.
pub open spec fn patches_of(master: Seq<u8>, high: Seq<u8>, sampling_frequency: int) -> Result<Seq<SbrPatch>, LdSbrError> {
    if master[0] < 5 {
        Err(LdSbrError::InvalidFrequencyRange)
    } else {
        match patches_from(first_state(master, high, sampling_frequency), master, high.last() as int) {
            Err(error) => Err(error),
            Ok(patches) => if without_short_last(patches).len() > 6 {
                Err(LdSbrError::InvalidFrequencyRange)
            } else {
                Ok(without_short_last(patches))
            },
        }
    }
}

fn even(value: i32) -> (result: i32)
    requires
        -0x10000 <= value <= 0x10000,
    ensures
        result == even_floor(value as int),
{
    let shifted: i32 = value + 0x10000;
    value - shifted % 2
}

fn byte_of(value: i32) -> (byte: u8)
    requires
        -0x10000 <= value <= 0x10000,
    ensures
        byte == low_byte(value as int),
{
    ((value + 0x10000) % 256) as u8
}

/// Derives the patches of a channel. The bands above the crossover are filled
/// from below; a step that leads nowhere is an error.
pub fn derive_patches(tables: &LdSbrFrequencyTables, sampling_frequency: u32) -> (result: Result<
    Vec<SbrPatch>,
    LdSbrError,
>)
    requires
        tables.master@.len() > 0,
        tables.high@.len() > 0,
        sampling_frequency > 0,
    ensures
        match patches_of(tables.master@, tables.high@, sampling_frequency as int) {
            Ok(expected) => result matches Ok(patches) && patches@ == expected,
            Err(error) => result == Err::<Vec<SbrPatch>, LdSbrError>(error),
        },
{
    let master: &[u8] = tables.master.as_slice();
    let lowest: i32 = master[0] as i32;
    let high_start: i32 = tables.high[0] as i32;
    let highest: i32 = tables.high[tables.high.len() - 1] as i32;
    if lowest < 5 {
        return Err(LdSbrError::InvalidFrequencyRange);
    }
    let goal: i32 = ((4_096_000 / sampling_frequency + 1) / 2) as i32;
    let mut desired_border: i32 = closest_master(master, goal, true);
    let mut source_start: i32 = 1 + high_start - lowest;
    let mut target_stop: i32 = high_start;
    let mut patches: Vec<SbrPatch> = Vec::new();
    while target_stop < highest
        invariant
            master@ == tables.master@,
            master@.len() > 0,
            tables.high@.len() > 0,
            lowest == master@[0],
            lowest >= 5,
            highest == tables.high@.last(),
            0 <= highest <= 255,
            0 <= desired_border <= 255,
            -255 <= source_start <= 256,
            0 <= target_stop <= 255,
            patches_from(first_state(master@, tables.high@, sampling_frequency as int), master@, highest as int)
                == patches_from(
                PatchState {
                    target_stop: target_stop as int,
                    source_start: source_start as int,
                    desired_border: desired_border as int,
                    patches: patches@,
                },
                master@,
                highest as int,
            ),
        decreases
                if target_stop < highest {
                    highest - target_stop
                } else {
                    0
                },
                if source_start != 1 {
                    1int
                } else {
                    0
                },
                if desired_border != highest {
                    1int
                } else {
                    0
                },
    {
        if patches.len() > 6 {
            return Err(LdSbrError::InvalidFrequencyRange);
        }
        let ghost state = PatchState {
            target_stop: target_stop as int,
            source_start: source_start as int,
            desired_border: desired_border as int,
            patches: patches@,
        };
        let mut count: i32 = desired_border - target_stop;
        if count >= lowest - source_start {
            let distance: i32 = even(target_stop - source_start);
            count = lowest - (target_stop - distance);
            count = closest_master(master, target_stop + count, false) - target_stop;
        }
        assert(count == next_count(state, master@));
        let before_stop: i32 = target_stop;
        let before_start: i32 = source_start;
        let before_border: i32 = desired_border;
        if count > 0 {
            let distance: i32 = even(count + target_stop - lowest + 1);
            let patch: SbrPatch = SbrPatch {
                source_start_band: byte_of(target_stop - distance),
                target_start_band: byte_of(target_stop),
                band_count: byte_of(count),
            };
            patches.push(patch);
            target_stop = target_stop + count;
        }
        source_start = 1;
        if desired_border - target_stop < 3 {
            desired_border = highest;
        }
        proof {
            let next = next_state(state, master@, highest as int);
            assert(next.patches =~= patches@);
            assert(next.target_stop == target_stop);
        }
        if target_stop == before_stop && source_start == before_start && desired_border == before_border {
            return Err(LdSbrError::InvalidFrequencyRange);
        }
    }
    if patches.len() > 1 && patches[patches.len() - 1].band_count < 3 {
        let _ = patches.pop();
        assert(patches@ == without_short_last(
            patches_from(
                first_state(master@, tables.high@, sampling_frequency as int),
                master@,
                highest as int,
            )->Ok_0,
        ));
    }
    if patches.len() > 6 {
        return Err(LdSbrError::InvalidFrequencyRange);
    }
    Ok(patches)
}

// ---------------------------------------------------------------------------
// Laws of patches
// ---------------------------------------------------------------------------

/// Whether patches follow one another from a band on, and take their sources
/// from below the lowest band, and from as far up as can be.
pub open spec fn patches_join(patches: Seq<SbrPatch>, start: int, lowest: int) -> bool {
    &&& patches.len() > 0 ==> patches[0].target_start_band == start
    &&& forall|i: int|
        0 <= i < patches.len() - 1 ==> (#[trigger] patches[i]).target_start_band + patches[i].band_count == patches[i
            + 1].target_start_band
    &&& forall|i: int|
        0 <= i < patches.len() ==> (#[trigger] patches[i]).band_count > 0 && patches[i].source_start_band
            + patches[i].band_count <= lowest
    &&& forall|i: int| 0 <= i < patches.len() ==> takes_top(#[trigger] patches[i], lowest)
}

/// Whether a patch takes the topmost bands below the lowest one, but for one where
/// its distance would be odd otherwise: an even distance keeps odd bands odd.
pub open spec fn takes_top(patch: SbrPatch, lowest: int) -> bool {
    &&& lowest - 1 <= patch.source_start_band + patch.band_count <= lowest
    &&& (patch.target_start_band - patch.source_start_band) % 2 == 0
}

/// Where the next patch goes, behind patches that follow one another.
spec fn joined_end(patches: Seq<SbrPatch>, start: int) -> int {
    if patches.len() == 0 {
        start
    } else {
        patches.last().target_start_band + patches.last().band_count
    }
}

proof fn lemma_nearest_range(master: Seq<u8>, goal: int, from: int)
    requires
        master.len() > 0,
        0 <= from <= master.len(),
    ensures
        last_at_most(master, goal, from) matches Some(border) ==> border <= goal,
    decreases from,
{
    if from > 0 && master[from - 1] > goal {
        lemma_nearest_range(master, goal, from - 1);
    }
}

proof fn lemma_step_joins(state: PatchState, master: Seq<u8>, start: int)
    requires
        master.len() > 0,
        master[0] >= 5,
        state.source_start >= 1,
        0 <= state.target_stop <= 255,
        state.target_stop >= master[0],
        0 <= state.desired_border <= 255,
        patches_join(state.patches, start, master[0] as int),
        joined_end(state.patches, start) == state.target_stop,
        next_count(state, master) > 0,
        state.target_stop + next_count(state, master) <= 255,
    ensures
        ({
            let longer = state.patches.push(next_patch(state, master));
            patches_join(longer, start, master[0] as int) && joined_end(longer, start) == state.target_stop + next_count(
                state,
                master,
            )
        }),
{
    let lowest = master[0] as int;
    let count = next_count(state, master);
    let patch = next_patch(state, master);
    let plain = state.desired_border - state.target_stop;
    if plain >= lowest - state.source_start {
        let distance = even_floor(state.target_stop - state.source_start);
        let goal = state.target_stop + lowest - (state.target_stop - distance);
        lemma_nearest_range(master, goal, master.len() as int);
        if last_at_most(master, goal, master.len() as int) is None {
            assert(nearest_border(master, goal, false) == lowest);
        }
        assert(count <= lowest - state.source_start);
    }
    let shift = even_floor(count + state.target_stop - lowest + 1);
    assert(0 <= state.target_stop - shift);
    assert(state.target_stop - shift + count <= lowest);
    assert(patch.source_start_band == state.target_stop - shift);
    assert(patch.target_start_band == state.target_stop);
    assert(patch.band_count == count);
    assert(takes_top(patch, lowest));
    let longer = state.patches.push(patch);
    assert forall|i: int| 0 <= i < longer.len() implies takes_top(#[trigger] longer[i], lowest) by {
        if i < state.patches.len() {
            assert(takes_top(state.patches[i], lowest));
        }
    }
    assert forall|i: int| 0 <= i < longer.len() - 1 implies (#[trigger] longer[i]).target_start_band + longer[i].band_count
        == longer[i + 1].target_start_band by {
        if i == longer.len() - 2 {
            assert(longer[i] == state.patches.last());
        } else {
            assert(longer[i] == state.patches[i]);
            assert(longer[i + 1] == state.patches[i + 1]);
        }
    }
}

proof fn lemma_patches_join(state: PatchState, master: Seq<u8>, highest: int, start: int)
    requires
        master.len() > 0,
        master[0] >= 5,
        state.source_start >= 1,
        0 <= state.target_stop <= 255,
        state.target_stop >= master[0],
        0 <= state.desired_border <= 255,
        0 <= highest <= 255,
        patches_join(state.patches, start, master[0] as int),
        joined_end(state.patches, start) == state.target_stop,
    ensures
        patches_from(state, master, highest) matches Ok(patches) ==> patches_join(patches, start, master[0] as int)
            && joined_end(patches, start) >= highest,
    decreases
            if state.target_stop < highest {
                highest - state.target_stop
            } else {
                0
            },
            if state.source_start != 1 {
                1int
            } else {
                0
            },
            if state.desired_border != highest {
                1int
            } else {
                0
            },
{
    if state.target_stop < highest && state.patches.len() <= 6 {
        let next = next_state(state, master, highest);
        if !is_stuck(state, next) {
            if next_count(state, master) > 0 {
                lemma_step_joins(state, master, start);
            }
            lemma_patches_join(next, master, highest, start);
        }
    }
}

/// Patches fill the bands from the crossover on without a gap, and never read
/// from a band that they may have written.
pub proof fn lemma_patches_fill(master: Seq<u8>, high: Seq<u8>, sampling_frequency: int)
    requires
        master.len() > 0,
        high.len() > 0,
        high[0] >= master[0],
        sampling_frequency > 0,
    ensures
        patches_of(master, high, sampling_frequency) matches Ok(patches) ==> patches_join(
            patches,
            high[0] as int,
            master[0] as int,
        ) && patches.len() <= 6 && (high[0] < high.last() ==> patches.len() > 0),
{
    if master[0] >= 5 {
        let state = first_state(master, high, sampling_frequency);
        assert(state.patches =~= Seq::empty());
        lemma_patches_join(state, master, high.last() as int, high[0] as int);
        match patches_from(state, master, high.last() as int) {
            Ok(patches) => {
                let rest = without_short_last(patches);
                assert forall|i: int| 0 <= i < rest.len() - 1 implies (#[trigger] rest[i]).target_start_band
                    + rest[i].band_count == rest[i + 1].target_start_band by {
                    assert(rest[i] == patches[i]);
                    assert(rest[i + 1] == patches[i + 1]);
                }
                assert forall|i: int| 0 <= i < rest.len() implies (#[trigger] rest[i]).band_count > 0
                    && rest[i].source_start_band + rest[i].band_count <= master[0] by {
                    assert(rest[i] == patches[i]);
                }
                assert forall|i: int| 0 <= i < rest.len() implies takes_top(#[trigger] rest[i], master[0] as int) by {
                    assert(takes_top(patches[i], master[0] as int));
                }
                if rest.len() > 0 {
                    assert(rest[0] == patches[0]);
                }
            },
            Err(_) => {},
        }
    }
}

// ---------------------------------------------------------------------------
// Routes
// ---------------------------------------------------------------------------

/// The copy of one band, with the noise band it falls into. Only the first band
/// of a patch has no neighbour below in its source.
#[derive(Debug, Clone, Copy, PartialEq, Eq, Structural)]
pub struct PatchRoute {
    pub source: usize,
    pub target: usize,
    pub noise_band: usize,
    pub first: bool,
}

/// The route of one band of a patch, or why there is none.
pub open spec fn route(patch: SbrPatch, offset: int, noise_borders: Seq<u8>) -> Result<PatchRoute, QmfError> {
    let source = (patch.source_start_band + offset) as usize;
    let target = (patch.target_start_band + offset) as usize;
    if source >= 32 || target >= 64 {
        Err(QmfError::InvalidPatchBand { source, target })
    } else {
        match interval_of(noise_borders, target as int, 0) {
            Some(noise_band) => Ok(PatchRoute { source, target, noise_band: noise_band as usize, first: offset == 0 }),
            None => Err(QmfError::InverseFilteringLayoutMismatch),
        }
    }
}

/// The routes of a patch from an offset on, behind those before.
pub open spec fn routes_of_patch(patch: SbrPatch, offset: int, noise_borders: Seq<u8>, routes: Seq<PatchRoute>) -> Result<
    Seq<PatchRoute>,
    QmfError,
>
    decreases patch.band_count - offset,
{
    if offset >= patch.band_count {
        Ok(routes)
    } else {
        match route(patch, offset, noise_borders) {
            Err(error) => Err(error),
            Ok(route) => routes_of_patch(patch, offset + 1, noise_borders, routes.push(route)),
        }
    }
}

/// The routes of the patches from an index on, behind those before.
pub open spec fn routes_from(patches: Seq<SbrPatch>, index: int, noise_borders: Seq<u8>, routes: Seq<PatchRoute>) -> Result<
    Seq<PatchRoute>,
    QmfError,
>
    decreases patches.len() - index,
{
    if index >= patches.len() {
        Ok(routes)
    } else {
        match routes_of_patch(patches[index], 0, noise_borders, routes) {
            Err(error) => Err(error),
            Ok(longer) => routes_from(patches, index + 1, noise_borders, longer),
        }
    }
}

/// Lists the copies that patches ask for. There is one filter mode for each
/// noise band.
pub fn patch_routes(patches: &[SbrPatch], noise_borders: &[u8], mode_count: usize) -> (result: Result<
    Vec<PatchRoute>,
    QmfError,
>)
    ensures
        if mode_count + 1 != noise_borders@.len() {
            result == Err::<Vec<PatchRoute>, QmfError>(QmfError::InverseFilteringLayoutMismatch)
        } else {
            match routes_from(patches@, 0, noise_borders@, Seq::empty()) {
                Ok(expected) => result matches Ok(routes) && routes@ == expected,
                Err(error) => result == Err::<Vec<PatchRoute>, QmfError>(error),
            }
        },
{
    assert(noise_borders@.len() == noise_borders.len());
    if noise_borders.len() == 0 || mode_count != noise_borders.len() - 1 {
        return Err(QmfError::InverseFilteringLayoutMismatch);
    }
    let mut routes: Vec<PatchRoute> = Vec::new();
    let mut index: usize = 0;
    while index < patches.len()
        invariant
            mode_count + 1 == noise_borders@.len(),
            index <= patches@.len(),
            routes_from(patches@, 0, noise_borders@, Seq::empty()) == routes_from(
                patches@,
                index as int,
                noise_borders@,
                routes@,
            ),
        decreases patches@.len() - index,
    {
        let patch: SbrPatch = patches[index];
        let ghost before = routes@;
        let mut offset: u8 = 0;
        while offset < patch.band_count
            invariant
                mode_count + 1 == noise_borders@.len(),
                offset <= patch.band_count,
                index < patches@.len(),
                patch == patches@[index as int],
                routes_from(patches@, 0, noise_borders@, Seq::empty()) == routes_from(
                    patches@,
                    index as int,
                    noise_borders@,
                    before,
                ),
                routes_of_patch(patch, 0, noise_borders@, before) == routes_of_patch(
                    patch,
                    offset as int,
                    noise_borders@,
                    routes@,
                ),
            decreases patch.band_count - offset,
        {
            let source: usize = patch.source_start_band as usize + offset as usize;
            let target: usize = patch.target_start_band as usize + offset as usize;
            if source >= 32 || target >= 64 {
                return Err(QmfError::InvalidPatchBand { source, target });
            }
            match border_index(noise_borders, target) {
                Some(noise_band) => {
                    routes.push(PatchRoute { source, target, noise_band, first: offset == 0 });
                },
                None => return Err(QmfError::InverseFilteringLayoutMismatch),
            }
            offset = offset + 1;
        }
        index = index + 1;
    }
    Ok(routes)
}

/// The strength of inverse filtering that a mode asks for, in hundredths.
pub open spec fn filter_strength(mode: u8, previous: u8) -> u8 {
    if mode == 1 {
        if previous == 0 {
            60
        } else {
            75
        }
    } else if mode == 2 {
        90
    } else if mode == 3 {
        98
    } else if previous == 1 {
        60
    } else {
        0
    }
}

/// The strength of inverse filtering that a mode asks for, in hundredths. It is
/// approached through a mild strength from and to silence.
pub fn inverse_filter_target(mode: u8, previous_mode: u8) -> (strength: u8)
    ensures
        strength == filter_strength(mode, previous_mode),
        strength <= 98,
{
    match mode {
        1 => {
            if previous_mode == 0 {
                60
            } else {
                75
            }
        },
        2 => 90,
        3 => 98,
        _ => {
            if previous_mode == 1 {
                60
            } else {
                0
            }
        },
    }
}

/// Whether a patch ends at a border of the master table, or with the highest band.
pub open spec fn ends_well(patch: SbrPatch, master: Seq<u8>, highest: int) -> bool {
    patch.target_start_band + patch.band_count == highest || exists|i: int|
        0 <= i < master.len() && #[trigger] master[i] == patch.target_start_band + patch.band_count
}

/// Whether a band is a border of the master table, or the highest one.
spec fn is_end(band: int, master: Seq<u8>, highest: int) -> bool {
    band == highest || exists|i: int| 0 <= i < master.len() && #[trigger] master[i] == band
}

proof fn lemma_first_is_border(master: Seq<u8>, goal: int, from: int)
    requires
        0 <= from,
    ensures
        first_at_least(master, goal, from) matches Some(border) ==> exists|i: int|
            0 <= i < master.len() && #[trigger] master[i] == border,
    decreases master.len() - from,
{
    if from < master.len() && master[from] < goal {
        lemma_first_is_border(master, goal, from + 1);
    }
}

proof fn lemma_last_is_border(master: Seq<u8>, goal: int, below: int)
    requires
        below <= master.len(),
    ensures
        last_at_most(master, goal, below) matches Some(border) ==> exists|i: int|
            0 <= i < master.len() && #[trigger] master[i] == border,
    decreases below,
{
    if below > 0 && master[below - 1] > goal {
        lemma_last_is_border(master, goal, below - 1);
    }
}

proof fn lemma_nearest_is_end(master: Seq<u8>, goal: int, upward: bool, highest: int)
    requires
        master.len() > 0,
    ensures
        is_end(nearest_border(master, goal, upward), master, highest),
        0 <= nearest_border(master, goal, upward) <= 255,
{
    lemma_first_is_border(master, goal, 0);
    lemma_last_is_border(master, goal, master.len() as int);
    assert(master[master.len() - 1] == master.last());
    assert(master[0] == master[0]);
}

proof fn lemma_patches_end_well(state: PatchState, master: Seq<u8>, highest: int)
    requires
        master.len() > 0,
        0 <= state.target_stop <= 255,
        0 <= highest <= 255,
        0 <= state.desired_border <= 255,
        is_end(state.desired_border, master, highest),
        forall|i: int| 0 <= i < state.patches.len() ==> ends_well(#[trigger] state.patches[i], master, highest),
    ensures
        patches_from(state, master, highest) matches Ok(patches) ==> forall|i: int|
            0 <= i < patches.len() ==> ends_well(#[trigger] patches[i], master, highest),
    decreases
            if state.target_stop < highest {
                highest - state.target_stop
            } else {
                0
            },
            if state.source_start != 1 {
                1int
            } else {
                0
            },
            if state.desired_border != highest {
                1int
            } else {
                0
            },
{
    if state.target_stop < highest && state.patches.len() <= 6 {
        let next = next_state(state, master, highest);
        let count = next_count(state, master);
        let lowest = master[0] as int;
        let distance = even_floor(state.target_stop - state.source_start);
        lemma_nearest_is_end(master, state.target_stop + lowest - (state.target_stop - distance), false, highest);
        assert(is_end(state.target_stop + count, master, highest));
        assert(state.target_stop + count <= 255);
        if !is_stuck(state, next) {
            assert forall|i: int| 0 <= i < next.patches.len() implies ends_well(#[trigger] next.patches[i], master, highest) by {
                if i < state.patches.len() {
                    assert(next.patches[i] == state.patches[i]);
                } else {
                    let patch = next_patch(state, master);
                    assert(patch.target_start_band == state.target_stop);
                    assert(patch.band_count == count);
                }
            }
            lemma_patches_end_well(next, master, highest);
        }
    }
}

/// Every patch ends at a border of the master table or with the highest band, and less
/// than three bands below the highest stay unfilled.
pub proof fn lemma_patches_reach_up(master: Seq<u8>, high: Seq<u8>, sampling_frequency: int)
    requires
        master.len() > 0,
        high.len() > 0,
        high[0] >= master[0],
        sampling_frequency > 0,
    ensures
        patches_of(master, high, sampling_frequency) matches Ok(patches) ==> {
            &&& forall|i: int| 0 <= i < patches.len() ==> ends_well(#[trigger] patches[i], master, high.last() as int)
            &&& patches.len() > 0 ==> patches.last().target_start_band + patches.last().band_count > high.last() - 3
            &&& patches.len() == 0 ==> high[0] >= high.last()
        },
{
    if master[0] >= 5 {
        let state = first_state(master, high, sampling_frequency);
        let highest = high.last() as int;
        assert(state.patches =~= Seq::empty());
        lemma_nearest_is_end(master, goal_band(sampling_frequency), true, highest);
        lemma_patches_end_well(state, master, highest);
        lemma_patches_join(state, master, highest, high[0] as int);
        match patches_from(state, master, highest) {
            Ok(patches) => {
                let rest = without_short_last(patches);
                assert forall|i: int| 0 <= i < rest.len() implies ends_well(#[trigger] rest[i], master, highest) by {
                    assert(rest[i] == patches[i]);
                }
                if patches.len() > rest.len() {
                    let last = patches.len() - 1;
                    assert(patches[last - 1].target_start_band + patches[last - 1].band_count
                        == patches[last].target_start_band);
                    assert(rest.last() == patches[last - 1]);
                }
            },
            Err(_) => {},
        }
    }
}

/// The goal of the patches lies nearest to 2.048 megahertz in sampling frequencies; from
/// the middle between two bands it is the upper one.
pub proof fn lemma_goal_is_nearest(sampling_frequency: int)
    requires
        sampling_frequency > 0,
    ensures
        -sampling_frequency < 2 * (goal_band(sampling_frequency) * sampling_frequency) - 4_096_000 <= sampling_frequency,
{
    let quotient = 4_096_000int / sampling_frequency;
    let goal = goal_band(sampling_frequency);
    vstd::arithmetic::div_mod::lemma_fundamental_div_mod(4_096_000, sampling_frequency);
    vstd::arithmetic::div_mod::lemma_mod_bound(4_096_000, sampling_frequency);
    assert(2 * goal == quotient || 2 * goal == quotient + 1);
    assert(2 * (goal * sampling_frequency) == (2 * goal) * sampling_frequency) by (nonlinear_arith);
    assert((quotient + 1) * sampling_frequency == quotient * sampling_frequency + sampling_frequency) by (nonlinear_arith);
    assert(sampling_frequency * quotient == quotient * sampling_frequency) by (nonlinear_arith);
}

/// Inverse filtering grows with its mode. Between none and the mild mode it passes through
/// the same strength in both directions, and a mild mode that stays lies halfway between
/// that strength and the next mode.
pub proof fn lemma_filter_strengths(previous: u8)
    ensures
        filter_strength(0, previous) <= filter_strength(1, previous) < filter_strength(2, previous) < filter_strength(
            3,
            previous,
        ) < 100,
        filter_strength(1, 0) == filter_strength(0, 1),
        previous != 1 ==> filter_strength(0, previous) == 0,
        previous != 0 ==> 2 * filter_strength(1, previous) == filter_strength(1, 0) + filter_strength(2, previous),
{
}

// ---------------------------------------------------------------------------
// Laws of routes
// ---------------------------------------------------------------------------

/// Whether a band of a patch has its route at the place that its target has above a start.
pub open spec fn routed(routes: Seq<PatchRoute>, patch: SbrPatch, offset: int, noise_borders: Seq<u8>, start: int) -> bool {
    let target = patch.target_start_band + offset;
    let route = routes[target - start];
    &&& 0 <= target - start < routes.len()
    &&& route.target == target < 64
    &&& route.source == patch.source_start_band + offset
    &&& route.source < 32
    &&& route.first == (offset == 0)
    &&& route.noise_band + 1 < noise_borders.len()
    &&& noise_borders[route.noise_band as int] <= target < noise_borders[route.noise_band + 1]
}

/// Whether the bands before a place in patches have their routes, and no others have.
spec fn routed_so_far(
    routes: Seq<PatchRoute>,
    patches: Seq<SbrPatch>,
    noise_borders: Seq<u8>,
    start: int,
    index: int,
    offset: int,
) -> bool {
    &&& index < patches.len() ==> routes.len() == patches[index].target_start_band + offset - start
    &&& index == patches.len() ==> routes.len() == joined_end(patches, start) - start
    &&& forall|i: int, k: int|
        0 <= i < patches.len() && 0 <= k < patches[i].band_count && (i < index || (i == index && k < offset))
            ==> #[trigger] routed(routes, patches[i], k, noise_borders, start)
}

proof fn lemma_interval_holds(borders: Seq<u8>, value: int, from: int)
    ensures
        interval_of(borders, value, from) matches Some(index) ==> 0 <= index < borders.len() - 1 && borders[index] <= value
            < borders[index + 1],
    decreases borders.len() - from,
{
    if !(from + 1 >= borders.len() || from < 0) {
        lemma_interval_holds(borders, value, from + 1);
    }
}

proof fn lemma_patch_routes_behind(
    patches: Seq<SbrPatch>,
    noise_borders: Seq<u8>,
    start: int,
    lowest: int,
    index: int,
    offset: int,
    routes: Seq<PatchRoute>,
)
    requires
        patches_join(patches, start, lowest),
        noise_borders.len() <= usize::MAX,
        0 <= index < patches.len(),
        0 <= offset <= patches[index].band_count,
        start <= patches[index].target_start_band,
        routed_so_far(routes, patches, noise_borders, start, index, offset),
    ensures
        routes_of_patch(patches[index], offset, noise_borders, routes) matches Ok(longer) ==> routed_so_far(
            longer,
            patches,
            noise_borders,
            start,
            index + 1,
            0,
        ),
    decreases patches[index].band_count - offset,
{
    let patch = patches[index];
    if offset >= patch.band_count {
        assert forall|i: int, k: int|
            0 <= i < patches.len() && 0 <= k < patches[i].band_count && i < index + 1 implies #[trigger] routed(
            routes,
            patches[i],
            k,
            noise_borders,
            start,
        ) by {}
    } else {
        let target = patch.target_start_band + offset;
        lemma_interval_holds(noise_borders, target, 0);
        match route(patch, offset, noise_borders) {
            Err(_) => {},
            Ok(one) => {
                let longer = routes.push(one);
                assert forall|i: int, k: int|
                    0 <= i < patches.len() && 0 <= k < patches[i].band_count && (i < index || (i == index && k < offset
                        + 1)) implies #[trigger] routed(longer, patches[i], k, noise_borders, start) by {
                    if i < index || k < offset {
                        assert(routed(routes, patches[i], k, noise_borders, start));
                    }
                }
                lemma_patch_routes_behind(patches, noise_borders, start, lowest, index, offset + 1, longer);
            },
        }
    }
}

proof fn lemma_routes_behind(
    patches: Seq<SbrPatch>,
    noise_borders: Seq<u8>,
    start: int,
    lowest: int,
    index: int,
    routes: Seq<PatchRoute>,
)
    requires
        patches_join(patches, start, lowest),
        noise_borders.len() <= usize::MAX,
        0 <= index <= patches.len(),
        index < patches.len() ==> start <= patches[index].target_start_band,
        routed_so_far(routes, patches, noise_borders, start, index, 0),
    ensures
        routes_from(patches, index, noise_borders, routes) matches Ok(all) ==> routed_so_far(
            all,
            patches,
            noise_borders,
            start,
            patches.len() as int,
            0,
        ),
    decreases patches.len() - index,
{
    if index < patches.len() {
        lemma_patch_routes_behind(patches, noise_borders, start, lowest, index, 0, routes);
        match routes_of_patch(patches[index], 0, noise_borders, routes) {
            Err(_) => {},
            Ok(longer) => {
                assert(patches[index].band_count > 0);
                lemma_routes_behind(patches, noise_borders, start, lowest, index + 1, longer);
            },
        }
    }
}

/// Patches that follow one another have one route for each of their bands, in the order of the
/// targets: from the source that lies as far up in the patch, with the noise band that the
/// target falls into, and marked where it begins its patch.
pub proof fn lemma_bands_routed(
    patches: Seq<SbrPatch>,
    noise_borders: Seq<u8>,
    start: int,
    lowest: int,
    patch: int,
    offset: int,
)
    requires
        patches_join(patches, start, lowest),
        noise_borders.len() <= usize::MAX,
        0 <= patch < patches.len(),
        0 <= offset < patches[patch].band_count,
        routes_from(patches, 0, noise_borders, Seq::empty()) is Ok,
    ensures
        routed(
            routes_from(patches, 0, noise_borders, Seq::empty())->Ok_0,
            patches[patch],
            offset,
            noise_borders,
            start,
        ),
        routes_from(patches, 0, noise_borders, Seq::empty())->Ok_0.len() == patches.last().target_start_band
            + patches.last().band_count - start,
{
    lemma_routes_behind(patches, noise_borders, start, lowest, 0, Seq::empty());
}

} // verus!

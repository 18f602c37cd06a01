//! Tones and noise that are added to high bands.

use vstd::prelude::*;

verus! {

/// Where tones sound.
///
/// `starts` holds, for each subband with a tone, the envelope from which on it
/// sounds, `band_starts` the same for all subbands that share a scale factor
/// band with it, and `current` tells which subbands have a tone.
#[derive(Debug, Clone, PartialEq, Eq)]
pub struct HarmonicPlan {
    pub starts: Vec<Option<usize>>,
    pub band_starts: Vec<Option<usize>>,
    pub current: Vec<bool>,
}

/// The subband in the middle of a scale factor band.
pub open spec fn middle(high: Seq<u8>, sfb: int) -> int {
    (high[sfb] + high[sfb + 1]) / 2
}

/// The envelope from which on the tone of a scale factor band sounds: at once
/// where it sounded before, with the transient otherwise.
pub open spec fn tone_start(high: Seq<u8>, sfb: int, previous: Seq<bool>, transient: Option<usize>) -> usize {
    if previous[middle(high, sfb)] {
        0
    } else {
        match transient {
            Some(envelope) => envelope,
            None => 0,
        }
    }
}

/// The last of the first scale factor bands whose tone is in a subband.
pub open spec fn tone_in(harmonics: Seq<bool>, high: Seq<u8>, band: int, count: int) -> Option<int>
    decreases count,
{
    if count <= 0 {
        None
    } else if harmonics[count - 1] && middle(high, count - 1) == band {
        Some(count - 1)
    } else {
        tone_in(harmonics, high, band, count - 1)
    }
}

/// The last of the first scale factor bands with a tone that a subband lies in.
pub open spec fn tone_around(harmonics: Seq<bool>, high: Seq<u8>, band: int, count: int) -> Option<int>
    decreases count,
{
    if count <= 0 {
        None
    } else if harmonics[count - 1] && high[count - 1] <= band < high[count] {
        Some(count - 1)
    } else {
        tone_around(harmonics, high, band, count - 1)
    }
}

/// The start of a tone, where there is one.
pub open spec fn start_of(sfb: Option<int>, high: Seq<u8>, previous: Seq<bool>, transient: Option<usize>) -> Option<usize> {
    match sfb {
        Some(sfb) => Some(tone_start(high, sfb, previous, transient)),
        None => None,
    }
}

/// Whether a plan is that of the first `count` scale factor bands.
pub open spec fn plan_holds(
    plan: HarmonicPlan,
    harmonics: Seq<bool>,
    high: Seq<u8>,
    previous: Seq<bool>,
    transient: Option<usize>,
    count: int,
) -> bool {
    &&& plan.starts@.len() == 64
    &&& plan.band_starts@.len() == 64
    &&& plan.current@.len() == 64
    &&& forall|band: int|
        0 <= band < 64 ==> #[trigger] plan.starts@[band] == start_of(
            tone_in(harmonics, high, band, count),
            high,
            previous,
            transient,
        )
    &&& forall|band: int|
        0 <= band < 64 ==> #[trigger] plan.band_starts@[band] == start_of(
            tone_around(harmonics, high, band, count),
            high,
            previous,
            transient,
        )
    &&& forall|band: int|
        0 <= band < 64 ==> #[trigger] plan.current@[band] == (tone_in(harmonics, high, band, count) is Some)
}

/// Plans where tones sound. `previous` tells which subbands had a tone in the
/// frame before.
pub fn harmonic_plan(harmonics: &[bool], high: &[u8], previous: &[bool], transient: Option<usize>) -> (plan: HarmonicPlan)
    requires
        harmonics@.len() + 1 == high@.len(),
        previous@.len() == 64,
        forall|i: int|
            0 <= i < harmonics@.len() && #[trigger] harmonics@[i] ==> high@[i] <= high@[i + 1] <= 64 && middle(high@, i) < 64,
    ensures
        plan_holds(plan, harmonics@, high@, previous@, transient, harmonics@.len() as int),
{
    let mut starts: Vec<Option<usize>> = Vec::new();
    let mut band_starts: Vec<Option<usize>> = Vec::new();
    let mut current: Vec<bool> = Vec::new();
    while starts.len() < 64
        invariant
            starts@.len() <= 64,
            band_starts@.len() == starts@.len(),
            current@.len() == starts@.len(),
            forall|band: int| 0 <= band < starts@.len() ==> #[trigger] starts@[band] is None,
            forall|band: int| 0 <= band < starts@.len() ==> #[trigger] band_starts@[band] is None,
            forall|band: int| 0 <= band < starts@.len() ==> !(#[trigger] current@[band]),
        decreases 64 - starts@.len(),
    {
        starts.push(None);
        band_starts.push(None);
        current.push(false);
    }
    let mut plan: HarmonicPlan = HarmonicPlan { starts, band_starts, current };
    let mut sfb: usize = 0;
    assert(harmonics@.len() == harmonics.len());
    assert(high@.len() == high.len());
    while sfb < harmonics.len()
        invariant
            harmonics@.len() == harmonics.len(),
            high@.len() == high.len(),
            harmonics@.len() + 1 == high@.len(),
            previous@.len() == 64,
            forall|i: int|
                0 <= i < harmonics@.len() && #[trigger] harmonics@[i] ==> high@[i] <= high@[i + 1] <= 64 && middle(high@, i)
                    < 64,
            sfb <= harmonics@.len(),
            plan_holds(plan, harmonics@, high@, previous@, transient, sfb as int),
        decreases harmonics@.len() - sfb,
    {
        if harmonics[sfb] {
            assert(harmonics@[sfb as int]);
            let low: usize = high[sfb] as usize;
            let stop: usize = high[sfb + 1] as usize;
            let band: usize = (low + stop) / 2;
            let start: usize = if previous[band] {
                0
            } else {
                match transient {
                    Some(envelope) => envelope,
                    None => 0,
                }
            };
            assert(start == tone_start(high@, sfb as int, previous@, transient));
            let ghost before = plan;
            plan.starts.set(band, Some(start));
            plan.current.set(band, true);
            let mut index: usize = low;
            while index < stop
                invariant
                    low <= index <= stop <= 64,
                    plan.starts@ == before.starts@.update(band as int, Some(start)),
                    plan.current@ == before.current@.update(band as int, true),
                    plan.band_starts@.len() == 64,
                    before.band_starts@.len() == 64,
                    forall|k: int| low <= k < index ==> #[trigger] plan.band_starts@[k] == Some(start),
                    forall|k: int|
                        0 <= k < 64 && !(low <= k < index) ==> #[trigger] plan.band_starts@[k] == before.band_starts@[k],
                decreases stop - index,
            {
                plan.band_starts.set(index, Some(start));
                index = index + 1;
            }
        }
        sfb = sfb + 1;
    }
    plan
}

/// How a tone is added to a subband: to the real or the imaginary part, and with
/// which sign.
#[derive(Debug, Clone, Copy, PartialEq, Eq, Structural)]
pub struct ToneRotation {
    pub imaginary: bool,
    pub negative: bool,
}

/// The rotation of a tone at a phase. Odd subbands turn the other way.
pub open spec fn rotation_of(phase: int, band: int) -> ToneRotation {
    if phase % 4 == 0 {
        ToneRotation { imaginary: false, negative: false }
    } else if phase % 4 == 1 {
        ToneRotation { imaginary: true, negative: band % 2 != 0 }
    } else if phase % 4 == 2 {
        ToneRotation { imaginary: false, negative: true }
    } else {
        ToneRotation { imaginary: true, negative: band % 2 == 0 }
    }
}

/// The rotation of a tone at a phase.
pub fn tone_rotation(phase: u8, band: usize) -> (rotation: ToneRotation)
    ensures
        rotation == rotation_of(phase as int, band as int),
{
    match phase % 4 {
        0 => ToneRotation { imaginary: false, negative: false },
        1 => ToneRotation { imaginary: true, negative: band % 2 != 0 },
        2 => ToneRotation { imaginary: false, negative: true },
        _ => ToneRotation { imaginary: true, negative: band % 2 == 0 },
    }
}

/// The phase of the next slot.
pub fn next_tone_phase(phase: u8) -> (next: u8)
    ensures
        next == (phase % 4 + 1) % 4,
{
    (phase % 4 + 1) % 4
}

/// Two slots on, a tone has turned by half: it is added to the same part with
/// the other sign.
pub proof fn lemma_half_turn(phase: int, band: int)
    ensures
        rotation_of(phase + 2, band).imaginary == rotation_of(phase, band).imaginary,
        rotation_of(phase + 2, band).negative != rotation_of(phase, band).negative,
{
}

/// What a rotation multiplies with, as a real and an imaginary part.
pub open spec fn rotation_value(rotation: ToneRotation) -> (int, int) {
    let size = if rotation.negative {
        -1int
    } else {
        1
    };
    if rotation.imaginary {
        (0, size)
    } else {
        (size, 0)
    }
}

/// A tone begins on the positive real side, and turns by a quarter with every slot:
/// towards the positive imaginary side in even subbands, and towards the negative one
/// in odd subbands.
pub proof fn lemma_quarter_turns(phase: int, band: int)
    requires
        0 <= phase,
        0 <= band,
    ensures
        phase == 0 ==> rotation_value(rotation_of(phase, band)) == (1int, 0int),
        ({
            let (re, im) = rotation_value(rotation_of(phase, band));
            rotation_value(rotation_of(phase + 1, band)) == if band % 2 == 0 {
                (-im, re)
            } else {
                (im, -re)
            }
        }),
        rotation_of((phase % 4 + 1) % 4, band) == rotation_of(phase + 1, band),
{
}

/// The next place in the table of 512 noise values.
pub fn next_noise_index(index: u32) -> (next: u32)
    requires
        index < u32::MAX,
    ensures
        next == (index + 1) % 512,
        next < 512,
{
    (index + 1) % 512
}

/// The signs with which a tone leaks into the bands beside it.
#[derive(Debug, Clone, Copy, PartialEq, Eq, Structural)]
pub struct ToneLeak {
    pub below_negative: bool,
    pub above_negative: bool,
}

/// How a tone leaks in a bank without imaginary parts: at the phases where it
/// would be imaginary. Even bands are mirrored, but not in a low-delay bank.
pub open spec fn leak_of(phase: int, band: int, low_delay: bool) -> Option<ToneLeak> {
    if phase % 2 == 0 {
        None
    } else {
        let turned = phase % 4 == 3;
        let mirrored = !low_delay && band % 2 == 0;
        Some(ToneLeak { below_negative: turned != mirrored, above_negative: turned == mirrored })
    }
}

/// Finds how a tone leaks into the bands beside it.
pub fn tone_leak(phase: u8, band: usize, low_delay: bool) -> (leak: Option<ToneLeak>)
    ensures
        leak == leak_of(phase as int, band as int, low_delay),
{
    if phase % 2 == 0 {
        return None;
    }
    let turned: bool = phase % 4 == 3;
    let mirrored: bool = !low_delay && band % 2 == 0;
    Some(ToneLeak { below_negative: turned != mirrored, above_negative: turned == mirrored })
}

/// What leaks into the band below has the other sign in the band above.
pub proof fn lemma_leaks_oppose(phase: int, band: int, low_delay: bool)
    ensures
        leak_of(phase, band, low_delay) matches Some(leak) ==> leak.below_negative != leak.above_negative,
{
}

/// Leaks change their signs every two slots, and from each band to the next in a plain bank but
/// not in a low-delay one, where the first leak adds to the band below. Odd bands leak alike in
/// both banks.
pub proof fn lemma_leaks_alternate(phase: int, band: int)
    requires
        0 <= phase,
        0 <= band,
        phase % 2 == 1,
    ensures
        forall|low_delay: bool| (#[trigger] leak_of(phase, band, low_delay)) is Some,
        leak_of(1, band, true)->0.below_negative == false,
        forall|low_delay: bool|
            leak_of(phase + 2, band, low_delay)->0.below_negative != (#[trigger] leak_of(phase, band, low_delay))->0.below_negative,
        leak_of(phase, band + 1, true) == leak_of(phase, band, true),
        leak_of(phase, band + 1, false)->0.below_negative != leak_of(phase, band, false)->0.below_negative,
        band % 2 == 1 ==> leak_of(phase, band, false) == leak_of(phase, band, true),
{
}

/// Whether borders rise.
pub open spec fn bands_rise(high: Seq<u8>) -> bool {
    forall|i: int, j: int| 0 <= i < j < high.len() ==> #[trigger] high[i] < #[trigger] high[j]
}

proof fn lemma_tone_searches(harmonics: Seq<bool>, high: Seq<u8>, sfb: int, band: int, count: int)
    requires
        harmonics.len() + 1 == high.len(),
        bands_rise(high),
        0 <= sfb < harmonics.len(),
        high[sfb] <= band < high[sfb + 1],
        0 <= count <= harmonics.len(),
    ensures
        tone_around(harmonics, high, band, count) == (if sfb < count && harmonics[sfb] {
            Some(sfb)
        } else {
            None
        }),
        tone_in(harmonics, high, band, count) == (if sfb < count && harmonics[sfb] && middle(high, sfb) == band {
            Some(sfb)
        } else {
            None
        }),
    decreases count,
{
    if count > 0 {
        lemma_tone_searches(harmonics, high, sfb, band, count - 1);
        let other = count - 1;
        assert(high[other] < high[other + 1]);
        if other < sfb {
            assert(other + 1 == sfb || high[other + 1] < high[sfb]);
        } else if other > sfb {
            assert(other == sfb + 1 || high[sfb + 1] < high[other]);
        }
    }
}

/// A tone stands in the subband halfway through its scale factor band and in no other. It
/// sounds from the transient on, or from the beginning where there is none or where the subband
/// had a tone before; the whole scale factor band is marked from then on. Bands without a tone
/// are not marked.
pub proof fn lemma_tones_planned(
    plan: HarmonicPlan,
    harmonics: Seq<bool>,
    high: Seq<u8>,
    previous: Seq<bool>,
    transient: Option<usize>,
    sfb: int,
    band: int,
)
    requires
        plan_holds(plan, harmonics, high, previous, transient, harmonics.len() as int),
        harmonics.len() + 1 == high.len(),
        bands_rise(high),
        0 <= sfb < harmonics.len(),
        high[sfb] <= band < high[sfb + 1],
        band < 64,
    ensures
        ({
            let halfway = high[sfb] + (high[sfb + 1] - high[sfb]) / 2;
            &&& plan.current@[band] == (harmonics[sfb] && band == halfway)
            &&& (plan.starts@[band] is Some) == plan.current@[band]
            &&& plan.starts@[band] is Some ==> plan.starts@[band] == plan.band_starts@[band]
            &&& (plan.band_starts@[band] is Some) == harmonics[sfb]
            &&& harmonics[sfb] && (previous[halfway] || transient is None) ==> plan.band_starts@[band] == Some(0usize)
            &&& harmonics[sfb] && !previous[halfway] && transient is Some ==> plan.band_starts@[band] == transient
        }),
{
    lemma_tone_searches(harmonics, high, sfb, band, harmonics.len() as int);
}

} // verus!

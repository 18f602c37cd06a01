//! Energies of envelope and noise values, as powers of two. Exponents count in
//! halves.

use vstd::prelude::*;

use super::error::LdSbrError;
use super::frame::coupled_layout;
use super::grid::LdSbrChannelControl;
use super::values::LdSbrChannelValues;

verus! {

/// The energies of a channel that stands alone: two to half of each exponent.
#[derive(Debug, Clone, PartialEq, Eq)]
pub struct LdSbrEnergyExponents {
    pub envelope_energy: Vec<Vec<i32>>,
    pub noise_energy: Vec<Vec<i32>>,
}

/// The energy that two channels share. With `t` and `r` for two to half of
/// `total` and `ratio`, the right one has `2 * t / (r + 1)` and the left one `r`
/// times that.
#[derive(Debug, Clone, Copy, PartialEq, Eq, Structural)]
pub struct SharedEnergy {
    pub total: i32,
    pub ratio: i32,
}

/// The energies of two coupled channels.
#[derive(Debug, Clone, PartialEq, Eq)]
pub struct LdSbrCoupledExponents {
    pub envelope_energy: Vec<Vec<SharedEnergy>>,
    pub noise_energy: Vec<Vec<SharedEnergy>>,
}

/// Whether envelope values count in steps of three decibels rather than one and
/// a half.
pub open spec fn coarse(control: LdSbrChannelControl, default_amp_resolution: bool) -> bool {
    match control.grid.amp_resolution {
        Some(resolution) => resolution,
        None => default_amp_resolution,
    }
}

/// The exponent of an envelope value: a value of nothing is two to the power of
/// minus fourteen.
pub open spec fn envelope_exponent(value: int, coarse: bool) -> int {
    if coarse {
        2 * value - 28
    } else {
        value - 28
    }
}

/// The exponent of a noise value, which counts downwards from six.
pub open spec fn noise_exponent(value: int) -> int {
    2 * (6 - value)
}

/// What two channels share at a level and a balance. A balance of twelve whole
/// steps lies in the middle.
pub open spec fn shared_envelope(level: int, balance: int, coarse: bool) -> SharedEnergy {
    SharedEnergy {
        total: envelope_exponent(level, coarse) as i32,
        ratio: (if coarse {
            2 * balance - 24
        } else {
            balance - 24
        }) as i32,
    }
}

/// What two channels share of their noise.
pub open spec fn shared_noise(level: int, balance: int) -> SharedEnergy {
    SharedEnergy { total: noise_exponent(level) as i32, ratio: (2 * (balance - 12)) as i32 }
}

/// Whether rows hold the exponents of envelope values.
pub open spec fn envelopes_hold(exponents: Seq<Vec<i32>>, values: Seq<Vec<i16>>, coarse: bool) -> bool {
    &&& exponents.len() == values.len()
    &&& forall|e: int|
        0 <= e < values.len() ==> #[trigger] exponents[e]@ == Seq::new(
            values[e]@.len(),
            |i: int| envelope_exponent(values[e]@[i] as int, coarse) as i32,
        )
}

/// Whether rows hold the exponents of noise values.
pub open spec fn noise_holds(exponents: Seq<Vec<i32>>, values: Seq<Vec<i16>>) -> bool {
    &&& exponents.len() == values.len()
    &&& forall|e: int|
        0 <= e < values.len() ==> #[trigger] exponents[e]@ == Seq::new(
            values[e]@.len(),
            |i: int| noise_exponent(values[e]@[i] as int) as i32,
        )
}

/// Whether rows hold what two channels share of their envelopes.
pub open spec fn shared_envelopes_hold(
    shared: Seq<Vec<SharedEnergy>>,
    level: Seq<Vec<i16>>,
    balance: Seq<Vec<i16>>,
    coarse: bool,
) -> bool {
    &&& shared.len() == level.len()
    &&& forall|e: int|
        0 <= e < level.len() ==> #[trigger] shared[e]@ == Seq::new(
            level[e]@.len(),
            |i: int| shared_envelope(level[e]@[i] as int, balance[e]@[i] as int, coarse),
        )
}

/// Whether rows hold what two channels share of their noise.
pub open spec fn shared_noise_holds(shared: Seq<Vec<SharedEnergy>>, level: Seq<Vec<i16>>, balance: Seq<Vec<i16>>) -> bool {
    &&& shared.len() == level.len()
    &&& forall|e: int|
        0 <= e < level.len() ==> #[trigger] shared[e]@ == Seq::new(
            level[e]@.len(),
            |i: int| shared_noise(level[e]@[i] as int, balance[e]@[i] as int),
        )
}

fn is_coarse(control: &LdSbrChannelControl, default_amp_resolution: bool) -> (result: bool)
    ensures
        result == coarse(*control, default_amp_resolution),
{
    match control.grid.amp_resolution {
        Some(resolution) => resolution,
        None => default_amp_resolution,
    }
}

fn envelope_row(values: &Vec<i16>, coarse: bool) -> (row: Vec<i32>)
    ensures
        row@ == Seq::new(values@.len(), |i: int| envelope_exponent(values@[i] as int, coarse) as i32),
{
    let mut row: Vec<i32> = Vec::new();
    while row.len() < values.len()
        invariant
            row@.len() <= values@.len(),
            forall|i: int|
                0 <= i < row@.len() ==> #[trigger] row@[i] == envelope_exponent(values@[i] as int, coarse) as i32,
        decreases values@.len() - row@.len(),
    {
        let value: i32 = values[row.len()] as i32;
        row.push(if coarse { 2 * value - 28 } else { value - 28 });
    }
    assert(row@ =~= Seq::new(values@.len(), |i: int| envelope_exponent(values@[i] as int, coarse) as i32));
    row
}

fn noise_row(values: &Vec<i16>) -> (row: Vec<i32>)
    ensures
        row@ == Seq::new(values@.len(), |i: int| noise_exponent(values@[i] as int) as i32),
{
    let mut row: Vec<i32> = Vec::new();
    while row.len() < values.len()
        invariant
            row@.len() <= values@.len(),
            forall|i: int| 0 <= i < row@.len() ==> #[trigger] row@[i] == noise_exponent(values@[i] as int) as i32,
        decreases values@.len() - row@.len(),
    {
        let value: i32 = values[row.len()] as i32;
        row.push(2 * (6 - value));
    }
    assert(row@ =~= Seq::new(values@.len(), |i: int| noise_exponent(values@[i] as int) as i32));
    row
}

fn shared_envelope_row(level: &Vec<i16>, balance: &Vec<i16>, coarse: bool) -> (row: Vec<SharedEnergy>)
    requires
        level@.len() == balance@.len(),
    ensures
        row@ == Seq::new(level@.len(), |i: int| shared_envelope(level@[i] as int, balance@[i] as int, coarse)),
{
    let mut row: Vec<SharedEnergy> = Vec::new();
    while row.len() < level.len()
        invariant
            level@.len() == balance@.len(),
            row@.len() <= level@.len(),
            forall|i: int|
                0 <= i < row@.len() ==> #[trigger] row@[i] == shared_envelope(level@[i] as int, balance@[i] as int, coarse),
        decreases level@.len() - row@.len(),
    {
        let total: i32 = level[row.len()] as i32;
        let ratio: i32 = balance[row.len()] as i32;
        if coarse {
            row.push(SharedEnergy { total: 2 * total - 28, ratio: 2 * ratio - 24 });
        } else {
            row.push(SharedEnergy { total: total - 28, ratio: ratio - 24 });
        }
    }
    assert(row@ =~= Seq::new(level@.len(), |i: int| shared_envelope(level@[i] as int, balance@[i] as int, coarse)));
    row
}

fn shared_noise_row(level: &Vec<i16>, balance: &Vec<i16>) -> (row: Vec<SharedEnergy>)
    requires
        level@.len() == balance@.len(),
    ensures
        row@ == Seq::new(level@.len(), |i: int| shared_noise(level@[i] as int, balance@[i] as int)),
{
    let mut row: Vec<SharedEnergy> = Vec::new();
    while row.len() < level.len()
        invariant
            level@.len() == balance@.len(),
            row@.len() <= level@.len(),
            forall|i: int|
                0 <= i < row@.len() ==> #[trigger] row@[i] == shared_noise(level@[i] as int, balance@[i] as int),
        decreases level@.len() - row@.len(),
    {
        let total: i32 = level[row.len()] as i32;
        let ratio: i32 = balance[row.len()] as i32;
        row.push(SharedEnergy { total: 2 * (6 - total), ratio: 2 * (ratio - 12) });
    }
    assert(row@ =~= Seq::new(level@.len(), |i: int| shared_noise(level@[i] as int, balance@[i] as int)));
    row
}

impl LdSbrChannelValues {
    /// The energies of a channel that stands alone.
    pub fn dequantize_uncoupled(&self, control: &LdSbrChannelControl, default_amp_resolution: bool) -> (energies:
        LdSbrEnergyExponents)
        ensures
            envelopes_hold(energies.envelope_energy@, self.envelopes@, coarse(*control, default_amp_resolution)),
            noise_holds(energies.noise_energy@, self.noise@),
    {
        let coarse_steps: bool = is_coarse(control, default_amp_resolution);
        let mut envelope_energy: Vec<Vec<i32>> = Vec::new();
        while envelope_energy.len() < self.envelopes.len()
            invariant
                envelope_energy@.len() <= self.envelopes@.len(),
                forall|e: int|
                    0 <= e < envelope_energy@.len() ==> #[trigger] envelope_energy@[e]@ == Seq::new(
                        self.envelopes@[e]@.len(),
                        |i: int| envelope_exponent(self.envelopes@[e]@[i] as int, coarse_steps) as i32,
                    ),
            decreases self.envelopes@.len() - envelope_energy@.len(),
        {
            let row: Vec<i32> = envelope_row(&self.envelopes[envelope_energy.len()], coarse_steps);
            envelope_energy.push(row);
        }
        let mut noise_energy: Vec<Vec<i32>> = Vec::new();
        while noise_energy.len() < self.noise.len()
            invariant
                noise_energy@.len() <= self.noise@.len(),
                forall|e: int|
                    0 <= e < noise_energy@.len() ==> #[trigger] noise_energy@[e]@ == Seq::new(
                        self.noise@[e]@.len(),
                        |i: int| noise_exponent(self.noise@[e]@[i] as int) as i32,
                    ),
            decreases self.noise@.len() - noise_energy@.len(),
        {
            let row: Vec<i32> = noise_row(&self.noise[noise_energy.len()]);
            noise_energy.push(row);
        }
        LdSbrEnergyExponents { envelope_energy, noise_energy }
    }

    /// The energies of two channels of which one holds levels and the other
    /// balances.
    pub fn dequantize_coupled_pair(
        level: &LdSbrChannelValues,
        balance: &LdSbrChannelValues,
        control: &LdSbrChannelControl,
        default_amp_resolution: bool,
    ) -> (result: Result<LdSbrCoupledExponents, LdSbrError>)
        ensures
            if coupled_layout(level@, balance@) {
                result matches Ok(energies) && shared_envelopes_hold(
                    energies.envelope_energy@,
                    level.envelopes@,
                    balance.envelopes@,
                    coarse(*control, default_amp_resolution),
                ) && shared_noise_holds(energies.noise_energy@, level.noise@, balance.noise@)
            } else {
                result == Err::<LdSbrCoupledExponents, LdSbrError>(LdSbrError::CoupledLayoutMismatch)
            },
    {
        if !LdSbrChannelValues::coupled_layout_matches(level, balance) {
            return Err(LdSbrError::CoupledLayoutMismatch);
        }
        let coarse_steps: bool = is_coarse(control, default_amp_resolution);
        proof {
            assert forall|e: int| 0 <= e < level.envelopes@.len() implies #[trigger] level.envelopes@[e]@.len()
                == balance.envelopes@[e]@.len() by {
                assert(level@.envelopes[e].len() == balance@.envelopes[e].len());
            }
            assert forall|e: int| 0 <= e < level.noise@.len() implies #[trigger] level.noise@[e]@.len()
                == balance.noise@[e]@.len() by {
                assert(level@.noise[e].len() == balance@.noise[e].len());
            }
        }
        let mut envelope_energy: Vec<Vec<SharedEnergy>> = Vec::new();
        while envelope_energy.len() < level.envelopes.len()
            invariant
                envelope_energy@.len() <= level.envelopes@.len(),
                level.envelopes@.len() == balance.envelopes@.len(),
                forall|e: int|
                    0 <= e < level.envelopes@.len() ==> #[trigger] level.envelopes@[e]@.len()
                        == balance.envelopes@[e]@.len(),
                forall|e: int|
                    0 <= e < envelope_energy@.len() ==> #[trigger] envelope_energy@[e]@ == Seq::new(
                        level.envelopes@[e]@.len(),
                        |i: int|
                            shared_envelope(
                                level.envelopes@[e]@[i] as int,
                                balance.envelopes@[e]@[i] as int,
                                coarse_steps,
                            ),
                    ),
            decreases level.envelopes@.len() - envelope_energy@.len(),
        {
            let index: usize = envelope_energy.len();
            let row: Vec<SharedEnergy> = shared_envelope_row(
                &level.envelopes[index],
                &balance.envelopes[index],
                coarse_steps,
            );
            envelope_energy.push(row);
        }
        let mut noise_energy: Vec<Vec<SharedEnergy>> = Vec::new();
        while noise_energy.len() < level.noise.len()
            invariant
                noise_energy@.len() <= level.noise@.len(),
                level.noise@.len() == balance.noise@.len(),
                forall|e: int|
                    0 <= e < level.noise@.len() ==> #[trigger] level.noise@[e]@.len() == balance.noise@[e]@.len(),
                forall|e: int|
                    0 <= e < noise_energy@.len() ==> #[trigger] noise_energy@[e]@ == Seq::new(
                        level.noise@[e]@.len(),
                        |i: int| shared_noise(level.noise@[e]@[i] as int, balance.noise@[e]@[i] as int),
                    ),
            decreases level.noise@.len() - noise_energy@.len(),
        {
            let index: usize = noise_energy.len();
            let row: Vec<SharedEnergy> = shared_noise_row(&level.noise[index], &balance.noise[index]);
            noise_energy.push(row);
        }
        Ok(LdSbrCoupledExponents { envelope_energy, noise_energy })
    }
}

/// With the balance in the middle, both channels have the energy that a channel
/// alone has at that level.
pub proof fn lemma_centred_balance(level: i16, coarse: bool)
    ensures
        shared_envelope(level as int, if coarse { 12 } else { 24 }, coarse) == (SharedEnergy {
            total: envelope_exponent(level as int, coarse) as i32,
            ratio: 0,
        }),
        shared_noise(level as int, 12) == (SharedEnergy { total: noise_exponent(level as int) as i32, ratio: 0 }),
{
}

/// A step of the balance to one side is undone by a step to the other: the
/// channels change places.
pub proof fn lemma_balance_mirrors(level: i16, offset: int, coarse: bool)
    requires
        -12 <= offset <= 12,
    ensures
        ({
            let middle: int = if coarse { 12 } else { 24 };
            let upper = shared_envelope(level as int, middle + offset, coarse);
            let lower = shared_envelope(level as int, middle - offset, coarse);
            upper.total == lower.total && upper.ratio == -lower.ratio
        }),
        shared_noise(level as int, 12 + offset).ratio == -shared_noise(level as int, 12 - offset).ratio,
{
}

/// A value more is one and a half decibels in fine steps and three in coarse ones, and
/// twice a coarse value is a fine one of the same energy; noise loses three decibels with
/// each value, and has the energy one at six.
pub proof fn lemma_steps(value: int)
    ensures
        envelope_exponent(value + 1, false) == envelope_exponent(value, false) + 1,
        envelope_exponent(value + 1, true) == envelope_exponent(value, true) + 2,
        envelope_exponent(2 * value, false) == envelope_exponent(value, true),
        envelope_exponent(28, false) == 0,
        noise_exponent(value + 1) == noise_exponent(value) - 2,
        noise_exponent(6) == 0,
{
}

/// Every energy stands where its value stands: in the envelope of the same number and at the
/// same band.
pub proof fn lemma_energies_in_place(exponents: Seq<Vec<i32>>, values: Seq<Vec<i16>>, coarse: bool, e: int, i: int)
    requires
        0 <= e < values.len(),
        0 <= i < values[e]@.len(),
    ensures
        envelopes_hold(exponents, values, coarse) ==> exponents.len() == values.len() && exponents[e]@.len()
            == values[e]@.len(),
        envelopes_hold(exponents, values, true) ==> exponents[e]@[i] == 2 * (values[e]@[i] - 14),
        envelopes_hold(exponents, values, false) ==> exponents[e]@[i] == values[e]@[i] - 28,
        noise_holds(exponents, values) ==> exponents.len() == values.len() && exponents[e]@.len() == values[e]@.len(),
        noise_holds(exponents, values) ==> exponents[e]@[i] + 2 * values[e]@[i] == 12,
{
    if envelopes_hold(exponents, values, true) {
        assert(exponents[e]@[i] == envelope_exponent(values[e]@[i] as int, true) as i32);
    }
    if envelopes_hold(exponents, values, false) {
        assert(exponents[e]@[i] == envelope_exponent(values[e]@[i] as int, false) as i32);
    }
    if noise_holds(exponents, values) {
        assert(exponents[e]@[i] == noise_exponent(values[e]@[i] as int) as i32);
    }
}

/// What two channels share stands where their values stand. Its total comes from the level
/// alone and its ratio from the balance alone.
pub proof fn lemma_shares_in_place(
    shared: Seq<Vec<SharedEnergy>>,
    level: Seq<Vec<i16>>,
    balance: Seq<Vec<i16>>,
    e: int,
    i: int,
)
    requires
        0 <= e < level.len(),
        0 <= i < level[e]@.len(),
    ensures
        shared_envelopes_hold(shared, level, balance, true) ==> {
            &&& shared[e]@[i].total == 2 * (level[e]@[i] - 14)
            &&& shared[e]@[i].ratio == 2 * (balance[e]@[i] - 12)
        },
        shared_envelopes_hold(shared, level, balance, false) ==> {
            &&& shared[e]@[i].total == level[e]@[i] - 28
            &&& shared[e]@[i].ratio == balance[e]@[i] - 24
        },
        shared_noise_holds(shared, level, balance) ==> {
            &&& shared[e]@[i].total + 2 * level[e]@[i] == 12
            &&& shared[e]@[i].ratio == 2 * (balance[e]@[i] - 12)
        },
{
    let a = level[e]@[i] as int;
    let b = balance[e]@[i] as int;
    if shared_envelopes_hold(shared, level, balance, true) {
        assert(shared[e]@[i] == shared_envelope(a, b, true));
    }
    if shared_envelopes_hold(shared, level, balance, false) {
        assert(shared[e]@[i] == shared_envelope(a, b, false));
    }
    if shared_noise_holds(shared, level, balance) {
        assert(shared[e]@[i] == shared_noise(a, b));
    }
}

} // verus!

//! Envelope, noise and inverse filtering values of a channel.

use vstd::arithmetic::power2::{lemma2_to64, pow2};
use vstd::prelude::*;

use crate::bits::{BitCursor, BitReader};
use crate::usac_sbr::InterTesEnvelope;

use super::error::LdSbrError;
use super::frequency::{FrequencyBorders, LdSbrFrequencyTables};
use super::grid::{ControlFields, LdSbrChannelControl, LdSbrChannelElementPrefix, PrefixFields};
use super::tree::{decode_difference, decode_sbr_huffman, SbrHuffmanBook};

verus! {

/// The values of a channel as they are sent or, behind the reconstruction of
/// differences, as they are meant.
#[derive(Debug, Clone, PartialEq, Eq)]
pub struct LdSbrChannelValues {
    pub inverse_filtering_modes: Vec<u8>,
    pub envelopes: Vec<Vec<i16>>,
    pub noise: Vec<Vec<i16>>,
}

/// Values with their rows as sequences.
pub struct ChannelFields {
    pub inverse_filtering_modes: Seq<u8>,
    pub envelopes: Seq<Seq<i16>>,
    pub noise: Seq<Seq<i16>>,
}

/// The rows of a vector of vectors.
pub open spec fn rows(list: Seq<Vec<i16>>) -> Seq<Seq<i16>> {
    list.map_values(|row: Vec<i16>| row@)
}

impl View for LdSbrChannelValues {
    type V = ChannelFields;

    open spec fn view(&self) -> ChannelFields {
        ChannelFields {
            inverse_filtering_modes: self.inverse_filtering_modes@,
            envelopes: rows(self.envelopes@),
            noise: rows(self.noise@),
        }
    }
}

/// A sampled row of differences: behind `values`, differences of a codebook up to
/// `count` values.
pub open spec fn read_differences(book: SbrHuffmanBook, count: int, scale: int, values: Seq<i16>, cursor: BitCursor) -> (
    Result<Seq<i16>, LdSbrError>,
    BitCursor,
)
    decreases count - values.len(),
{
    if values.len() >= count {
        (Ok(values), cursor)
    } else {
        match decode_difference(book, cursor) {
            (Ok(value), next) => read_differences(book, count, scale, values.push((value * scale) as i16), next),
            (Err(error), next) => (Err(error), next),
        }
    }
}

/// A row of values: along frequency it starts with an absolute value.
pub open spec fn read_row(
    time_domain: bool,
    start_bits: int,
    book: SbrHuffmanBook,
    count: int,
    scale: int,
    cursor: BitCursor,
) -> (Result<Seq<i16>, LdSbrError>, BitCursor) {
    if time_domain {
        read_differences(book, count, scale, Seq::empty(), cursor)
    } else {
        match cursor.read(start_bits) {
            (Err(_), next) => (Err(LdSbrError::UnexpectedEof), next),
            (Ok(value), next) => read_differences(book, count, scale, seq![(value * scale) as i16], next),
        }
    }
}

/// The codebook of envelope values.
pub open spec fn envelope_book(balance: bool, coarse: bool, time_domain: bool) -> SbrHuffmanBook {
    if balance {
        if coarse {
            if time_domain {
                SbrHuffmanBook::EnvelopeBalance30Time
            } else {
                SbrHuffmanBook::EnvelopeBalance30Frequency
            }
        } else if time_domain {
            SbrHuffmanBook::EnvelopeBalance15Time
        } else {
            SbrHuffmanBook::EnvelopeBalance15Frequency
        }
    } else if coarse {
        if time_domain {
            SbrHuffmanBook::EnvelopeLevel30Time
        } else {
            SbrHuffmanBook::EnvelopeLevel30Frequency
        }
    } else if time_domain {
        SbrHuffmanBook::EnvelopeLevel15Time
    } else {
        SbrHuffmanBook::EnvelopeLevel15Frequency
    }
}

/// The codebook of noise values.
pub open spec fn noise_book(balance: bool, time_domain: bool) -> SbrHuffmanBook {
    if time_domain {
        if balance {
            SbrHuffmanBook::NoiseBalanceTime
        } else {
            SbrHuffmanBook::NoiseLevelTime
        }
    } else if balance {
        SbrHuffmanBook::EnvelopeBalance30Frequency
    } else {
        SbrHuffmanBook::EnvelopeLevel30Frequency
    }
}

/// The bits of the first envelope value along frequency.
pub open spec fn envelope_start_bits(balance: bool, coarse: bool) -> int {
    if balance {
        if coarse {
            5
        } else {
            6
        }
    } else if coarse {
        6
    } else {
        7
    }
}

/// The step of values: balances are sent in halves.
pub open spec fn value_scale(balance: bool) -> int {
    if balance {
        2
    } else {
        1
    }
}

/// The amplitude resolution of a control: its own where it has one.
pub open spec fn coarse_steps(control: ControlFields, default_amp_resolution: bool) -> bool {
    match control.grid.amp_resolution {
        Some(coarse) => coarse,
        None => default_amp_resolution,
    }
}

/// Reading the shaping of an envelope.
pub open spec fn read_shaping(inter_tes: bool, cursor: BitCursor) -> (Result<InterTesEnvelope, LdSbrError>, BitCursor) {
    if !inter_tes {
        (Ok(InterTesEnvelope { active: false, mode: 0 }), cursor)
    } else {
        match cursor.read_flag() {
            (Err(_), next) => (Err(LdSbrError::UnexpectedEof), next),
            (Ok(active), next) => if !active {
                (Ok(InterTesEnvelope { active: false, mode: 0 }), next)
            } else {
                match next.read(2) {
                    (Err(_), behind) => (Err(LdSbrError::UnexpectedEof), behind),
                    (Ok(mode), behind) => (Ok(InterTesEnvelope { active: true, mode: mode as u8 }), behind),
                }
            },
        }
    }
}

/// Reading the envelopes of a channel from index `envelopes.len()` on: a row for
/// each, and its shaping.
pub open spec fn read_envelope_rows(
    control: ControlFields,
    tables: FrequencyBorders,
    coarse: bool,
    balance: bool,
    inter_tes: bool,
    envelopes: Seq<Seq<i16>>,
    shaping: Seq<InterTesEnvelope>,
    cursor: BitCursor,
) -> (Result<(Seq<Seq<i16>>, Seq<InterTesEnvelope>), LdSbrError>, BitCursor)
    decreases control.grid.frequency_resolution.len() - envelopes.len(),
{
    let index = envelopes.len() as int;
    if index >= control.grid.frequency_resolution.len() {
        (Ok((envelopes, shaping)), cursor)
    } else {
        let count = if control.grid.frequency_resolution[index] {
            tables.high.len() - 1
        } else {
            tables.low.len() - 1
        };
        let time_domain = control.envelope_time_domain[index];
        match read_row(
            time_domain,
            envelope_start_bits(balance, coarse),
            envelope_book(balance, coarse, time_domain),
            count,
            value_scale(balance),
            cursor,
        ) {
            (Err(error), next) => (Err(error), next),
            (Ok(row), next) => match read_shaping(inter_tes, next) {
                (Err(error), behind) => (Err(error), behind),
                (Ok(shape), behind) => read_envelope_rows(
                    control,
                    tables,
                    coarse,
                    balance,
                    inter_tes,
                    envelopes.push(row),
                    shaping.push(shape),
                    behind,
                ),
            },
        }
    }
}

/// Reading the envelopes of a channel.
#[verifier::opaque]
pub open spec fn read_all_envelopes(
    control: ControlFields,
    tables: FrequencyBorders,
    default_amp_resolution: bool,
    balance: bool,
    inter_tes: bool,
    cursor: BitCursor,
) -> (Result<(Seq<Seq<i16>>, Seq<InterTesEnvelope>), LdSbrError>, BitCursor) {
    read_envelope_rows(
        control,
        tables,
        coarse_steps(control, default_amp_resolution),
        balance,
        inter_tes,
        Seq::empty(),
        Seq::empty(),
        cursor,
    )
}

/// Reading the noise rows of a channel behind those read before.
pub open spec fn read_noise_rows(
    control: ControlFields,
    tables: FrequencyBorders,
    balance: bool,
    noise: Seq<Seq<i16>>,
    cursor: BitCursor,
) -> (Result<Seq<Seq<i16>>, LdSbrError>, BitCursor)
    decreases control.noise_time_domain.len() - noise.len(),
{
    let index = noise.len() as int;
    if index >= control.noise_time_domain.len() {
        (Ok(noise), cursor)
    } else {
        let time_domain = control.noise_time_domain[index];
        match read_row(
            time_domain,
            5,
            noise_book(balance, time_domain),
            tables.noise.len() - 1,
            value_scale(balance),
            cursor,
        ) {
            (Err(error), next) => (Err(error), next),
            (Ok(row), next) => read_noise_rows(control, tables, balance, noise.push(row), next),
        }
    }
}

/// Reading the inverse filtering modes: two bits for each noise band.
pub open spec fn read_modes(tables: FrequencyBorders, cursor: BitCursor) -> (Result<Seq<u8>, LdSbrError>, BitCursor) {
    match cursor.read_fields(2, tables.noise.len() - 1, Seq::empty()) {
        (Ok(modes), next) => (Ok(modes), next),
        (Err(_), next) => (Err(LdSbrError::UnexpectedEof), next),
    }
}

/// Whether a control names the direction of each of its envelopes, and the table
/// of the bands of each has a first border.
pub open spec fn envelopes_known(control: ControlFields, tables: FrequencyBorders) -> bool {
    &&& control.envelope_time_domain.len() >= control.grid.frequency_resolution.len()
    &&& forall|i: int|
        0 <= i < control.grid.frequency_resolution.len() ==> if #[trigger] control.grid.frequency_resolution[i] {
            tables.high.len() >= 1
        } else {
            tables.low.len() >= 1
        }
}

fn parse_row(
    reader: &mut BitReader<'_>,
    time_domain: bool,
    start_bits: usize,
    book: SbrHuffmanBook,
    count: usize,
    balance: bool,
) -> (result: Result<Vec<i16>, LdSbrError>)
    requires
        start_bits <= 8,
    ensures
        final(reader)@ == read_row(
            time_domain,
            start_bits as int,
            book,
            count as int,
            value_scale(balance),
            old(reader)@,
        ).1,
        match read_row(time_domain, start_bits as int, book, count as int, value_scale(balance), old(reader)@).0 {
            Ok(row) => result matches Ok(values) && values@ == row,
            Err(error) => result matches Err(found) && found == error,
        },
        old(reader)@.leads_to(final(reader)@),
{
    let _ = reader.bits_read();
    let scale: i16 = if balance {
        2
    } else {
        1
    };
    let mut values: Vec<i16> = Vec::new();
    if !time_domain {
        match reader.read_u8(start_bits) {
            Ok(value) => {
                values.push(value as i16 * scale);
            },
            Err(_) => {
                return Err(LdSbrError::UnexpectedEof);
            },
        }
        assert(values@ =~= seq![values@[0]]);
    }
    let ghost first = values@;
    let ghost behind = reader@;
    while values.len() < count
        invariant
            scale == value_scale(balance),
            1 <= scale <= 2,
            old(reader)@.leads_to(reader@),
            read_differences(book, count as int, scale as int, values@, reader@) == read_differences(
                book,
                count as int,
                scale as int,
                first,
                behind,
            ),
            read_row(time_domain, start_bits as int, book, count as int, scale as int, old(reader)@)
                == read_differences(book, count as int, scale as int, first, behind),
        decreases count - values@.len(),
    {
        match decode_sbr_huffman(reader, book) {
            Ok(value) => {
                values.push(value as i16 * scale);
            },
            Err(error) => {
                return Err(error);
            },
        }
    }
    Ok(values)
}

/// The codebook of envelope values.
fn choose_envelope_book(balance: bool, coarse: bool, time_domain: bool) -> (book: SbrHuffmanBook)
    ensures
        book == envelope_book(balance, coarse, time_domain),
{
    match (balance, coarse, time_domain) {
        (true, true, true) => SbrHuffmanBook::EnvelopeBalance30Time,
        (true, true, false) => SbrHuffmanBook::EnvelopeBalance30Frequency,
        (true, false, true) => SbrHuffmanBook::EnvelopeBalance15Time,
        (true, false, false) => SbrHuffmanBook::EnvelopeBalance15Frequency,
        (false, true, true) => SbrHuffmanBook::EnvelopeLevel30Time,
        (false, true, false) => SbrHuffmanBook::EnvelopeLevel30Frequency,
        (false, false, true) => SbrHuffmanBook::EnvelopeLevel15Time,
        (false, false, false) => SbrHuffmanBook::EnvelopeLevel15Frequency,
    }
}

/// Reads the inverse filtering modes.
pub fn read_invf(reader: &mut BitReader<'_>, count: usize) -> (result: Result<Vec<u8>, LdSbrError>)
    ensures
        final(reader)@ == old(reader)@.read_fields(2, count as int, Seq::empty()).1,
        match old(reader)@.read_fields(2, count as int, Seq::empty()).0 {
            Ok(modes) => result matches Ok(list) && list@ == modes && modes.len() == count,
            Err(_) => result matches Err(found) && found == LdSbrError::UnexpectedEof,
        },
        old(reader)@.leads_to(final(reader)@),
{
    match reader.read_fields(2, count) {
        Ok(modes) => Ok(modes),
        Err(_) => Err(LdSbrError::UnexpectedEof),
    }
}

/// Reads the envelopes of a channel and the shaping between their borders.
pub fn read_envelopes_usac(
    reader: &mut BitReader<'_>,
    control: &LdSbrChannelControl,
    tables: &LdSbrFrequencyTables,
    default_amp_resolution: bool,
    balance: bool,
    inter_tes: bool,
) -> (result: Result<(Vec<Vec<i16>>, Vec<InterTesEnvelope>), LdSbrError>)
    requires
        envelopes_known(control@, tables@),
    ensures
        final(reader)@ == read_all_envelopes(
            control@,
            tables@,
            default_amp_resolution,
            balance,
            inter_tes,
            old(reader)@,
        ).1,
        match read_all_envelopes(control@, tables@, default_amp_resolution, balance, inter_tes, old(reader)@).0 {
            Ok((envelopes, shaping)) => result matches Ok((list, shapes)) && rows(list@) == envelopes && shapes@
                == shaping,
            Err(error) => result matches Err(found) && found == error,
        },
        old(reader)@.leads_to(final(reader)@),
{
    proof {
        reveal(read_all_envelopes);
    }
    proof {
        lemma2_to64();
    }
    let _ = reader.bits_read();
    let coarse: bool = match control.grid.amp_resolution {
        Some(coarse) => coarse,
        None => default_amp_resolution,
    };
    let start_bits: usize = match (balance, coarse) {
        (false, false) => 7,
        (false, true) => 6,
        (true, false) => 6,
        (true, true) => 5,
    };
    let mut envelopes: Vec<Vec<i16>> = Vec::new();
    let mut shaping: Vec<InterTesEnvelope> = Vec::new();
    assert(rows(envelopes@) =~= Seq::<Seq<i16>>::empty());
    assert(shaping@ =~= Seq::<InterTesEnvelope>::empty());
    while envelopes.len() < control.grid.frequency_resolution.len()
        invariant
            envelopes_known(control@, tables@),
            coarse == coarse_steps(control@, default_amp_resolution),
            start_bits == envelope_start_bits(balance, coarse),
            old(reader)@.leads_to(reader@),
            envelopes@.len() <= control@.grid.frequency_resolution.len(),
            pow2(2) == 4,
            read_envelope_rows(
                control@,
                tables@,
                coarse,
                balance,
                inter_tes,
                rows(envelopes@),
                shaping@,
                reader@,
            ) == read_all_envelopes(
                control@,
                tables@,
                default_amp_resolution,
                balance,
                inter_tes,
                old(reader)@,
            ),
        decreases control@.grid.frequency_resolution.len() - envelopes@.len(),
    {
        let index: usize = envelopes.len();
        assert(rows(envelopes@).len() == index);
        let count: usize = if control.grid.frequency_resolution[index] {
            tables.high_band_count()
        } else {
            tables.low_band_count()
        };
        let time_domain: bool = control.envelope_time_domain[index];
        let book = choose_envelope_book(balance, coarse, time_domain);
        let row: Vec<i16> = match parse_row(reader, time_domain, start_bits, book, count, balance) {
            Ok(row) => row,
            Err(error) => {
                return Err(error);
            },
        };
        let active: bool = if inter_tes {
            match reader.read_bool() {
                Ok(flag) => flag,
                Err(_) => {
                    return Err(LdSbrError::UnexpectedEof);
                },
            }
        } else {
            false
        };
        let mode: u8 = if active {
            match reader.read_u8(2) {
                Ok(mode) => mode,
                Err(_) => {
                    return Err(LdSbrError::UnexpectedEof);
                },
            }
        } else {
            0
        };
        let ghost before = rows(envelopes@);
        let ghost seen = row@;
        envelopes.push(row);
        assert(rows(envelopes@) =~= before.push(seen));
        shaping.push(InterTesEnvelope { active, mode });
    }
    Ok((envelopes, shaping))
}

/// Reads the envelopes of a channel.
pub fn read_envelopes(
    reader: &mut BitReader<'_>,
    control: &LdSbrChannelControl,
    tables: &LdSbrFrequencyTables,
    default_amp_resolution: bool,
    balance: bool,
) -> (result: Result<Vec<Vec<i16>>, LdSbrError>)
    requires
        envelopes_known(control@, tables@),
    ensures
        final(reader)@ == read_all_envelopes(
            control@,
            tables@,
            default_amp_resolution,
            balance,
            false,
            old(reader)@,
        ).1,
        match read_all_envelopes(control@, tables@, default_amp_resolution, balance, false, old(reader)@).0 {
            Ok((envelopes, _)) => result matches Ok(list) && rows(list@) == envelopes,
            Err(error) => result matches Err(found) && found == error,
        },
        old(reader)@.leads_to(final(reader)@),
{
    match read_envelopes_usac(reader, control, tables, default_amp_resolution, balance, false) {
        Ok((envelopes, _)) => Ok(envelopes),
        Err(error) => Err(error),
    }
}

/// Reads the noise rows of a channel.
pub fn read_noise(
    reader: &mut BitReader<'_>,
    control: &LdSbrChannelControl,
    tables: &LdSbrFrequencyTables,
    balance: bool,
) -> (result: Result<Vec<Vec<i16>>, LdSbrError>)
    requires
        tables@.noise.len() >= 1,
    ensures
        final(reader)@ == read_noise_rows(control@, tables@, balance, Seq::empty(), old(reader)@).1,
        match read_noise_rows(control@, tables@, balance, Seq::empty(), old(reader)@).0 {
            Ok(noise) => result matches Ok(list) && rows(list@) == noise,
            Err(error) => result matches Err(found) && found == error,
        },
        old(reader)@.leads_to(final(reader)@),
{
    let _ = reader.bits_read();
    let count: usize = tables.noise_band_count();
    let mut noise: Vec<Vec<i16>> = Vec::new();
    assert(rows(noise@) =~= Seq::<Seq<i16>>::empty());
    while noise.len() < control.noise_time_domain.len()
        invariant
            tables@.noise.len() >= 1,
            count == tables@.noise.len() - 1,
            old(reader)@.leads_to(reader@),
            noise@.len() <= control@.noise_time_domain.len(),
            read_noise_rows(control@, tables@, balance, rows(noise@), reader@) == read_noise_rows(
                control@,
                tables@,
                balance,
                Seq::empty(),
                old(reader)@,
            ),
        decreases control@.noise_time_domain.len() - noise@.len(),
    {
        assert(rows(noise@).len() == noise@.len());
        let time_domain: bool = control.noise_time_domain[noise.len()];
        let book = match (time_domain, balance) {
            (true, true) => SbrHuffmanBook::NoiseBalanceTime,
            (true, false) => SbrHuffmanBook::NoiseLevelTime,
            (false, true) => SbrHuffmanBook::EnvelopeBalance30Frequency,
            (false, false) => SbrHuffmanBook::EnvelopeLevel30Frequency,
        };
        let row: Vec<i16> = match parse_row(reader, time_domain, 5, book, count, balance) {
            Ok(row) => row,
            Err(error) => {
                return Err(error);
            },
        };
        let ghost before = rows(noise@);
        let ghost seen = row@;
        noise.push(row);
        assert(rows(noise@) =~= before.push(seen));
    }
    Ok(noise)
}

// ---------------------------------------------------------------------------
// Channels
// ---------------------------------------------------------------------------

/// The values of a single channel, with the shaping of its envelopes.
#[verifier::opaque]
pub open spec fn parse_mono(
    control: ControlFields,
    tables: FrequencyBorders,
    default_amp_resolution: bool,
    inter_tes: bool,
    cursor: BitCursor,
) -> (Result<(ChannelFields, Seq<InterTesEnvelope>), LdSbrError>, BitCursor) {
    match read_modes(tables, cursor) {
        (Err(error), c1) => (Err(error), c1),
        (Ok(modes), c1) => match read_all_envelopes(control, tables, default_amp_resolution, false, inter_tes, c1) {
            (Err(error), c2) => (Err(error), c2),
            (Ok((envelopes, shaping)), c2) => match read_noise_rows(control, tables, false, Seq::empty(), c2) {
                (Err(error), c3) => (Err(error), c3),
                (Ok(noise), c3) => (
                    Ok((ChannelFields { inverse_filtering_modes: modes, envelopes, noise }, shaping)),
                    c3,
                ),
            },
        },
    }
}

/// The envelopes and noise rows of both channels of a pair: level before balance
/// where the channels are coupled, envelopes before noise otherwise.
#[verifier::opaque]
pub open spec fn parse_pair_rows(
    left: ControlFields,
    right: ControlFields,
    coupling: bool,
    tables: FrequencyBorders,
    default_amp_resolution: bool,
    inter_tes: bool,
    cursor: BitCursor,
) -> (
    Result<
        ((Seq<Seq<i16>>, Seq<InterTesEnvelope>), Seq<Seq<i16>>, (Seq<Seq<i16>>, Seq<InterTesEnvelope>), Seq<Seq<i16>>),
        LdSbrError,
    >,
    BitCursor,
) {
    match read_all_envelopes(left, tables, default_amp_resolution, false, inter_tes, cursor) {
        (Err(error), c1) => (Err(error), c1),
        (Ok(left_envelopes), c1) => if coupling {
            match read_noise_rows(left, tables, false, Seq::empty(), c1) {
                (Err(error), c2) => (Err(error), c2),
                (Ok(left_noise), c2) => match read_all_envelopes(
                    right,
                    tables,
                    default_amp_resolution,
                    true,
                    inter_tes,
                    c2,
                ) {
                    (Err(error), c3) => (Err(error), c3),
                    (Ok(right_envelopes), c3) => match read_noise_rows(right, tables, true, Seq::empty(), c3) {
                        (Err(error), c4) => (Err(error), c4),
                        (Ok(right_noise), c4) => (Ok((left_envelopes, left_noise, right_envelopes, right_noise)), c4),
                    },
                },
            }
        } else {
            match read_all_envelopes(right, tables, default_amp_resolution, false, inter_tes, c1) {
                (Err(error), c2) => (Err(error), c2),
                (Ok(right_envelopes), c2) => match read_noise_rows(left, tables, false, Seq::empty(), c2) {
                    (Err(error), c3) => (Err(error), c3),
                    (Ok(left_noise), c3) => match read_noise_rows(right, tables, false, Seq::empty(), c3) {
                        (Err(error), c4) => (Err(error), c4),
                        (Ok(right_noise), c4) => (Ok((left_envelopes, left_noise, right_envelopes, right_noise)), c4),
                    },
                },
            }
        },
    }
}

/// The inverse filtering modes of both channels of a pair; coupled channels
/// share them.
pub open spec fn parse_pair_modes(coupling: bool, tables: FrequencyBorders, cursor: BitCursor) -> (
    Result<(Seq<u8>, Seq<u8>), LdSbrError>,
    BitCursor,
) {
    match read_modes(tables, cursor) {
        (Err(error), c1) => (Err(error), c1),
        (Ok(left), c1) => if coupling {
            (Ok((left, left)), c1)
        } else {
            match read_modes(tables, c1) {
                (Err(error), c2) => (Err(error), c2),
                (Ok(right), c2) => (Ok((left, right)), c2),
            }
        },
    }
}

/// The values of both channels of a pair, each with the shaping of its
/// envelopes.
#[verifier::opaque]
pub open spec fn parse_pair(
    prefix: PrefixFields,
    tables: FrequencyBorders,
    default_amp_resolution: bool,
    inter_tes: bool,
    cursor: BitCursor,
) -> (
    Result<((ChannelFields, Seq<InterTesEnvelope>), (ChannelFields, Seq<InterTesEnvelope>)), LdSbrError>,
    BitCursor,
) {
    match prefix.right {
        None => (Err(LdSbrError::ExpectedStereo), cursor),
        Some(right) => match parse_pair_modes(prefix.coupling, tables, cursor) {
            (Err(error), c1) => (Err(error), c1),
            (Ok((left_modes, right_modes)), c1) => match parse_pair_rows(
                prefix.left,
                right,
                prefix.coupling,
                tables,
                default_amp_resolution,
                inter_tes,
                c1,
            ) {
                (Err(error), c2) => (Err(error), c2),
                (Ok((left_envelopes, left_noise, right_envelopes, right_noise)), c2) => (
                    Ok(
                        (
                            (
                                ChannelFields {
                                    inverse_filtering_modes: left_modes,
                                    envelopes: left_envelopes.0,
                                    noise: left_noise,
                                },
                                left_envelopes.1,
                            ),
                            (
                                ChannelFields {
                                    inverse_filtering_modes: right_modes,
                                    envelopes: right_envelopes.0,
                                    noise: right_noise,
                                },
                                right_envelopes.1,
                            ),
                        ),
                    ),
                    c2,
                ),
            },
        },
    }
}

/// The rows of both channels of a pair.
fn read_pair_rows(
    reader: &mut BitReader<'_>,
    left: &LdSbrChannelControl,
    right: &LdSbrChannelControl,
    coupling: bool,
    tables: &LdSbrFrequencyTables,
    default_amp_resolution: bool,
    inter_tes: bool,
) -> (result: Result<
    ((Vec<Vec<i16>>, Vec<InterTesEnvelope>), Vec<Vec<i16>>, (Vec<Vec<i16>>, Vec<InterTesEnvelope>), Vec<Vec<i16>>),
    LdSbrError,
>)
    requires
        envelopes_known(left@, tables@),
        envelopes_known(right@, tables@),
        tables@.noise.len() >= 1,
    ensures
        final(reader)@ == parse_pair_rows(
            left@,
            right@,
            coupling,
            tables@,
            default_amp_resolution,
            inter_tes,
            old(reader)@,
        ).1,
        match parse_pair_rows(left@, right@, coupling, tables@, default_amp_resolution, inter_tes, old(reader)@).0 {
            Ok((left_envelopes, left_noise, right_envelopes, right_noise)) => result matches Ok((a, b, c, d)) && rows(a.0@)
                == left_envelopes.0 && a.1@ == left_envelopes.1 && rows(b@) == left_noise && rows(c.0@)
                == right_envelopes.0 && c.1@ == right_envelopes.1 && rows(d@) == right_noise,
            Err(error) => result matches Err(found) && found == error,
        },
        old(reader)@.leads_to(final(reader)@),
{
    proof {
        reveal(parse_pair_rows);
    }
    let left_envelopes = match read_envelopes_usac(reader, left, tables, default_amp_resolution, false, inter_tes) {
        Ok(rows) => rows,
        Err(error) => {
            return Err(error);
        },
    };
    if coupling {
        let left_noise = match read_noise(reader, left, tables, false) {
            Ok(rows) => rows,
            Err(error) => {
                return Err(error);
            },
        };
        let right_envelopes = match read_envelopes_usac(
            reader,
            right,
            tables,
            default_amp_resolution,
            true,
            inter_tes,
        ) {
            Ok(rows) => rows,
            Err(error) => {
                return Err(error);
            },
        };
        let right_noise = match read_noise(reader, right, tables, true) {
            Ok(rows) => rows,
            Err(error) => {
                return Err(error);
            },
        };
        Ok((left_envelopes, left_noise, right_envelopes, right_noise))
    } else {
        let right_envelopes = match read_envelopes_usac(
            reader,
            right,
            tables,
            default_amp_resolution,
            false,
            inter_tes,
        ) {
            Ok(rows) => rows,
            Err(error) => {
                return Err(error);
            },
        };
        let left_noise = match read_noise(reader, left, tables, false) {
            Ok(rows) => rows,
            Err(error) => {
                return Err(error);
            },
        };
        let right_noise = match read_noise(reader, right, tables, false) {
            Ok(rows) => rows,
            Err(error) => {
                return Err(error);
            },
        };
        Ok((left_envelopes, left_noise, right_envelopes, right_noise))
    }
}

impl LdSbrChannelValues {
    /// Reads the values of a single channel.
    pub fn parse_mono_after_prefix(
        reader: &mut BitReader<'_>,
        control: &LdSbrChannelControl,
        tables: &LdSbrFrequencyTables,
        default_amp_resolution: bool,
    ) -> (result: Result<LdSbrChannelValues, LdSbrError>)
        requires
            envelopes_known(control@, tables@),
            tables@.noise.len() >= 1,
        ensures
            final(reader)@ == parse_mono(control@, tables@, default_amp_resolution, false, old(reader)@).1,
            match parse_mono(control@, tables@, default_amp_resolution, false, old(reader)@).0 {
                Ok((values, _)) => result matches Ok(found) && found@ == values,
                Err(error) => result matches Err(found) && found == error,
            },
            old(reader)@.leads_to(final(reader)@),
    {
        match LdSbrChannelValues::parse_mono_after_prefix_usac(reader, control, tables, default_amp_resolution, false) {
            Ok((values, _)) => Ok(values),
            Err(error) => Err(error),
        }
    }

    /// Reads the values of a channel pair.
    pub fn parse_stereo_after_prefix(
        reader: &mut BitReader<'_>,
        prefix: &LdSbrChannelElementPrefix,
        tables: &LdSbrFrequencyTables,
        default_amp_resolution: bool,
    ) -> (result: Result<(LdSbrChannelValues, LdSbrChannelValues), LdSbrError>)
        requires
            prefix@.right matches Some(right) ==> {
                &&& envelopes_known(prefix@.left, tables@)
                &&& envelopes_known(right, tables@)
                &&& tables@.noise.len() >= 1
            },
        ensures
            final(reader)@ == parse_pair(prefix@, tables@, default_amp_resolution, false, old(reader)@).1,
            match parse_pair(prefix@, tables@, default_amp_resolution, false, old(reader)@).0 {
                Ok((left, right)) => result matches Ok((a, b)) && a@ == left.0 && b@ == right.0,
                Err(error) => result matches Err(found) && found == error,
            },
            old(reader)@.leads_to(final(reader)@),
    {
        match LdSbrChannelValues::parse_stereo_after_prefix_usac(reader, prefix, tables, default_amp_resolution, false) {
            Ok((left, right)) => Ok((left.0, right.0)),
            Err(error) => Err(error),
        }
    }

    /// Reads the values of a single channel and the shaping of its envelopes.
    pub fn parse_mono_after_prefix_usac(
        reader: &mut BitReader<'_>,
        control: &LdSbrChannelControl,
        tables: &LdSbrFrequencyTables,
        default_amp_resolution: bool,
        inter_tes: bool,
    ) -> (result: Result<(LdSbrChannelValues, Vec<InterTesEnvelope>), LdSbrError>)
        requires
            envelopes_known(control@, tables@),
            tables@.noise.len() >= 1,
        ensures
            final(reader)@ == parse_mono(control@, tables@, default_amp_resolution, inter_tes, old(reader)@).1,
            match parse_mono(control@, tables@, default_amp_resolution, inter_tes, old(reader)@).0 {
                Ok((values, shaping)) => result matches Ok((found, shapes)) && found@ == values && shapes@ == shaping,
                Err(error) => result matches Err(found) && found == error,
            },
            old(reader)@.leads_to(final(reader)@),
    {
        proof {
            reveal(parse_mono);
        }
        let inverse_filtering_modes: Vec<u8> = match read_invf(reader, tables.noise_band_count()) {
            Ok(modes) => modes,
            Err(error) => {
                return Err(error);
            },
        };
        let (envelopes, shaping): (Vec<Vec<i16>>, Vec<InterTesEnvelope>) = match read_envelopes_usac(
            reader,
            control,
            tables,
            default_amp_resolution,
            false,
            inter_tes,
        ) {
            Ok(rows) => rows,
            Err(error) => {
                return Err(error);
            },
        };
        let noise: Vec<Vec<i16>> = match read_noise(reader, control, tables, false) {
            Ok(rows) => rows,
            Err(error) => {
                return Err(error);
            },
        };
        Ok((LdSbrChannelValues { inverse_filtering_modes, envelopes, noise }, shaping))
    }

    /// Reads the values of a channel pair and the shaping of its envelopes.
    pub fn parse_stereo_after_prefix_usac(
        reader: &mut BitReader<'_>,
        prefix: &LdSbrChannelElementPrefix,
        tables: &LdSbrFrequencyTables,
        default_amp_resolution: bool,
        inter_tes: bool,
    ) -> (result: Result<
        ((LdSbrChannelValues, Vec<InterTesEnvelope>), (LdSbrChannelValues, Vec<InterTesEnvelope>)),
        LdSbrError,
    >)
        requires
            prefix@.right matches Some(right) ==> {
                &&& envelopes_known(prefix@.left, tables@)
                &&& envelopes_known(right, tables@)
                &&& tables@.noise.len() >= 1
            },
        ensures
            final(reader)@ == parse_pair(prefix@, tables@, default_amp_resolution, inter_tes, old(reader)@).1,
            match parse_pair(prefix@, tables@, default_amp_resolution, inter_tes, old(reader)@).0 {
                Ok((left, right)) => result matches Ok((a, b)) && a.0@ == left.0 && a.1@ == left.1 && b.0@ == right.0
                    && b.1@ == right.1,
                Err(error) => result matches Err(found) && found == error,
            },
            old(reader)@.leads_to(final(reader)@),
    {
        proof {
            reveal(parse_pair);
        }
        let _ = reader.bits_read();
        let right_control = match &prefix.right {
            Some(control) => control,
            None => {
                return Err(LdSbrError::ExpectedStereo);
            },
        };
        let left_invf: Vec<u8> = match read_invf(reader, tables.noise_band_count()) {
            Ok(modes) => modes,
            Err(error) => {
                return Err(error);
            },
        };
        let right_invf: Vec<u8> = if prefix.coupling {
            let copy = left_invf.clone();
            assert(copy@ =~= left_invf@);
            copy
        } else {
            match read_invf(reader, tables.noise_band_count()) {
                Ok(modes) => modes,
                Err(error) => {
                    return Err(error);
                },
            }
        };
        match read_pair_rows(
            reader,
            &prefix.left,
            right_control,
            prefix.coupling,
            tables,
            default_amp_resolution,
            inter_tes,
        ) {
            Ok((left_envelopes, left_noise, right_envelopes, right_noise)) => Ok(
                (
                    (
                        LdSbrChannelValues {
                            inverse_filtering_modes: left_invf,
                            envelopes: left_envelopes.0,
                            noise: left_noise,
                        },
                        left_envelopes.1,
                    ),
                    (
                        LdSbrChannelValues {
                            inverse_filtering_modes: right_invf,
                            envelopes: right_envelopes.0,
                            noise: right_noise,
                        },
                        right_envelopes.1,
                    ),
                ),
            ),
            Err(error) => Err(error),
        }
    }
}

} // verus!

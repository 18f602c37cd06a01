//! Frames of low-delay spectral band replication.

use vstd::prelude::*;

use crate::asc::LdSbrHeader;
use crate::bits::{crc_of, BitCursor, BitReader};

use super::delta::{rebuilt, rows_fit, tables_countable, LdSbrPreviousValues, PreviousFields};
use super::error::LdSbrError;
use super::frequency::{frequency_tables, FrequencyBorders, LdSbrFrequencyTables};
use super::grid::{control_valid, parse_prefix, prefix_valid, ControlFields, LdSbrChannelElementPrefix, PrefixFields};
use super::values::{
    parse_mono, parse_pair, parse_pair_rows, read_all_envelopes, read_envelope_rows, read_noise_rows, rows,
    ChannelFields, LdSbrChannelValues,
};

verus! {

/// The width of the frame checksum.
pub const FRAME_CRC_WIDTH: u32 = 10;

/// The polynomial of the frame checksum.
pub const FRAME_CRC_POLYNOMIAL: u32 = 0x0633;

/// A parsed frame.
#[derive(Debug, Clone, PartialEq, Eq)]
pub struct LdSbrFrame {
    pub transmitted_crc: Option<u16>,
    pub header_present: bool,
    pub active_header: LdSbrHeader,
    pub frequency_tables: LdSbrFrequencyTables,
    pub prefix: LdSbrChannelElementPrefix,
    pub left: LdSbrChannelValues,
    pub right: Option<LdSbrChannelValues>,
    pub left_harmonics: Vec<bool>,
    pub right_harmonics: Option<Vec<bool>>,
    pub extended_data: Vec<u8>,
    pub bits_read: usize,
}

/// A frame with its parts as sequences.
pub struct FrameFields {
    pub transmitted_crc: Option<u16>,
    pub header_present: bool,
    pub active_header: LdSbrHeader,
    pub frequency_tables: FrequencyBorders,
    pub prefix: PrefixFields,
    pub left: ChannelFields,
    pub right: Option<ChannelFields>,
    pub left_harmonics: Seq<bool>,
    pub right_harmonics: Option<Seq<bool>>,
    pub extended_data: Seq<u8>,
    pub bits_read: usize,
}

/// The view of values that may be missing.
pub open spec fn optional_values(values: Option<LdSbrChannelValues>) -> Option<ChannelFields> {
    match values {
        Some(values) => Some(values@),
        None => None,
    }
}

impl View for LdSbrFrame {
    type V = FrameFields;

    open spec fn view(&self) -> FrameFields {
        FrameFields {
            transmitted_crc: self.transmitted_crc,
            header_present: self.header_present,
            active_header: self.active_header,
            frequency_tables: self.frequency_tables@,
            prefix: self.prefix@,
            left: self.left@,
            right: optional_values(self.right),
            left_harmonics: self.left_harmonics@,
            right_harmonics: match self.right_harmonics {
                Some(flags) => Some(flags@),
                None => None,
            },
            extended_data: self.extended_data@,
            bits_read: self.bits_read,
        }
    }
}

// ---------------------------------------------------------------------------
// Header
// ---------------------------------------------------------------------------

/// The first group of optional header fields.
#[verifier::opaque]
pub open spec fn parse_header_first(present: bool, cursor: BitCursor) -> (
    Result<(Option<u8>, Option<bool>, Option<u8>), LdSbrError>,
    BitCursor,
) {
    if !present {
        (Ok((None, None, None)), cursor)
    } else {
        match cursor.read(2) {
            (Err(_), c1) => (Err(LdSbrError::UnexpectedEof), c1),
            (Ok(scale), c1) => match c1.read_flag() {
                (Err(_), c2) => (Err(LdSbrError::UnexpectedEof), c2),
                (Ok(alter), c2) => match c2.read(2) {
                    (Err(_), c3) => (Err(LdSbrError::UnexpectedEof), c3),
                    (Ok(noise), c3) => (Ok((Some(scale as u8), Some(alter), Some(noise as u8))), c3),
                },
            },
        }
    }
}

/// The second group of optional header fields.
#[verifier::opaque]
pub open spec fn parse_header_second(present: bool, cursor: BitCursor) -> (
    Result<(Option<u8>, Option<u8>, Option<bool>, Option<bool>), LdSbrError>,
    BitCursor,
) {
    if !present {
        (Ok((None, None, None, None)), cursor)
    } else {
        match cursor.read(2) {
            (Err(_), c1) => (Err(LdSbrError::UnexpectedEof), c1),
            (Ok(bands), c1) => match c1.read(2) {
                (Err(_), c2) => (Err(LdSbrError::UnexpectedEof), c2),
                (Ok(gains), c2) => match c2.read_flag() {
                    (Err(_), c3) => (Err(LdSbrError::UnexpectedEof), c3),
                    (Ok(interpol), c3) => match c3.read_flag() {
                        (Err(_), c4) => (Err(LdSbrError::UnexpectedEof), c4),
                        (Ok(smoothing), c4) => (
                            Ok((Some(bands as u8), Some(gains as u8), Some(interpol), Some(smoothing))),
                            c4,
                        ),
                    },
                },
            },
        }
    }
}

/// The leading fields of a header: amplitude resolution, start and stop
/// frequency, crossover band, reserved bits and the flags of the two groups.
pub open spec fn parse_header_lead(cursor: BitCursor) -> (
    Result<(bool, u8, u8, u8, u8, bool, bool), LdSbrError>,
    BitCursor,
) {
    match cursor.read_flag() {
        (Err(_), c1) => (Err(LdSbrError::UnexpectedEof), c1),
        (Ok(amp), c1) => match c1.read(4) {
            (Err(_), c2) => (Err(LdSbrError::UnexpectedEof), c2),
            (Ok(start), c2) => match c2.read(4) {
                (Err(_), c3) => (Err(LdSbrError::UnexpectedEof), c3),
                (Ok(stop), c3) => match c3.read(3) {
                    (Err(_), c4) => (Err(LdSbrError::UnexpectedEof), c4),
                    (Ok(crossover), c4) => match c4.read(2) {
                        (Err(_), c5) => (Err(LdSbrError::UnexpectedEof), c5),
                        (Ok(reserved), c5) => match c5.read_flag() {
                            (Err(_), c6) => (Err(LdSbrError::UnexpectedEof), c6),
                            (Ok(first), c6) => match c6.read_flag() {
                                (Err(_), c7) => (Err(LdSbrError::UnexpectedEof), c7),
                                (Ok(second), c7) => (
                                    Ok((amp, start as u8, stop as u8, crossover as u8, reserved as u8, first, second)),
                                    c7,
                                ),
                            },
                        },
                    },
                },
            },
        },
    }
}

/// Parsing of a header.
#[verifier::opaque]
pub open spec fn parse_header(cursor: BitCursor) -> (Result<LdSbrHeader, LdSbrError>, BitCursor) {
    match parse_header_lead(cursor) {
        (Err(error), c1) => (Err(error), c1),
        (Ok((amp, start, stop, crossover, reserved, first, second)), c1) => match parse_header_first(first, c1) {
            (Err(error), c2) => (Err(error), c2),
            (Ok((scale, alter, noise)), c2) => match parse_header_second(second, c2) {
                (Err(error), c3) => (Err(error), c3),
                (Ok((bands, gains, interpol, smoothing)), c3) => (
                    Ok(
                        LdSbrHeader {
                            amp_resolution: amp,
                            crossover_band: crossover,
                            reserved,
                            start_frequency: start,
                            stop_frequency: stop,
                            frequency_scale: scale,
                            alter_scale: alter,
                            noise_bands: noise,
                            limiter_bands: bands,
                            limiter_gains: gains,
                            interpol_frequency: interpol,
                            smoothing_mode: smoothing,
                        },
                    ),
                    c3,
                ),
            },
        },
    }
}

fn read_flag(reader: &mut BitReader<'_>) -> (result: Result<bool, LdSbrError>)
    ensures
        final(reader)@ == old(reader)@.read_flag().1,
        match old(reader)@.read_flag().0 {
            Ok(flag) => result == Ok::<bool, LdSbrError>(flag),
            Err(_) => result == Err::<bool, LdSbrError>(LdSbrError::UnexpectedEof),
        },
        old(reader)@.leads_to(final(reader)@),
{
    match reader.read_bool() {
        Ok(flag) => Ok(flag),
        Err(_) => Err(LdSbrError::UnexpectedEof),
    }
}

fn read_field(reader: &mut BitReader<'_>, width: usize) -> (result: Result<u8, LdSbrError>)
    requires
        width <= 8,
    ensures
        final(reader)@ == old(reader)@.read(width as int).1,
        match old(reader)@.read(width as int).0 {
            Ok(value) => result == Ok::<u8, LdSbrError>(value as u8) && value < 256,
            Err(_) => result == Err::<u8, LdSbrError>(LdSbrError::UnexpectedEof),
        },
        old(reader)@.leads_to(final(reader)@),
{
    match reader.read_u8(width) {
        Ok(value) => Ok(value),
        Err(_) => Err(LdSbrError::UnexpectedEof),
    }
}

fn read_header_first(reader: &mut BitReader<'_>, present: bool) -> (result: Result<
    (Option<u8>, Option<bool>, Option<u8>),
    LdSbrError,
>)
    ensures
        (result, final(reader)@) == parse_header_first(present, old(reader)@),
        old(reader)@.leads_to(final(reader)@),
{
    proof {
        reveal(parse_header_first);
    }
    let _ = reader.bits_read();
    if !present {
        return Ok((None, None, None));
    }
    let scale: u8 = match read_field(reader, 2) {
        Ok(value) => value,
        Err(error) => {
            return Err(error);
        },
    };
    let alter: bool = match read_flag(reader) {
        Ok(value) => value,
        Err(error) => {
            return Err(error);
        },
    };
    match read_field(reader, 2) {
        Ok(noise) => Ok((Some(scale), Some(alter), Some(noise))),
        Err(error) => Err(error),
    }
}

fn read_header_second(reader: &mut BitReader<'_>, present: bool) -> (result: Result<
    (Option<u8>, Option<u8>, Option<bool>, Option<bool>),
    LdSbrError,
>)
    ensures
        (result, final(reader)@) == parse_header_second(present, old(reader)@),
        old(reader)@.leads_to(final(reader)@),
{
    proof {
        reveal(parse_header_second);
    }
    let _ = reader.bits_read();
    if !present {
        return Ok((None, None, None, None));
    }
    let bands: u8 = match read_field(reader, 2) {
        Ok(value) => value,
        Err(error) => {
            return Err(error);
        },
    };
    let gains: u8 = match read_field(reader, 2) {
        Ok(value) => value,
        Err(error) => {
            return Err(error);
        },
    };
    let interpol: bool = match read_flag(reader) {
        Ok(value) => value,
        Err(error) => {
            return Err(error);
        },
    };
    match read_flag(reader) {
        Ok(smoothing) => Ok((Some(bands), Some(gains), Some(interpol), Some(smoothing))),
        Err(error) => Err(error),
    }
}

/// Parses a header.
pub fn parse_frame_header(reader: &mut BitReader<'_>) -> (result: Result<LdSbrHeader, LdSbrError>)
    ensures
        (result, final(reader)@) == parse_header(old(reader)@),
        old(reader)@.leads_to(final(reader)@),
{
    proof {
        reveal(parse_header);
    }
    let _ = reader.bits_read();
    let amp_resolution: bool = match read_flag(reader) {
        Ok(value) => value,
        Err(error) => {
            return Err(error);
        },
    };
    let start_frequency: u8 = match read_field(reader, 4) {
        Ok(value) => value,
        Err(error) => {
            return Err(error);
        },
    };
    let stop_frequency: u8 = match read_field(reader, 4) {
        Ok(value) => value,
        Err(error) => {
            return Err(error);
        },
    };
    let crossover_band: u8 = match read_field(reader, 3) {
        Ok(value) => value,
        Err(error) => {
            return Err(error);
        },
    };
    let reserved: u8 = match read_field(reader, 2) {
        Ok(value) => value,
        Err(error) => {
            return Err(error);
        },
    };
    let first: bool = match read_flag(reader) {
        Ok(value) => value,
        Err(error) => {
            return Err(error);
        },
    };
    let second: bool = match read_flag(reader) {
        Ok(value) => value,
        Err(error) => {
            return Err(error);
        },
    };
    let (frequency_scale, alter_scale, noise_bands): (Option<u8>, Option<bool>, Option<u8>) = match read_header_first(
        reader,
        first,
    ) {
        Ok(fields) => fields,
        Err(error) => {
            return Err(error);
        },
    };
    let (limiter_bands, limiter_gains, interpol_frequency, smoothing_mode): (
        Option<u8>,
        Option<u8>,
        Option<bool>,
        Option<bool>,
    ) = match read_header_second(reader, second) {
        Ok(fields) => fields,
        Err(error) => {
            return Err(error);
        },
    };
    Ok(
        LdSbrHeader {
            amp_resolution,
            crossover_band,
            reserved,
            start_frequency,
            stop_frequency,
            frequency_scale,
            alter_scale,
            noise_bands,
            limiter_bands,
            limiter_gains,
            interpol_frequency,
            smoothing_mode,
        },
    )
}

// ---------------------------------------------------------------------------
// Harmonics and extended data
// ---------------------------------------------------------------------------

/// Reading the harmonics: a flag, then one flag for each band where it is set.
#[verifier::opaque]
pub open spec fn parse_harmonics(count: int, cursor: BitCursor) -> (Result<Seq<bool>, LdSbrError>, BitCursor) {
    match cursor.read_flag() {
        (Err(_), next) => (Err(LdSbrError::UnexpectedEof), next),
        (Ok(present), next) => if !present {
            (Ok(Seq::new(count as nat, |i: int| false)), next)
        } else {
            match next.read_flags(count) {
                (Err(_), behind) => (Err(LdSbrError::UnexpectedEof), behind),
                (Ok(flags), behind) => (Ok(flags), behind),
            }
        },
    }
}

/// Reading the size of extended data: four bits, and eight more where they are
/// all set.
pub open spec fn parse_extended_size(cursor: BitCursor) -> (Result<int, LdSbrError>, BitCursor) {
    match cursor.read(4) {
        (Err(_), c1) => (Err(LdSbrError::UnexpectedEof), c1),
        (Ok(size), c1) => if size != 15 {
            (Ok(size as int), c1)
        } else {
            match c1.read(8) {
                (Err(_), c2) => (Err(LdSbrError::UnexpectedEof), c2),
                (Ok(more), c2) => (Ok((15 + more) as int), c2),
            }
        },
    }
}

/// Reading extended data: nothing at the end of the input or where the flag is
/// clear.
#[verifier::opaque]
pub open spec fn parse_extended(cursor: BitCursor) -> (Result<Seq<u8>, LdSbrError>, BitCursor) {
    if cursor.remaining() == 0 {
        (Ok(Seq::empty()), cursor)
    } else {
        match cursor.read_flag() {
            (Err(_), c1) => (Err(LdSbrError::UnexpectedEof), c1),
            (Ok(present), c1) => if !present {
                (Ok(Seq::empty()), c1)
            } else {
                match parse_extended_size(c1) {
                    (Err(error), c2) => (Err(error), c2),
                    (Ok(size), c2) => if c2.remaining() < 8 * size {
                        (Err(LdSbrError::UnexpectedEof), c2)
                    } else {
                        match c2.read_fields(8, size, Seq::empty()) {
                            (Err(_), c3) => (Err(LdSbrError::UnexpectedEof), c3),
                            (Ok(bytes), c3) => (Ok(bytes), c3),
                        }
                    },
                }
            },
        }
    }
}

/// Reads the harmonics of a channel.
pub fn read_add_harmonics(reader: &mut BitReader<'_>, high_band_count: usize) -> (result: Result<Vec<bool>, LdSbrError>)
    ensures
        final(reader)@ == parse_harmonics(high_band_count as int, old(reader)@).1,
        match parse_harmonics(high_band_count as int, old(reader)@).0 {
            Ok(flags) => result matches Ok(list) && list@ == flags,
            Err(error) => result matches Err(found) && found == error,
        },
        old(reader)@.leads_to(final(reader)@),
{
    proof {
        reveal(parse_harmonics);
    }
    let present: bool = match read_flag(reader) {
        Ok(flag) => flag,
        Err(error) => {
            return Err(error);
        },
    };
    if !present {
        let flags: Vec<bool> = vec![false; high_band_count];
        assert(flags@ =~= Seq::new(high_band_count as nat, |i: int| false));
        return Ok(flags);
    }
    match reader.read_flags(high_band_count) {
        Ok(flags) => Ok(flags),
        Err(_) => Err(LdSbrError::UnexpectedEof),
    }
}

/// Reads extended data.
pub fn read_extended_data(reader: &mut BitReader<'_>) -> (result: Result<Vec<u8>, LdSbrError>)
    ensures
        final(reader)@ == parse_extended(old(reader)@).1,
        match parse_extended(old(reader)@).0 {
            Ok(bytes) => result matches Ok(list) && list@ == bytes,
            Err(error) => result matches Err(found) && found == error,
        },
        old(reader)@.leads_to(final(reader)@),
{
    proof {
        reveal(parse_extended);
    }
    let _ = reader.bits_read();
    if reader.remaining_bits() == 0 {
        let empty: Vec<u8> = Vec::new();
        assert(empty@ =~= Seq::<u8>::empty());
        return Ok(empty);
    }
    let present: bool = match read_flag(reader) {
        Ok(flag) => flag,
        Err(error) => {
            return Err(error);
        },
    };
    if !present {
        let empty: Vec<u8> = Vec::new();
        assert(empty@ =~= Seq::<u8>::empty());
        return Ok(empty);
    }
    let mut count: usize = match read_field(reader, 4) {
        Ok(size) => size as usize,
        Err(error) => {
            return Err(error);
        },
    };
    if count == 15 {
        match read_field(reader, 8) {
            Ok(more) => {
                count = count + more as usize;
            },
            Err(error) => {
                return Err(error);
            },
        }
    }
    if reader.remaining_bits() < count * 8 {
        return Err(LdSbrError::UnexpectedEof);
    }
    match reader.read_fields(8, count) {
        Ok(bytes) => Ok(bytes),
        Err(_) => Err(LdSbrError::UnexpectedEof),
    }
}

// ---------------------------------------------------------------------------
// Channel values
// ---------------------------------------------------------------------------

/// Whether the rows of a level and a balance channel have the same shape.
pub open spec fn same_shape(left: Seq<Seq<i16>>, right: Seq<Seq<i16>>) -> bool {
    &&& left.len() == right.len()
    &&& forall|i: int| 0 <= i < left.len() ==> (#[trigger] left[i]).len() == right[i].len()
}

/// Whether a level and a balance channel have the same shape.
pub open spec fn coupled_layout(level: ChannelFields, balance: ChannelFields) -> bool {
    same_shape(level.envelopes, balance.envelopes) && same_shape(level.noise, balance.noise)
}

fn rows_have_same_shape(left: &Vec<Vec<i16>>, right: &Vec<Vec<i16>>) -> (same: bool)
    ensures
        same == same_shape(rows(left@), rows(right@)),
{
    if left.len() != right.len() {
        assert(rows(left@).len() != rows(right@).len());
        return false;
    }
    let mut index: usize = 0;
    while index < left.len()
        invariant
            index <= left@.len(),
            left@.len() == right@.len(),
            forall|i: int| 0 <= i < index ==> (#[trigger] rows(left@)[i]).len() == rows(right@)[i].len(),
        decreases left@.len() - index,
    {
        assert(rows(left@)[index as int] == left@[index as int]@);
        assert(rows(right@)[index as int] == right@[index as int]@);
        if left[index].len() != right[index].len() {
            return false;
        }
        index = index + 1;
    }
    true
}

impl LdSbrChannelValues {
    /// Whether a level and a balance channel have the same shape.
    pub fn coupled_layout_matches(level: &LdSbrChannelValues, balance: &LdSbrChannelValues) -> (matches: bool)
        ensures
            matches == coupled_layout(level@, balance@),
    {
        rows_have_same_shape(&level.envelopes, &balance.envelopes) && rows_have_same_shape(
            &level.noise,
            &balance.noise,
        )
    }
}

/// The values of a frame and the previous values that they leave.
pub struct FrameValues {
    pub left: ChannelFields,
    pub right: Option<ChannelFields>,
    pub previous_left: PreviousFields,
    pub previous_right: PreviousFields,
}

/// Reading and rebuilding the values of a single channel. Rows that cover bands
/// that there are not are refused.
#[verifier::opaque]
pub open spec fn parse_mono_values(
    prefix: PrefixFields,
    tables: FrequencyBorders,
    amp_resolution: bool,
    previous_left: PreviousFields,
    previous_right: PreviousFields,
    cursor: BitCursor,
) -> (Result<FrameValues, LdSbrError>, BitCursor) {
    match parse_mono(prefix.left, tables, amp_resolution, false, cursor) {
        (Err(error), next) => (Err(error), next),
        (Ok((sent, _)), next) => if !rows_fit(sent, prefix.left, tables) {
            (Err(LdSbrError::InvalidFrequencyRange), next)
        } else {
            let (left, after) = rebuilt(sent, prefix.left, tables, previous_left);
            (Ok(FrameValues { left, right: None, previous_left: after, previous_right }), next)
        },
    }
}

/// Reading and rebuilding the values of a channel pair. Rows that cover bands
/// that there are not, and coupled channels of different shapes, are refused.
#[verifier::opaque]
pub open spec fn parse_pair_values(
    prefix: PrefixFields,
    tables: FrequencyBorders,
    amp_resolution: bool,
    previous_left: PreviousFields,
    previous_right: PreviousFields,
    cursor: BitCursor,
) -> (Result<FrameValues, LdSbrError>, BitCursor) {
    match parse_pair(prefix, tables, amp_resolution, false, cursor) {
        (Err(error), next) => (Err(error), next),
        (Ok((sent_left, sent_right)), next) => {
            let right_control = prefix.right->0;
            if !rows_fit(sent_left.0, prefix.left, tables) || !rows_fit(sent_right.0, right_control, tables) {
                (Err(LdSbrError::InvalidFrequencyRange), next)
            } else {
                let (left, after_left) = rebuilt(sent_left.0, prefix.left, tables, previous_left);
                let (right, after_right) = rebuilt(sent_right.0, right_control, tables, previous_right);
                if prefix.coupling && !coupled_layout(left, right) {
                    (Err(LdSbrError::CoupledLayoutMismatch), next)
                } else {
                    (
                        Ok(
                            FrameValues {
                                left,
                                right: Some(right),
                                previous_left: after_left,
                                previous_right: after_right,
                            },
                        ),
                        next,
                    )
                }
            }
        },
    }
}

/// Rows are read for all envelopes and noise envelopes.
proof fn lemma_row_counts(
    control: ControlFields,
    tables: FrequencyBorders,
    coarse: bool,
    balance: bool,
    envelopes: Seq<Seq<i16>>,
    shaping: Seq<crate::usac_sbr::InterTesEnvelope>,
    cursor: BitCursor,
)
    requires
        envelopes.len() <= control.grid.frequency_resolution.len(),
    ensures
        read_envelope_rows(control, tables, coarse, balance, false, envelopes, shaping, cursor).0 matches Ok((list, _))
            ==> list.len() == control.grid.frequency_resolution.len(),
    decreases control.grid.frequency_resolution.len() - envelopes.len(),
{
    let index = envelopes.len() as int;
    if index < control.grid.frequency_resolution.len() {
        let count = if control.grid.frequency_resolution[index] {
            tables.high.len() - 1
        } else {
            tables.low.len() - 1
        };
        let time_domain = control.envelope_time_domain[index];
        let (row, next) = super::values::read_row(
            time_domain,
            super::values::envelope_start_bits(balance, coarse),
            super::values::envelope_book(balance, coarse, time_domain),
            count,
            super::values::value_scale(balance),
            cursor,
        );
        if row is Ok {
            let (shape, behind) = super::values::read_shaping(false, next);
            lemma_row_counts(
                control,
                tables,
                coarse,
                balance,
                envelopes.push(row->Ok_0),
                shaping.push(shape->Ok_0),
                behind,
            );
        }
    }
}

proof fn lemma_noise_counts(
    control: ControlFields,
    tables: FrequencyBorders,
    balance: bool,
    noise: Seq<Seq<i16>>,
    cursor: BitCursor,
)
    requires
        noise.len() <= control.noise_time_domain.len(),
    ensures
        read_noise_rows(control, tables, balance, noise, cursor).0 matches Ok(list) ==> list.len()
            == control.noise_time_domain.len(),
    decreases control.noise_time_domain.len() - noise.len(),
{
    let index = noise.len() as int;
    if index < control.noise_time_domain.len() {
        let time_domain = control.noise_time_domain[index];
        let (row, next) = super::values::read_row(
            time_domain,
            5,
            super::values::noise_book(balance, time_domain),
            tables.noise.len() - 1,
            super::values::value_scale(balance),
            cursor,
        );
        if row is Ok {
            lemma_noise_counts(control, tables, balance, noise.push(row->Ok_0), next);
        }
    }
}

/// The counts of rows that reading a channel gives.
proof fn lemma_channel_counts(
    control: ControlFields,
    tables: FrequencyBorders,
    default_amp_resolution: bool,
    balance: bool,
)
    ensures
        forall|cursor: BitCursor|
            (#[trigger] read_all_envelopes(control, tables, default_amp_resolution, balance, false, cursor)).0 matches Ok((
                list,
                _,
            )) ==> list.len() == control.grid.frequency_resolution.len(),
        forall|cursor: BitCursor|
            (#[trigger] read_noise_rows(control, tables, balance, Seq::empty(), cursor)).0 matches Ok(list) ==> list.len()
                == control.noise_time_domain.len(),
{
    assert forall|cursor: BitCursor|
        (#[trigger] read_all_envelopes(control, tables, default_amp_resolution, balance, false, cursor)).0 matches Ok((
            list,
            _,
        )) ==> list.len() == control.grid.frequency_resolution.len() by {
        reveal(read_all_envelopes);
        lemma_row_counts(
            control,
            tables,
            super::values::coarse_steps(control, default_amp_resolution),
            balance,
            Seq::empty(),
            Seq::empty(),
            cursor,
        );
    }
    assert forall|cursor: BitCursor|
        (#[trigger] read_noise_rows(control, tables, balance, Seq::empty(), cursor)).0 matches Ok(list) ==> list.len()
            == control.noise_time_domain.len() by {
        lemma_noise_counts(control, tables, balance, Seq::empty(), cursor);
    }
}

fn read_mono_values(
    reader: &mut BitReader<'_>,
    prefix: &LdSbrChannelElementPrefix,
    tables: &LdSbrFrequencyTables,
    amp_resolution: bool,
    previous_left: &mut LdSbrPreviousValues,
    Ghost(previous_right): Ghost<PreviousFields>,
) -> (result: Result<LdSbrChannelValues, LdSbrError>)
    requires
        control_valid(prefix@.left),
        tables_countable(tables@),
    ensures
        final(reader)@ == parse_mono_values(
            prefix@,
            tables@,
            amp_resolution,
            old(previous_left)@,
            previous_right,
            old(reader)@,
        ).1,
        match parse_mono_values(
            prefix@,
            tables@,
            amp_resolution,
            old(previous_left)@,
            previous_right,
            old(reader)@,
        ).0 {
            Ok(values) => result matches Ok(left) && left@ == values.left && values.right is None && final(previous_left)@
                == values.previous_left && values.previous_right == previous_right,
            Err(error) => result matches Err(found) && found == error,
        },
        old(reader)@.leads_to(final(reader)@),
{
    proof {
        reveal(parse_mono_values);
        reveal(parse_mono);
    }
    proof {
        lemma_channel_counts(prefix@.left, tables@, amp_resolution, false);
    }
    let mut left = match LdSbrChannelValues::parse_mono_after_prefix(reader, &prefix.left, tables, amp_resolution) {
        Ok(values) => values,
        Err(error) => {
            return Err(error);
        },
    };
    if !left.fits(&prefix.left, tables) {
        return Err(LdSbrError::InvalidFrequencyRange);
    }
    match left.reconstruct_deltas(&prefix.left, tables, previous_left) {
        Ok(()) => {},
        Err(error) => {
            return Err(error);
        },
    }
    Ok(left)
}

fn read_pair_values(
    reader: &mut BitReader<'_>,
    prefix: &LdSbrChannelElementPrefix,
    tables: &LdSbrFrequencyTables,
    amp_resolution: bool,
    previous_left: &mut LdSbrPreviousValues,
    previous_right: &mut LdSbrPreviousValues,
) -> (result: Result<(LdSbrChannelValues, LdSbrChannelValues), LdSbrError>)
    requires
        prefix_valid(prefix@, true),
        tables_countable(tables@),
    ensures
        final(reader)@ == parse_pair_values(
            prefix@,
            tables@,
            amp_resolution,
            old(previous_left)@,
            old(previous_right)@,
            old(reader)@,
        ).1,
        match parse_pair_values(
            prefix@,
            tables@,
            amp_resolution,
            old(previous_left)@,
            old(previous_right)@,
            old(reader)@,
        ).0 {
            Ok(values) => result matches Ok((left, right)) && left@ == values.left && values.right == Some(right@)
                && final(previous_left)@ == values.previous_left && final(previous_right)@ == values.previous_right,
            Err(error) => result matches Err(found) && found == error,
        },
        old(reader)@.leads_to(final(reader)@),
{
    proof {
        reveal(parse_pair_values);
        reveal(parse_pair);
        reveal(parse_pair_rows);
    }
    let right_control = match &prefix.right {
        Some(control) => control,
        None => {
            return Err(LdSbrError::ExpectedStereo);
        },
    };
    proof {
        lemma_channel_counts(prefix@.left, tables@, amp_resolution, false);
        lemma_channel_counts(right_control@, tables@, amp_resolution, false);
        lemma_channel_counts(right_control@, tables@, amp_resolution, true);
    }
    let (mut left, mut right): (LdSbrChannelValues, LdSbrChannelValues) = match LdSbrChannelValues::parse_stereo_after_prefix(
        reader,
        prefix,
        tables,
        amp_resolution,
    ) {
        Ok(values) => values,
        Err(error) => {
            return Err(error);
        },
    };
    if !left.fits(&prefix.left, tables) || !right.fits(right_control, tables) {
        return Err(LdSbrError::InvalidFrequencyRange);
    }
    match left.reconstruct_deltas(&prefix.left, tables, previous_left) {
        Ok(()) => {},
        Err(error) => {
            return Err(error);
        },
    }
    match right.reconstruct_deltas(right_control, tables, previous_right) {
        Ok(()) => {},
        Err(error) => {
            return Err(error);
        },
    }
    if prefix.coupling && !LdSbrChannelValues::coupled_layout_matches(&left, &right) {
        return Err(LdSbrError::CoupledLayoutMismatch);
    }
    Ok((left, right))
}

// ---------------------------------------------------------------------------
// Frames
// ---------------------------------------------------------------------------

/// What a parser keeps from frame to frame.
pub struct ParserState {
    pub header: LdSbrHeader,
    pub sampling_frequency: u32,
    pub time_slots: u8,
    pub stereo: bool,
    pub crc_present: bool,
    pub previous_left: PreviousFields,
    pub previous_right: PreviousFields,
}

/// Reading the checksum, where frames have one.
pub open spec fn parse_crc(present: bool, cursor: BitCursor) -> (Result<Option<u16>, LdSbrError>, BitCursor) {
    if !present {
        (Ok(None), cursor)
    } else {
        match cursor.read(10) {
            (Err(_), next) => (Err(LdSbrError::UnexpectedEof), next),
            (Ok(crc), next) => (Ok(Some(crc as u16)), next),
        }
    }
}

/// The header in force: the one of the frame where it has one, the last one
/// otherwise.
pub open spec fn parse_active_header(last: LdSbrHeader, cursor: BitCursor) -> (
    Result<(bool, LdSbrHeader), LdSbrError>,
    BitCursor,
) {
    match cursor.read_flag() {
        (Err(_), c1) => (Err(LdSbrError::UnexpectedEof), c1),
        (Ok(present), c1) => if !present {
            (Ok((false, last)), c1)
        } else {
            match parse_header(c1) {
                (Err(error), c2) => (Err(error), c2),
                (Ok(header), c2) => (Ok((true, header)), c2),
            }
        },
    }
}

/// Reading the values of a frame.
pub open spec fn parse_values(
    state: ParserState,
    prefix: PrefixFields,
    tables: FrequencyBorders,
    amp_resolution: bool,
    cursor: BitCursor,
) -> (Result<FrameValues, LdSbrError>, BitCursor) {
    if state.stereo {
        parse_pair_values(prefix, tables, amp_resolution, state.previous_left, state.previous_right, cursor)
    } else {
        parse_mono_values(prefix, tables, amp_resolution, state.previous_left, state.previous_right, cursor)
    }
}

/// What follows the values of a frame: the harmonics of each channel and the
/// extended data.
#[verifier::opaque]
pub open spec fn parse_trailer(stereo: bool, high_bands: int, cursor: BitCursor) -> (
    Result<(Seq<bool>, Option<Seq<bool>>, Seq<u8>), LdSbrError>,
    BitCursor,
) {
    match parse_harmonics(high_bands, cursor) {
        (Err(error), c1) => (Err(error), c1),
        (Ok(left), c1) => if stereo {
            match parse_harmonics(high_bands, c1) {
                (Err(error), c2) => (Err(error), c2),
                (Ok(right), c2) => match parse_extended(c2) {
                    (Err(error), c3) => (Err(error), c3),
                    (Ok(extended), c3) => (Ok((left, Some(right), extended)), c3),
                },
            }
        } else {
            match parse_extended(c1) {
                (Err(error), c2) => (Err(error), c2),
                (Ok(extended), c2) => (Ok((left, None, extended)), c2),
            }
        },
    }
}

/// Holding the transmitted checksum against that of the frame's bits.
pub open spec fn check_crc(transmitted: Option<u16>, bits: Seq<bool>) -> Result<(), LdSbrError> {
    match transmitted {
        None => Ok(()),
        Some(expected) => {
            let calculated = crc_of(bits, FRAME_CRC_WIDTH, FRAME_CRC_POLYNOMIAL);
            if calculated == expected {
                Ok(())
            } else {
                Err(LdSbrError::CrcMismatch { expected, calculated: calculated as u16 })
            }
        },
    }
}

/// Parsing of a frame's body behind its header.
pub open spec fn parse_body(
    state: ParserState,
    start: int,
    region: int,
    transmitted: Option<u16>,
    header_present: bool,
    header: LdSbrHeader,
    tables: FrequencyBorders,
    cursor: BitCursor,
) -> (Result<(FrameFields, ParserState), LdSbrError>, BitCursor) {
    match parse_prefix(state.time_slots, state.stereo, cursor) {
        (Err(error), c1) => (Err(error), c1),
        (Ok(prefix), c1) => match parse_values(state, prefix, tables, header.amp_resolution, c1) {
            (Err(error), c2) => (Err(error), c2),
            (Ok(values), c2) => match parse_trailer(state.stereo, tables.high.len() - 1, c2) {
                (Err(error), c3) => (Err(error), c3),
                (Ok((left_harmonics, right_harmonics, extended_data)), c3) => match check_crc(
                    transmitted,
                    c3.bits.subrange(region, c3.pos),
                ) {
                    Err(error) => (Err(error), c3),
                    Ok(()) => (
                        Ok(
                            (
                                FrameFields {
                                    transmitted_crc: transmitted,
                                    header_present,
                                    active_header: header,
                                    frequency_tables: tables,
                                    prefix,
                                    left: values.left,
                                    right: values.right,
                                    left_harmonics,
                                    right_harmonics,
                                    extended_data,
                                    bits_read: (c3.pos - start) as usize,
                                },
                                ParserState {
                                    header,
                                    previous_left: values.previous_left,
                                    previous_right: values.previous_right,
                                    ..state
                                },
                            ),
                        ),
                        c3,
                    ),
                },
            },
        },
    }
}

/// Parsing of a frame: the frame and the state behind it.
pub open spec fn parse_frame(state: ParserState, cursor: BitCursor) -> (
    Result<(FrameFields, ParserState), LdSbrError>,
    BitCursor,
) {
    match parse_crc(state.crc_present, cursor) {
        (Err(error), c1) => (Err(error), c1),
        (Ok(transmitted), c1) => match parse_active_header(state.header, c1) {
            (Err(error), c2) => (Err(error), c2),
            (Ok((present, header)), c2) => match frequency_tables(header, state.sampling_frequency) {
                Err(error) => (Err(error), c2),
                Ok(tables) => parse_body(state, cursor.pos, c1.pos, transmitted, present, header, tables, c2),
            },
        },
    }
}

/// Reads what follows the values of a frame.
fn read_trailer(reader: &mut BitReader<'_>, stereo: bool, high_bands: usize) -> (result: Result<
    (Vec<bool>, Option<Vec<bool>>, Vec<u8>),
    LdSbrError,
>)
    ensures
        final(reader)@ == parse_trailer(stereo, high_bands as int, old(reader)@).1,
        match parse_trailer(stereo, high_bands as int, old(reader)@).0 {
            Ok((left, right, extended)) => {
                &&& result matches Ok((a, b, c)) && a@ == left && c@ == extended && (b is Some <==> right is Some) && (
                b matches Some(flags) ==> right == Some(flags@))
            },
            Err(error) => result matches Err(found) && found == error,
        },
        old(reader)@.leads_to(final(reader)@),
{
    proof {
        reveal(parse_trailer);
    }
    let left: Vec<bool> = match read_add_harmonics(reader, high_bands) {
        Ok(flags) => flags,
        Err(error) => {
            return Err(error);
        },
    };
    let right: Option<Vec<bool>> = if stereo {
        match read_add_harmonics(reader, high_bands) {
            Ok(flags) => Some(flags),
            Err(error) => {
                return Err(error);
            },
        }
    } else {
        None
    };
    match read_extended_data(reader) {
        Ok(extended) => Ok((left, right, extended)),
        Err(error) => Err(error),
    }
}

/// A parser of frames.
#[derive(Debug)]
pub struct LdSbrFrameParser {
    header: LdSbrHeader,
    sampling_frequency: u32,
    time_slots: u8,
    stereo: bool,
    crc_present: bool,
    previous_left: LdSbrPreviousValues,
    previous_right: LdSbrPreviousValues,
}

impl View for LdSbrFrameParser {
    type V = ParserState;

    closed spec fn view(&self) -> ParserState {
        ParserState {
            header: self.header,
            sampling_frequency: self.sampling_frequency,
            time_slots: self.time_slots,
            stereo: self.stereo,
            crc_present: self.crc_present,
            previous_left: self.previous_left@,
            previous_right: self.previous_right@,
        }
    }
}

impl Clone for LdSbrFrameParser {
    fn clone(&self) -> (copy: LdSbrFrameParser)
        ensures
            copy@ == self@,
    {
        LdSbrFrameParser {
            header: self.header,
            sampling_frequency: self.sampling_frequency,
            time_slots: self.time_slots,
            stereo: self.stereo,
            crc_present: self.crc_present,
            previous_left: self.previous_left.clone(),
            previous_right: self.previous_right.clone(),
        }
    }
}

impl LdSbrFrameParser {
    /// A parser that starts from a header. Frames of 480 samples have fifteen time
    /// slots and frames of 512 sixteen.
    pub fn new(
        header: LdSbrHeader,
        sampling_frequency: u32,
        frame_length: usize,
        stereo: bool,
        crc_present: bool,
    ) -> (result: Result<LdSbrFrameParser, LdSbrError>)
        ensures
            match result {
                Ok(parser) => {
                    &&& frame_length == 480 || frame_length == 512
                    &&& frequency_tables(header, sampling_frequency) is Ok
                    &&& parser@ == (ParserState {
                        header,
                        sampling_frequency,
                        time_slots: if frame_length == 480 { 15 } else { 16 },
                        stereo,
                        crc_present,
                        previous_left: PreviousFields::none(),
                        previous_right: PreviousFields::none(),
                    })
                },
                Err(error) => if frame_length != 480 && frame_length != 512 {
                    error == LdSbrError::UnsupportedFrameLength(frame_length)
                } else {
                    frequency_tables(header, sampling_frequency) == Err::<FrequencyBorders, LdSbrError>(error)
                },
            },
    {
        let time_slots: u8 = match frame_length {
            480 => 15,
            512 => 16,
            _ => {
                return Err(LdSbrError::UnsupportedFrameLength(frame_length));
            },
        };
        match LdSbrFrequencyTables::from_header(&header, sampling_frequency) {
            Ok(_) => {},
            Err(error) => {
                return Err(error);
            },
        }
        Ok(
            LdSbrFrameParser {
                header,
                sampling_frequency,
                time_slots,
                stereo,
                crc_present,
                previous_left: LdSbrPreviousValues::default(),
                previous_right: LdSbrPreviousValues::default(),
            },
        )
    }

    /// Forgets the values of earlier frames.
    pub fn clear_history(&mut self)
        ensures
            final(self)@ == (ParserState {
                previous_left: PreviousFields::none(),
                previous_right: PreviousFields::none(),
                ..old(self)@
            }),
    {
        self.previous_left = LdSbrPreviousValues::default();
        self.previous_right = LdSbrPreviousValues::default();
    }

    /// Parses a frame. A frame that is refused leaves the parser as it was.
    pub fn parse(&mut self, reader: &mut BitReader<'_>) -> (result: Result<LdSbrFrame, LdSbrError>)
        ensures
            final(reader)@ == parse_frame(old(self)@, old(reader)@).1,
            match parse_frame(old(self)@, old(reader)@).0 {
                Ok((frame, state)) => result matches Ok(found) && found@ == frame && final(self)@ == state,
                Err(error) => result matches Err(found) && found == error && final(self)@ == old(self)@,
            },
            old(reader)@.leads_to(final(reader)@),
    {
        let start: usize = reader.bits_read();
        let transmitted_crc: Option<u16> = if self.crc_present {
            match reader.read_u16(10) {
                Ok(crc) => Some(crc),
                Err(_) => {
                    return Err(LdSbrError::UnexpectedEof);
                },
            }
        } else {
            None
        };
        let region: usize = reader.bits_read();
        let header_present: bool = match read_flag(reader) {
            Ok(flag) => flag,
            Err(error) => {
                return Err(error);
            },
        };
        let header: LdSbrHeader = if header_present {
            match parse_frame_header(reader) {
                Ok(header) => header,
                Err(error) => {
                    return Err(error);
                },
            }
        } else {
            self.header
        };
        let tables = match LdSbrFrequencyTables::from_header(&header, self.sampling_frequency) {
            Ok(tables) => tables,
            Err(error) => {
                return Err(error);
            },
        };
        let ghost behind_header = reader@;
        let prefix = match LdSbrChannelElementPrefix::parse(reader, self.time_slots, self.stereo) {
            Ok(prefix) => prefix,
            Err(error) => {
                return Err(error);
            },
        };
        let mut previous_left = self.previous_left.clone();
        let mut previous_right = self.previous_right.clone();
        let ghost kept_right = previous_right@;
        let (left, right): (LdSbrChannelValues, Option<LdSbrChannelValues>) = if self.stereo {
            match read_pair_values(
                reader,
                &prefix,
                &tables,
                header.amp_resolution,
                &mut previous_left,
                &mut previous_right,
            ) {
                Ok((left, right)) => (left, Some(right)),
                Err(error) => {
                    return Err(error);
                },
            }
        } else {
            match read_mono_values(
                reader,
                &prefix,
                &tables,
                header.amp_resolution,
                &mut previous_left,
                Ghost(kept_right),
            ) {
                Ok(left) => (left, None),
                Err(error) => {
                    return Err(error);
                },
            }
        };
        let (left_harmonics, right_harmonics, extended_data): (Vec<bool>, Option<Vec<bool>>, Vec<u8>) = match read_trailer(
            reader,
            self.stereo,
            tables.high_band_count(),
        ) {
            Ok(trailer) => trailer,
            Err(error) => {
                return Err(error);
            },
        };
        let end: usize = reader.bits_read();
        match transmitted_crc {
            Some(expected) => {
                let calculated: u32 = reader.crc_msb(region, end, FRAME_CRC_WIDTH, FRAME_CRC_POLYNOMIAL);
                if calculated != expected as u32 {
                    return Err(LdSbrError::CrcMismatch { expected, calculated: calculated as u16 });
                }
            },
            None => {},
        }
        self.previous_left = previous_left;
        self.previous_right = previous_right;
        self.header = header;
        Ok(
            LdSbrFrame {
                transmitted_crc,
                header_present,
                active_header: header,
                frequency_tables: tables,
                prefix,
                left,
                right,
                left_harmonics,
                right_harmonics,
                extended_data,
                bits_read: end - start,
            },
        )
    }

    /// The header in force.
    pub fn header(&self) -> (header: &LdSbrHeader)
        ensures
            *header == self@.header,
    {
        &self.header
    }
}

// ---------------------------------------------------------------------------
// Frames in turn
// ---------------------------------------------------------------------------

/// Whether the values of a channel, and those that it leaves, come out of some that were
/// sent and of those that the previous frame left of the same channel.
pub open spec fn rebuilt_from(
    values: ChannelFields,
    left_over: PreviousFields,
    control: ControlFields,
    tables: FrequencyBorders,
    previous: PreviousFields,
) -> bool {
    exists|sent: ChannelFields|
        (values, left_over) == #[trigger] rebuilt(sent, control, tables, previous) && rows_fit(sent, control, tables)
}

/// A frame goes on where the previous one ended: each channel is rebuilt from what the
/// same channel left, with the grid of its own control, and leaves its values for the next
/// frame. Without a header of its own it uses the last one; either way the header that it
/// uses becomes the last one, and gives its tables. A single channel leaves nothing for a
/// right one.
pub proof fn lemma_frames_follow(state: ParserState, cursor: BitCursor)
    requires
        parse_frame(state, cursor).0 is Ok,
    ensures
        ({
            let (frame, next) = parse_frame(state, cursor).0->Ok_0;
            &&& next.header == frame.active_header
            &&& !frame.header_present ==> frame.active_header == state.header
            &&& frequency_tables(frame.active_header, state.sampling_frequency) == Ok::<FrequencyBorders, LdSbrError>(
                frame.frequency_tables,
            )
            &&& next.stereo == state.stereo
            &&& next.crc_present == state.crc_present
            &&& next.time_slots == state.time_slots
            &&& next.sampling_frequency == state.sampling_frequency
            &&& rebuilt_from(
                frame.left,
                next.previous_left,
                frame.prefix.left,
                frame.frequency_tables,
                state.previous_left,
            )
            &&& state.stereo ==> frame.right is Some && frame.prefix.right is Some && rebuilt_from(
                frame.right->0,
                next.previous_right,
                frame.prefix.right->0,
                frame.frequency_tables,
                state.previous_right,
            )
            &&& !state.stereo ==> frame.right is None && next.previous_right == state.previous_right
        }),
{
    let c1 = parse_crc(state.crc_present, cursor).1;
    let (active, c2) = parse_active_header(state.header, c1);
    let (present, header) = active->Ok_0;
    let tables = frequency_tables(header, state.sampling_frequency)->Ok_0;
    let (prefix, c3) = parse_prefix(state.time_slots, state.stereo, c2);
    reveal(parse_mono_values);
    reveal(parse_pair_values);
    reveal(parse_pair);
    let (frame, next) = parse_frame(state, cursor).0->Ok_0;
    if state.stereo {
        let (left, right) = parse_pair(prefix->Ok_0, tables, header.amp_resolution, false, c3).0->Ok_0;
        assert((frame.left, next.previous_left) == rebuilt(left.0, frame.prefix.left, tables, state.previous_left));
        assert((frame.right->0, next.previous_right) == rebuilt(
            right.0,
            frame.prefix.right->0,
            tables,
            state.previous_right,
        ));
    } else {
        let sent = parse_mono(prefix->Ok_0.left, tables, header.amp_resolution, false, c3).0->Ok_0.0;
        assert((frame.left, next.previous_left) == rebuilt(sent, frame.prefix.left, tables, state.previous_left));
    }
}

/// A frame with a check sum is accepted only where the sum of the bits behind it, up to
/// the end of the frame, is the one that was sent.
pub proof fn lemma_check_sum_holds(state: ParserState, cursor: BitCursor)
    requires
        state.crc_present,
        0 <= cursor.pos,
        parse_frame(state, cursor).0 is Ok,
    ensures
        ({
            let (frame, next) = parse_frame(state, cursor).0->Ok_0;
            let end = parse_frame(state, cursor).1;
            let sum = cursor.read(10).0;
            &&& sum is Ok
            &&& frame.transmitted_crc == Some(sum->Ok_0 as u16)
            &&& crc_of(end.bits.subrange(cursor.pos + 10, end.pos), 10, 0x0633) == sum->Ok_0 as u16
        }),
{
}

} // verus!

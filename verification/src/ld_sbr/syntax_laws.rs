//! Headers, grids, directions and extended data read back from the bits that they are written
//! in.

use vstd::arithmetic::power2::lemma2_to64;
use vstd::prelude::*;

use crate::asc::LdSbrHeader;
use crate::bits::{
    lemma_stands_bit, lemma_stands_field, lemma_stands_split, lemma_value_bits_len, stands_at, value_bits, BitCursor,
    BitError,
};

use super::error::LdSbrError;
use super::frame::{
    parse_active_header, parse_extended, parse_extended_size, parse_harmonics, parse_header, parse_header_first,
    parse_header_lead, parse_header_second, parse_trailer,
};
use super::grid::{
    equal_grid, parse_control, parse_data_extra, parse_equal_grid, parse_grid, parse_mono_prefix, parse_pair_controls,
    parse_pair_prefix, parse_prefix, parse_transient_grid, supported_slots, transient_borders, transient_envelope,
    ControlFields, GridFields, PrefixFields,
};
use super::value_laws::lemma_harmonics_read_back;

verus! {

// ---------------------------------------------------------------------------
// Headers
// ---------------------------------------------------------------------------

/// Whether the fields of a header fit their bits and its two groups are whole.
pub open spec fn header_fits(header: LdSbrHeader) -> bool {
    &&& header.start_frequency < 16
    &&& header.stop_frequency < 16
    &&& header.crossover_band < 8
    &&& header.reserved < 4
    &&& (header.alter_scale is Some) == (header.frequency_scale is Some)
    &&& (header.noise_bands is Some) == (header.frequency_scale is Some)
    &&& header.frequency_scale matches Some(scale) ==> scale < 4
    &&& header.noise_bands matches Some(noise) ==> noise < 4
    &&& (header.limiter_gains is Some) == (header.limiter_bands is Some)
    &&& (header.interpol_frequency is Some) == (header.limiter_bands is Some)
    &&& (header.smoothing_mode is Some) == (header.limiter_bands is Some)
    &&& header.limiter_bands matches Some(bands) ==> bands < 4
    &&& header.limiter_gains matches Some(gains) ==> gains < 4
}

/// The bits of the group of frequency fields, and more behind them.
pub open spec fn first_group_bits(header: LdSbrHeader, rest: Seq<bool>) -> Seq<bool> {
    if header.frequency_scale is Some {
        value_bits(header.frequency_scale->0 as nat, 2) + (seq![header.alter_scale->0] + (value_bits(
            header.noise_bands->0 as nat,
            2,
        ) + rest))
    } else {
        rest
    }
}

/// The bits of the group of limiter fields, and more behind them.
pub open spec fn second_group_bits(header: LdSbrHeader, rest: Seq<bool>) -> Seq<bool> {
    if header.limiter_bands is Some {
        value_bits(header.limiter_bands->0 as nat, 2) + (value_bits(header.limiter_gains->0 as nat, 2) + (seq![
            header.interpol_frequency->0,
        ] + (seq![header.smoothing_mode->0] + rest)))
    } else {
        rest
    }
}

/// The bits of a header, and more behind them.
pub open spec fn header_bits(header: LdSbrHeader, rest: Seq<bool>) -> Seq<bool> {
    seq![header.amp_resolution] + (value_bits(header.start_frequency as nat, 4) + (value_bits(
        header.stop_frequency as nat,
        4,
    ) + (value_bits(header.crossover_band as nat, 3) + (value_bits(header.reserved as nat, 2) + (seq![
        header.frequency_scale is Some,
    ] + (seq![header.limiter_bands is Some] + first_group_bits(header, second_group_bits(header, rest))))))))
}

proof fn lemma_lead_read_back(header: LdSbrHeader, rest: Seq<bool>, cursor: BitCursor)
    requires
        header_fits(header),
        stands_at(header_bits(header, rest), cursor),
    ensures
        parse_header_lead(cursor) == (
            Ok::<(bool, u8, u8, u8, u8, bool, bool), LdSbrError>(
                (
                    header.amp_resolution,
                    header.start_frequency,
                    header.stop_frequency,
                    header.crossover_band,
                    header.reserved,
                    header.frequency_scale is Some,
                    header.limiter_bands is Some,
                ),
            ),
            cursor.advance(16),
        ),
        stands_at(first_group_bits(header, second_group_bits(header, rest)), cursor.advance(16)),
{
    lemma2_to64();
    let groups = first_group_bits(header, second_group_bits(header, rest));
    let b6 = seq![header.limiter_bands is Some] + groups;
    let b5 = seq![header.frequency_scale is Some] + b6;
    let b4 = value_bits(header.reserved as nat, 2) + b5;
    let b3 = value_bits(header.crossover_band as nat, 3) + b4;
    let b2 = value_bits(header.stop_frequency as nat, 4) + b3;
    let b1 = value_bits(header.start_frequency as nat, 4) + b2;
    lemma_stands_bit(header.amp_resolution, b1, cursor);
    let c1 = cursor.advance(1);
    lemma_stands_field(header.start_frequency as nat, 4, b2, c1);
    let c2 = c1.advance(4);
    lemma_stands_field(header.stop_frequency as nat, 4, b3, c2);
    let c3 = c2.advance(4);
    lemma_stands_field(header.crossover_band as nat, 3, b4, c3);
    let c4 = c3.advance(3);
    lemma_stands_field(header.reserved as nat, 2, b5, c4);
    let c5 = c4.advance(2);
    lemma_stands_bit(header.frequency_scale is Some, b6, c5);
    let c6 = c5.advance(1);
    lemma_stands_bit(header.limiter_bands is Some, groups, c6);
}

proof fn lemma_first_group_read_back(header: LdSbrHeader, rest: Seq<bool>, cursor: BitCursor)
    requires
        header_fits(header),
        stands_at(first_group_bits(header, rest), cursor),
    ensures
        parse_header_first(header.frequency_scale is Some, cursor).0 == Ok::<
            (Option<u8>, Option<bool>, Option<u8>),
            LdSbrError,
        >((header.frequency_scale, header.alter_scale, header.noise_bands)),
        stands_at(rest, parse_header_first(header.frequency_scale is Some, cursor).1),
{
    reveal(parse_header_first);
    lemma2_to64();
    if header.frequency_scale is Some {
        let noise = value_bits(header.noise_bands->0 as nat, 2) + rest;
        lemma_stands_field(header.frequency_scale->0 as nat, 2, seq![header.alter_scale->0] + noise, cursor);
        lemma_stands_bit(header.alter_scale->0, noise, cursor.advance(2));
        lemma_stands_field(header.noise_bands->0 as nat, 2, rest, cursor.advance(2).advance(1));
    }
}

proof fn lemma_second_group_read_back(header: LdSbrHeader, rest: Seq<bool>, cursor: BitCursor)
    requires
        header_fits(header),
        stands_at(second_group_bits(header, rest), cursor),
    ensures
        parse_header_second(header.limiter_bands is Some, cursor).0 == Ok::<
            (Option<u8>, Option<u8>, Option<bool>, Option<bool>),
            LdSbrError,
        >((header.limiter_bands, header.limiter_gains, header.interpol_frequency, header.smoothing_mode)),
        stands_at(rest, parse_header_second(header.limiter_bands is Some, cursor).1),
{
    reveal(parse_header_second);
    lemma2_to64();
    if header.limiter_bands is Some {
        let smoothing = seq![header.smoothing_mode->0] + rest;
        let interpol = seq![header.interpol_frequency->0] + smoothing;
        let gains = value_bits(header.limiter_gains->0 as nat, 2) + interpol;
        lemma_stands_field(header.limiter_bands->0 as nat, 2, gains, cursor);
        lemma_stands_field(header.limiter_gains->0 as nat, 2, interpol, cursor.advance(2));
        lemma_stands_bit(header.interpol_frequency->0, smoothing, cursor.advance(2).advance(2));
        lemma_stands_bit(header.smoothing_mode->0, rest, cursor.advance(2).advance(2).advance(1));
    }
}

/// A header reads back field by field, with its groups of optional fields or without them.
pub proof fn lemma_header_read_back(header: LdSbrHeader, rest: Seq<bool>, cursor: BitCursor)
    requires
        header_fits(header),
        stands_at(header_bits(header, rest), cursor),
    ensures
        parse_header(cursor).0 == Ok::<LdSbrHeader, LdSbrError>(header),
        stands_at(rest, parse_header(cursor).1),
{
    reveal(parse_header);
    lemma_lead_read_back(header, rest, cursor);
    let c1 = cursor.advance(16);
    lemma_first_group_read_back(header, second_group_bits(header, rest), c1);
    let c2 = parse_header_first(header.frequency_scale is Some, c1).1;
    lemma_second_group_read_back(header, rest, c2);
}

// ---------------------------------------------------------------------------
// Grids
// ---------------------------------------------------------------------------

/// Whether bits are those of a grid, whatever follows them.
pub open spec fn writes_grid(bits: Seq<bool>, time_slots: u8, grid: GridFields) -> bool {
    forall|rest: Seq<bool>, cursor: BitCursor|
        #[trigger]
        stands_at(bits + rest, cursor) ==> parse_grid(time_slots, cursor) == (
            Ok::<GridFields, LdSbrError>(grid),
            cursor.advance(bits.len() as int),
        )
}

/// The grid of a frame with a transient.
pub open spec fn transient_grid(time_slots: u8, position: u8, resolution: Seq<bool>) -> GridFields {
    GridFields {
        transient: true,
        amp_resolution: None,
        borders: transient_borders(time_slots, position),
        frequency_resolution: resolution,
        transient_envelope: Some(transient_envelope(position)),
        noise_borders: seq![0u8, transient_borders(time_slots, position)[1], time_slots],
    }
}

/// A grid with a transient is a set flag, four bits of position and a flag of resolution for
/// each envelope.
pub proof fn lemma_transient_grid_read_back(time_slots: u8, position: u8, resolution: Seq<bool>)
    requires
        supported_slots(time_slots),
        position < time_slots,
        position < 16,
        resolution.len() == transient_borders(time_slots, position).len() - 1,
    ensures
        writes_grid(
            seq![true] + (value_bits(position as nat, 4) + resolution),
            time_slots,
            transient_grid(time_slots, position, resolution),
        ),
{
    lemma2_to64();
    let bits = seq![true] + (value_bits(position as nat, 4) + resolution);
    let grid = transient_grid(time_slots, position, resolution);
    assert forall|rest: Seq<bool>, cursor: BitCursor| #[trigger] stands_at(bits + rest, cursor) implies parse_grid(
        time_slots,
        cursor,
    ) == (Ok::<GridFields, LdSbrError>(grid), cursor.advance(bits.len() as int)) by {
        reveal(parse_grid);
        lemma_value_bits_len(position as nat, 4);
        assert(bits + rest =~= seq![true] + (value_bits(position as nat, 4) + (resolution + rest)));
        lemma_stands_bit(true, value_bits(position as nat, 4) + (resolution + rest), cursor);
        lemma_stands_field(position as nat, 4, resolution + rest, cursor.advance(1));
        lemma_stands_split(resolution, rest, cursor.advance(1).advance(4));
        assert(parse_transient_grid(time_slots, cursor.advance(1)).0 == Ok::<GridFields, LdSbrError>(grid));
    }
}

/// A grid of one envelope is a clear flag, two clear bits, the amplitude resolution and the
/// resolution; one of two or four envelopes has the exponent of their number in the two bits
/// and no amplitude resolution.
pub proof fn lemma_equal_grid_read_back(time_slots: u8, amp: bool, resolution: bool)
    requires
        supported_slots(time_slots),
    ensures
        writes_grid(
            seq![false, false, false, amp, resolution],
            time_slots,
            equal_grid(time_slots, 1, Some(amp), resolution),
        ),
        writes_grid(seq![false, false, true, resolution], time_slots, equal_grid(time_slots, 2, None, resolution)),
        writes_grid(seq![false, true, false, resolution], time_slots, equal_grid(time_slots, 4, None, resolution)),
{
    lemma2_to64();
    reveal(parse_grid);
    reveal_with_fuel(value_bits, 3);
    let none = Seq::<bool>::empty();
    assert(value_bits(0, 2) =~= seq![false, false]);
    assert(value_bits(1, 2) =~= seq![false, true]);
    assert(value_bits(2, 2) =~= seq![true, false]);
    let one = seq![false, false, false, amp, resolution];
    assert forall|rest: Seq<bool>, cursor: BitCursor| #[trigger] stands_at(one + rest, cursor) implies parse_grid(
        time_slots,
        cursor,
    ) == (Ok::<GridFields, LdSbrError>(equal_grid(time_slots, 1, Some(amp), resolution)), cursor.advance(5)) by {
        assert(one + rest =~= seq![false] + (value_bits(0, 2) + (seq![amp] + (seq![resolution] + rest))));
        lemma_stands_bit(false, value_bits(0, 2) + (seq![amp] + (seq![resolution] + rest)), cursor);
        lemma_stands_field(0, 2, seq![amp] + (seq![resolution] + rest), cursor.advance(1));
        lemma_stands_bit(amp, seq![resolution] + rest, cursor.advance(1).advance(2));
        lemma_stands_bit(resolution, rest, cursor.advance(1).advance(2).advance(1));
    }
    let two = seq![false, false, true, resolution];
    assert forall|rest: Seq<bool>, cursor: BitCursor| #[trigger] stands_at(two + rest, cursor) implies parse_grid(
        time_slots,
        cursor,
    ) == (Ok::<GridFields, LdSbrError>(equal_grid(time_slots, 2, None, resolution)), cursor.advance(4)) by {
        assert(two + rest =~= seq![false] + (value_bits(1, 2) + (seq![resolution] + rest)));
        lemma_stands_bit(false, value_bits(1, 2) + (seq![resolution] + rest), cursor);
        lemma_stands_field(1, 2, seq![resolution] + rest, cursor.advance(1));
        lemma_stands_bit(resolution, rest, cursor.advance(1).advance(2));
    }
    let four = seq![false, true, false, resolution];
    assert forall|rest: Seq<bool>, cursor: BitCursor| #[trigger] stands_at(four + rest, cursor) implies parse_grid(
        time_slots,
        cursor,
    ) == (Ok::<GridFields, LdSbrError>(equal_grid(time_slots, 4, None, resolution)), cursor.advance(4)) by {
        assert(four + rest =~= seq![false] + (value_bits(2, 2) + (seq![resolution] + rest)));
        lemma_stands_bit(false, value_bits(2, 2) + (seq![resolution] + rest), cursor);
        lemma_stands_field(2, 2, seq![resolution] + rest, cursor.advance(1));
        lemma_stands_bit(resolution, rest, cursor.advance(1).advance(2));
    }
}

// ---------------------------------------------------------------------------
// Prefixes
// ---------------------------------------------------------------------------

/// The bits of the directions of a control: those of its envelopes, then those of its noise.
pub open spec fn direction_bits(control: ControlFields, rest: Seq<bool>) -> Seq<bool> {
    control.envelope_time_domain + (control.noise_time_domain + rest)
}

/// Whether a control has a direction for each envelope and each noise envelope.
pub open spec fn directions_fit(control: ControlFields) -> bool {
    &&& control.envelope_time_domain.len() == control.grid.frequency_resolution.len()
    &&& control.noise_time_domain.len() == control.grid.noise_borders.len() - 1
}

proof fn lemma_control_read_back(control: ControlFields, rest: Seq<bool>, cursor: BitCursor)
    requires
        directions_fit(control),
        stands_at(direction_bits(control, rest), cursor),
    ensures
        parse_control(control.grid, cursor).0 == Ok::<ControlFields, LdSbrError>(control),
        stands_at(rest, parse_control(control.grid, cursor).1),
{
    reveal(parse_control);
    lemma_stands_split(control.envelope_time_domain, control.noise_time_domain + rest, cursor);
    let next = cursor.advance(control.envelope_time_domain.len() as int);
    lemma_stands_split(control.noise_time_domain, rest, next);
}

/// The bits of extra data: a flag, and four bits for each channel where it is set.
pub open spec fn extra_bits(extra: Option<(u8, Option<u8>)>, rest: Seq<bool>) -> Seq<bool> {
    match extra {
        None => seq![false] + rest,
        Some((left, None)) => seq![true] + (value_bits(left as nat, 4) + rest),
        Some((left, Some(right))) => seq![true] + (value_bits(left as nat, 4) + (value_bits(right as nat, 4) + rest)),
    }
}

/// Whether extra data fits its bits and has a part for each channel.
pub open spec fn extra_fits(extra: Option<(u8, Option<u8>)>, stereo: bool) -> bool {
    extra matches Some((left, right)) ==> left < 16 && (right is Some) == stereo && (right matches Some(value) ==> value < 16)
}

proof fn lemma_extra_read_back(extra: Option<(u8, Option<u8>)>, stereo: bool, rest: Seq<bool>, cursor: BitCursor)
    requires
        extra_fits(extra, stereo),
        stands_at(extra_bits(extra, rest), cursor),
    ensures
        parse_data_extra(stereo, cursor).0 == Ok::<Option<(u8, Option<u8>)>, LdSbrError>(extra),
        stands_at(rest, parse_data_extra(stereo, cursor).1),
{
    reveal(parse_data_extra);
    lemma2_to64();
    match extra {
        None => {
            lemma_stands_bit(false, rest, cursor);
        },
        Some((left, None)) => {
            lemma_stands_bit(true, value_bits(left as nat, 4) + rest, cursor);
            lemma_stands_field(left as nat, 4, rest, cursor.advance(1));
        },
        Some((left, Some(right))) => {
            let second = value_bits(right as nat, 4) + rest;
            lemma_stands_bit(true, value_bits(left as nat, 4) + second, cursor);
            lemma_stands_field(left as nat, 4, second, cursor.advance(1));
            lemma_stands_field(right as nat, 4, rest, cursor.advance(1).advance(4));
        },
    }
}

/// The prefix of a single channel is extra data, a grid and its directions.
pub proof fn lemma_mono_prefix_read_back(
    time_slots: u8,
    extra: Option<(u8, Option<u8>)>,
    grid_bits: Seq<bool>,
    control: ControlFields,
    rest: Seq<bool>,
    cursor: BitCursor,
)
    requires
        extra_fits(extra, false),
        writes_grid(grid_bits, time_slots, control.grid),
        directions_fit(control),
        stands_at(extra_bits(extra, grid_bits + direction_bits(control, rest)), cursor),
    ensures
        parse_prefix(time_slots, false, cursor).0 matches Ok(prefix) && prefix.data_extra == extra && !prefix.coupling
            && prefix.left == control && prefix.right is None,
        stands_at(rest, parse_prefix(time_slots, false, cursor).1),
{
    reveal(parse_prefix);
    let directions = direction_bits(control, rest);
    lemma_extra_read_back(extra, false, grid_bits + directions, cursor);
    let c1 = parse_data_extra(false, cursor).1;
    lemma_stands_split(grid_bits, directions, c1);
    lemma_control_read_back(control, rest, c1.advance(grid_bits.len() as int));
}

/// The prefix of a channel pair is extra data, the coupling flag, the grids, and the directions
/// of the left channel before those of the right one. Coupled channels share the first grid;
/// others have the left one's before the right one's.
pub proof fn lemma_pair_prefix_read_back(
    time_slots: u8,
    extra: Option<(u8, Option<u8>)>,
    coupling: bool,
    left_bits: Seq<bool>,
    right_bits: Seq<bool>,
    left: ControlFields,
    right: ControlFields,
    rest: Seq<bool>,
    cursor: BitCursor,
)
    requires
        extra_fits(extra, true),
        writes_grid(left_bits, time_slots, left.grid),
        coupling ==> right.grid == left.grid && right_bits.len() == 0,
        !coupling ==> writes_grid(right_bits, time_slots, right.grid),
        directions_fit(left),
        directions_fit(right),
        stands_at(
            extra_bits(
                extra,
                seq![coupling] + (left_bits + (right_bits + direction_bits(left, direction_bits(right, rest)))),
            ),
            cursor,
        ),
    ensures
        parse_prefix(time_slots, true, cursor).0 matches Ok(prefix) && prefix.data_extra == extra && prefix.coupling
            == coupling && prefix.left == left && prefix.right == Some(right),
        stands_at(rest, parse_prefix(time_slots, true, cursor).1),
{
    reveal(parse_prefix);
    let second = direction_bits(right, rest);
    let first = direction_bits(left, second);
    let grids = left_bits + (right_bits + first);
    lemma_extra_read_back(extra, true, seq![coupling] + grids, cursor);
    let c1 = parse_data_extra(true, cursor).1;
    lemma_stands_bit(coupling, grids, c1);
    let c2 = c1.advance(1);
    lemma_stands_split(left_bits, right_bits + first, c2);
    let c3 = c2.advance(left_bits.len() as int);
    lemma_stands_split(right_bits, first, c3);
    let c4 = c3.advance(right_bits.len() as int);
    if coupling {
        assert(c4 == c3);
    }
    lemma_control_read_back(left, second, c4);
    let c5 = parse_control(left.grid, c4).1;
    lemma_control_read_back(right, rest, c5);
}

// ---------------------------------------------------------------------------
// Extended data
// ---------------------------------------------------------------------------

/// Bytes of eight bits each, one behind another, and more behind them.
pub open spec fn byte_fields(bytes: Seq<u8>, rest: Seq<bool>) -> Seq<bool>
    decreases bytes.len(),
{
    if bytes.len() == 0 {
        rest
    } else {
        value_bits(bytes[0] as nat, 8) + byte_fields(bytes.skip(1), rest)
    }
}

proof fn lemma_byte_fields_read_back(before: Seq<u8>, bytes: Seq<u8>, rest: Seq<bool>, cursor: BitCursor)
    requires
        stands_at(byte_fields(bytes, rest), cursor),
    ensures
        cursor.read_fields(8, (before.len() + bytes.len()) as int, before).0 == Ok::<Seq<u8>, BitError>(before + bytes),
        stands_at(rest, cursor.read_fields(8, (before.len() + bytes.len()) as int, before).1),
        cursor.remaining() >= 8 * bytes.len(),
    decreases bytes.len(),
{
    if bytes.len() == 0 {
        assert(before + bytes =~= before);
    } else {
        lemma2_to64();
        let behind = bytes.skip(1);
        lemma_stands_field(bytes[0] as nat, 8, byte_fields(behind, rest), cursor);
        let longer = before.push(bytes[0]);
        lemma_byte_fields_read_back(longer, behind, rest, cursor.advance(8));
        assert(longer + behind =~= before + bytes);
        assert(longer.len() + behind.len() == before.len() + bytes.len());
    }
}

/// The bits of the size of extended data, and more behind them: four bits below fifteen, and
/// else fifteen and eight bits of what is above it.
pub open spec fn size_bits(size: nat, rest: Seq<bool>) -> Seq<bool> {
    if size < 15 {
        value_bits(size, 4) + rest
    } else {
        value_bits(15, 4) + (value_bits((size - 15) as nat, 8) + rest)
    }
}

/// Extended data reads back: a set flag, its size and its bytes in order. Behind a clear flag,
/// or at the end of the input, there is none.
pub proof fn lemma_extended_read_back(bytes: Seq<u8>, rest: Seq<bool>, cursor: BitCursor)
    requires
        bytes.len() < 271,
        0 <= cursor.pos,
    ensures
        stands_at(seq![true] + size_bits(bytes.len(), byte_fields(bytes, rest)), cursor) ==> parse_extended(cursor).0 == Ok::<
            Seq<u8>,
            LdSbrError,
        >(bytes) && stands_at(rest, parse_extended(cursor).1),
        stands_at(seq![false] + rest, cursor) ==> parse_extended(cursor) == (
            Ok::<Seq<u8>, LdSbrError>(Seq::empty()),
            cursor.advance(1),
        ),
        cursor.pos == cursor.bits.len() ==> parse_extended(cursor) == (Ok::<Seq<u8>, LdSbrError>(Seq::empty()), cursor),
{
    reveal(parse_extended);
    lemma2_to64();
    let fields = byte_fields(bytes, rest);
    let size = bytes.len();
    if stands_at(seq![true] + size_bits(size, fields), cursor) {
        lemma_stands_bit(true, size_bits(size, fields), cursor);
        let c1 = cursor.advance(1);
        if size < 15 {
            lemma_stands_field(size, 4, fields, c1);
        } else {
            let more = value_bits((size - 15) as nat, 8) + fields;
            lemma_stands_field(15, 4, more, c1);
            lemma_stands_field((size - 15) as nat, 8, fields, c1.advance(4));
        }
        let c2 = parse_extended_size(c1).1;
        assert(parse_extended_size(c1).0 == Ok::<int, LdSbrError>(size as int));
        lemma_byte_fields_read_back(Seq::empty(), bytes, rest, c2);
        assert(Seq::<u8>::empty() + bytes =~= bytes);
    }
    if stands_at(seq![false] + rest, cursor) {
        lemma_stands_bit(false, rest, cursor);
    }
}

/// What follows the values of a frame reads back: the harmonics of the left channel, those of
/// the right one in a pair, and the extended data.
pub proof fn lemma_trailer_read_back(
    left: Seq<bool>,
    right: Option<Seq<bool>>,
    bytes: Seq<u8>,
    rest: Seq<bool>,
    cursor: BitCursor,
)
    requires
        right matches Some(flags) ==> flags.len() == left.len(),
        bytes.len() < 271,
        ({
            let extended = seq![true] + size_bits(bytes.len(), byte_fields(bytes, rest));
            let behind = match right {
                Some(flags) => seq![true] + (flags + extended),
                None => extended,
            };
            stands_at(seq![true] + (left + behind), cursor)
        }),
    ensures
        parse_trailer(right is Some, left.len() as int, cursor).0 == Ok::<
            (Seq<bool>, Option<Seq<bool>>, Seq<u8>),
            LdSbrError,
        >((left, right, bytes)),
        stands_at(rest, parse_trailer(right is Some, left.len() as int, cursor).1),
{
    reveal(parse_trailer);
    let extended = seq![true] + size_bits(bytes.len(), byte_fields(bytes, rest));
    let behind = match right {
        Some(flags) => seq![true] + (flags + extended),
        None => extended,
    };
    lemma_harmonics_read_back(left, behind, cursor);
    let c1 = parse_harmonics(left.len() as int, cursor).1;
    match right {
        Some(flags) => {
            lemma_harmonics_read_back(flags, extended, c1);
            lemma_extended_read_back(bytes, rest, parse_harmonics(left.len() as int, c1).1);
        },
        None => {
            lemma_extended_read_back(bytes, rest, c1);
        },
    }
}

/// A frame uses the header that stands in it behind a set flag, and the last one behind a
/// clear flag.
pub proof fn lemma_active_header_read_back(last: LdSbrHeader, header: LdSbrHeader, rest: Seq<bool>, cursor: BitCursor)
    requires
        header_fits(header),
    ensures
        stands_at(seq![true] + header_bits(header, rest), cursor) ==> parse_active_header(last, cursor).0 == Ok::<
            (bool, LdSbrHeader),
            LdSbrError,
        >((true, header)) && stands_at(rest, parse_active_header(last, cursor).1),
        stands_at(seq![false] + rest, cursor) ==> parse_active_header(last, cursor).0 == Ok::<(bool, LdSbrHeader), LdSbrError>(
            (false, last),
        ) && stands_at(rest, parse_active_header(last, cursor).1),
{
    if stands_at(seq![true] + header_bits(header, rest), cursor) {
        lemma_stands_bit(true, header_bits(header, rest), cursor);
        lemma_header_read_back(header, rest, cursor.advance(1));
    }
    if stands_at(seq![false] + rest, cursor) {
        lemma_stands_bit(false, rest, cursor);
    }
}

} // verus!

//! Envelopes that are sent with their temporal shaping read back.

use vstd::arithmetic::power2::lemma2_to64;
use vstd::prelude::*;

use crate::bits::{lemma_stands_bit, lemma_stands_field, stands_at, value_bits, BitCursor};
use crate::usac_sbr::InterTesEnvelope;

use super::error::LdSbrError;
use super::frequency::FrequencyBorders;
use super::grid::{ControlFields, PrefixFields};
use super::value_laws::{
    all_coded, channel_sendable, channel_values, envelope_counts, envelope_kind, lemma_all_modes_read, lemma_noise_read_back,
    lemma_row_read_back, modes_bits, noise_bits, row_bits, row_values, rows_sendable, rows_values, steps_coarse, RowKind,
    SentChannel, SentRow,
};
use super::values::{
    envelope_book, envelope_start_bits, parse_mono, parse_pair, parse_pair_rows, read_all_envelopes, read_envelope_rows,
    read_modes, read_noise_rows, read_row, read_shaping, value_scale, ChannelFields,
};

verus! {

/// The bits of the shaping of an envelope, and more behind them: a flag, and the mode in two
/// bits where it is active.
pub open spec fn shape_bits(shape: InterTesEnvelope, rest: Seq<bool>) -> Seq<bool> {
    if shape.active {
        seq![true] + (value_bits(shape.mode as nat, 2) + rest)
    } else {
        seq![false] + rest
    }
}

/// Whether shapings can be sent: modes of two bits, and none where a shaping is not active.
pub open spec fn shapes_sendable(shapes: Seq<InterTesEnvelope>) -> bool {
    forall|i: int|
        0 <= i < shapes.len() ==> (#[trigger] shapes[i]).mode < 4 && (!shapes[i].active ==> shapes[i].mode == 0)
}

/// The bits of rows from one on, each with its shaping behind it, and more behind them.
pub open spec fn shaped_bits(
    kind: RowKind,
    directions: Seq<bool>,
    rows: Seq<SentRow>,
    shapes: Seq<InterTesEnvelope>,
    index: int,
    rest: Seq<bool>,
) -> Seq<bool>
    decreases rows.len() - index,
{
    if index < 0 || index >= rows.len() {
        rest
    } else {
        row_bits(directions[index], kind.width, kind.book(directions[index]), rows[index]) + shape_bits(
            shapes[index],
            shaped_bits(kind, directions, rows, shapes, index + 1, rest),
        )
    }
}

proof fn lemma_shape_read_back(shape: InterTesEnvelope, rest: Seq<bool>, cursor: BitCursor)
    requires
        shape.mode < 4,
        !shape.active ==> shape.mode == 0,
        stands_at(shape_bits(shape, rest), cursor),
    ensures
        read_shaping(true, cursor).0 == Ok::<InterTesEnvelope, LdSbrError>(shape),
        stands_at(rest, read_shaping(true, cursor).1),
{
    lemma2_to64();
    if shape.active {
        lemma_stands_bit(true, value_bits(shape.mode as nat, 2) + rest, cursor);
        lemma_stands_field(shape.mode as nat, 2, rest, cursor.advance(1));
    } else {
        lemma_stands_bit(false, rest, cursor);
    }
}

proof fn lemma_shaped_row(
    control: ControlFields,
    tables: FrequencyBorders,
    coarse: bool,
    balance: bool,
    rows: Seq<SentRow>,
    index: int,
    rest: Seq<bool>,
    cursor: BitCursor,
)
    requires
        rows_sendable(
            envelope_kind(balance, coarse),
            control.envelope_time_domain,
            rows,
            envelope_counts(control, tables),
        ),
        0 <= index < rows.len(),
        ({
            let kind = envelope_kind(balance, coarse);
            let time_domain = control.envelope_time_domain[index];
            stands_at(row_bits(time_domain, kind.width, kind.book(time_domain), rows[index]) + rest, cursor)
        }),
    ensures
        ({
            let time_domain = control.envelope_time_domain[index];
            let (row, next) = read_row(
                time_domain,
                envelope_start_bits(balance, coarse),
                envelope_book(balance, coarse, time_domain),
                envelope_counts(control, tables)[index],
                value_scale(balance),
                cursor,
            );
            &&& row == Ok::<Seq<i16>, LdSbrError>(row_values(time_domain, balance, rows[index]))
            &&& stands_at(rest, next)
        }),
{
    let kind = envelope_kind(balance, coarse);
    let time_domain = control.envelope_time_domain[index];
    let book = kind.book(time_domain);
    assert(all_coded(book, rows[index].differences));
    assert(row_values(time_domain, false, rows[index]).len() == envelope_counts(control, tables)[index]);
    lemma_row_read_back(time_domain, kind.width, book, balance, rows[index], rest, cursor);
}

/// Envelopes with their shaping read back: each row with the shaping that stands behind it.
pub proof fn lemma_shaped_envelopes_read_back(
    control: ControlFields,
    tables: FrequencyBorders,
    coarse: bool,
    balance: bool,
    rows: Seq<SentRow>,
    shapes: Seq<InterTesEnvelope>,
    index: int,
    rest: Seq<bool>,
    cursor: BitCursor,
)
    requires
        rows_sendable(
            envelope_kind(balance, coarse),
            control.envelope_time_domain,
            rows,
            envelope_counts(control, tables),
        ),
        shapes.len() == rows.len(),
        shapes_sendable(shapes),
        0 <= index <= rows.len(),
        stands_at(
            shaped_bits(envelope_kind(balance, coarse), control.envelope_time_domain, rows, shapes, index, rest),
            cursor,
        ),
    ensures
        ({
            let values = rows_values(control.envelope_time_domain, balance, rows);
            let (result, next) = read_envelope_rows(
                control,
                tables,
                coarse,
                balance,
                true,
                values.take(index),
                shapes.take(index),
                cursor,
            );
            &&& result == Ok::<(Seq<Seq<i16>>, Seq<InterTesEnvelope>), LdSbrError>((values, shapes))
            &&& stands_at(rest, next)
        }),
    decreases rows.len() - index,
{
    let kind = envelope_kind(balance, coarse);
    let directions = control.envelope_time_domain;
    let values = rows_values(directions, balance, rows);
    if index < rows.len() {
        let behind = shaped_bits(kind, directions, rows, shapes, index + 1, rest);
        lemma_shaped_row(control, tables, coarse, balance, rows, index, shape_bits(shapes[index], behind), cursor);
        let next = read_row(
            directions[index],
            envelope_start_bits(balance, coarse),
            envelope_book(balance, coarse, directions[index]),
            envelope_counts(control, tables)[index],
            value_scale(balance),
            cursor,
        ).1;
        assert(shapes[index].mode < 4);
        lemma_shape_read_back(shapes[index], behind, next);
        let last = read_shaping(true, next).1;
        assert(values.take(index).push(values[index]) =~= values.take(index + 1));
        assert(shapes.take(index).push(shapes[index]) =~= shapes.take(index + 1));
        lemma_shaped_envelopes_read_back(control, tables, coarse, balance, rows, shapes, index + 1, rest, last);
    } else {
        assert(values.take(index) =~= values);
        assert(shapes.take(index) =~= shapes);
    }
}

/// The envelopes of a channel with their shaping in the stream, and more behind them.
pub open spec fn shaped_envelopes_bits(
    control: ControlFields,
    default_amp_resolution: bool,
    balance: bool,
    rows: Seq<SentRow>,
    shapes: Seq<InterTesEnvelope>,
    rest: Seq<bool>,
) -> Seq<bool> {
    shaped_bits(
        envelope_kind(balance, steps_coarse(control, default_amp_resolution)),
        control.envelope_time_domain,
        rows,
        shapes,
        0,
        rest,
    )
}

/// Whether a channel and the shaping of its envelopes can be sent.
pub open spec fn shaped_sendable(
    channel: SentChannel,
    shapes: Seq<InterTesEnvelope>,
    control: ControlFields,
    tables: FrequencyBorders,
    default_amp_resolution: bool,
    balance: bool,
) -> bool {
    &&& channel_sendable(channel, control, tables, default_amp_resolution, balance)
    &&& shapes.len() == channel.envelopes.len()
    &&& shapes_sendable(shapes)
}

proof fn lemma_all_shaped_read(
    channel: SentChannel,
    shapes: Seq<InterTesEnvelope>,
    control: ControlFields,
    tables: FrequencyBorders,
    default_amp_resolution: bool,
    balance: bool,
    rest: Seq<bool>,
    cursor: BitCursor,
)
    requires
        shaped_sendable(channel, shapes, control, tables, default_amp_resolution, balance),
        stands_at(
            shaped_envelopes_bits(control, default_amp_resolution, balance, channel.envelopes, shapes, rest),
            cursor,
        ),
    ensures
        ({
            let (result, next) = read_all_envelopes(control, tables, default_amp_resolution, balance, true, cursor);
            &&& result == Ok::<(Seq<Seq<i16>>, Seq<InterTesEnvelope>), LdSbrError>(
                (rows_values(control.envelope_time_domain, balance, channel.envelopes), shapes),
            )
            &&& stands_at(rest, next)
        }),
{
    reveal(read_all_envelopes);
    let values = rows_values(control.envelope_time_domain, balance, channel.envelopes);
    assert(values.take(0) =~= Seq::<Seq<i16>>::empty());
    assert(shapes.take(0) =~= Seq::<InterTesEnvelope>::empty());
    lemma_shaped_envelopes_read_back(
        control,
        tables,
        steps_coarse(control, default_amp_resolution),
        balance,
        channel.envelopes,
        shapes,
        0,
        rest,
        cursor,
    );
}

/// A single channel with shaping is read back as it was sent.
pub proof fn lemma_shaped_channel_read_back(
    channel: SentChannel,
    shapes: Seq<InterTesEnvelope>,
    control: ControlFields,
    tables: FrequencyBorders,
    default_amp_resolution: bool,
    rest: Seq<bool>,
    cursor: BitCursor,
)
    requires
        shaped_sendable(channel, shapes, control, tables, default_amp_resolution, false),
        stands_at(
            modes_bits(channel.modes) + shaped_envelopes_bits(
                control,
                default_amp_resolution,
                false,
                channel.envelopes,
                shapes,
                noise_bits(control, false, channel.noise) + rest,
            ),
            cursor,
        ),
    ensures
        ({
            let (result, next) = parse_mono(control, tables, default_amp_resolution, true, cursor);
            &&& result == Ok::<(ChannelFields, Seq<InterTesEnvelope>), LdSbrError>(
                (channel_values(channel, control, false), shapes),
            )
            &&& stands_at(rest, next)
        }),
{
    reveal(parse_mono);
    let noise = noise_bits(control, false, channel.noise) + rest;
    let envelopes = shaped_envelopes_bits(control, default_amp_resolution, false, channel.envelopes, shapes, noise);
    lemma_all_modes_read(tables, channel.modes, envelopes, cursor);
    let c1 = read_modes(tables, cursor).1;
    lemma_all_shaped_read(channel, shapes, control, tables, default_amp_resolution, false, noise, c1);
    let c2 = read_all_envelopes(control, tables, default_amp_resolution, false, true, c1).1;
    lemma_noise_read_back(control, tables, false, channel.noise, rest, c2);
}

/// The rows of a pair with shaping in the stream, in the order of a pair without it.
pub open spec fn shaped_pair_bits(
    left: SentChannel,
    right: SentChannel,
    left_shapes: Seq<InterTesEnvelope>,
    right_shapes: Seq<InterTesEnvelope>,
    left_control: ControlFields,
    right_control: ControlFields,
    coupling: bool,
    default_amp_resolution: bool,
    rest: Seq<bool>,
) -> Seq<bool> {
    let last = noise_bits(right_control, coupling, right.noise) + rest;
    let left_noise = noise_bits(left_control, false, left.noise);
    if coupling {
        let second = shaped_envelopes_bits(
            right_control,
            default_amp_resolution,
            true,
            right.envelopes,
            right_shapes,
            last,
        );
        shaped_envelopes_bits(
            left_control,
            default_amp_resolution,
            false,
            left.envelopes,
            left_shapes,
            left_noise + second,
        )
    } else {
        let second = shaped_envelopes_bits(
            right_control,
            default_amp_resolution,
            false,
            right.envelopes,
            right_shapes,
            left_noise + last,
        );
        shaped_envelopes_bits(left_control, default_amp_resolution, false, left.envelopes, left_shapes, second)
    }
}

proof fn lemma_shaped_pair_rows(
    left: SentChannel,
    right: SentChannel,
    left_shapes: Seq<InterTesEnvelope>,
    right_shapes: Seq<InterTesEnvelope>,
    left_control: ControlFields,
    right_control: ControlFields,
    coupling: bool,
    tables: FrequencyBorders,
    default_amp_resolution: bool,
    rest: Seq<bool>,
    cursor: BitCursor,
)
    requires
        shaped_sendable(left, left_shapes, left_control, tables, default_amp_resolution, false),
        shaped_sendable(right, right_shapes, right_control, tables, default_amp_resolution, coupling),
        stands_at(
            shaped_pair_bits(
                left,
                right,
                left_shapes,
                right_shapes,
                left_control,
                right_control,
                coupling,
                default_amp_resolution,
                rest,
            ),
            cursor,
        ),
    ensures
        ({
            let (result, next) = parse_pair_rows(
                left_control,
                right_control,
                coupling,
                tables,
                default_amp_resolution,
                true,
                cursor,
            );
            &&& result matches Ok(all)
            &&& all.0 == (rows_values(left_control.envelope_time_domain, false, left.envelopes), left_shapes)
            &&& all.1 == rows_values(left_control.noise_time_domain, false, left.noise)
            &&& all.2 == (rows_values(right_control.envelope_time_domain, coupling, right.envelopes), right_shapes)
            &&& all.3 == rows_values(right_control.noise_time_domain, coupling, right.noise)
            &&& stands_at(rest, next)
        }),
{
    reveal(parse_pair_rows);
    let amp = default_amp_resolution;
    let last = noise_bits(right_control, coupling, right.noise) + rest;
    let left_noise = noise_bits(left_control, false, left.noise);
    let c1 = read_all_envelopes(left_control, tables, amp, false, true, cursor).1;
    if coupling {
        let second = shaped_envelopes_bits(right_control, amp, true, right.envelopes, right_shapes, last);
        lemma_all_shaped_read(left, left_shapes, left_control, tables, amp, false, left_noise + second, cursor);
        lemma_noise_read_back(left_control, tables, false, left.noise, second, c1);
        let c2 = read_noise_rows(left_control, tables, false, Seq::empty(), c1).1;
        lemma_all_shaped_read(right, right_shapes, right_control, tables, amp, true, last, c2);
        let c3 = read_all_envelopes(right_control, tables, amp, true, true, c2).1;
        lemma_noise_read_back(right_control, tables, true, right.noise, rest, c3);
    } else {
        let second = shaped_envelopes_bits(right_control, amp, false, right.envelopes, right_shapes, left_noise + last);
        lemma_all_shaped_read(left, left_shapes, left_control, tables, amp, false, second, cursor);
        lemma_all_shaped_read(right, right_shapes, right_control, tables, amp, false, left_noise + last, c1);
        let c2 = read_all_envelopes(right_control, tables, amp, false, true, c1).1;
        lemma_noise_read_back(left_control, tables, false, left.noise, last, c2);
        let c3 = read_noise_rows(left_control, tables, false, Seq::empty(), c2).1;
        lemma_noise_read_back(right_control, tables, false, right.noise, rest, c3);
    }
}

/// A pair of channels with shaping is read back as it was sent: each channel has the shaping of
/// its own envelopes.
pub proof fn lemma_shaped_pair_read_back(
    left: SentChannel,
    right: SentChannel,
    left_shapes: Seq<InterTesEnvelope>,
    right_shapes: Seq<InterTesEnvelope>,
    prefix: PrefixFields,
    tables: FrequencyBorders,
    default_amp_resolution: bool,
    rest: Seq<bool>,
    cursor: BitCursor,
)
    requires
        prefix.right is Some,
        shaped_sendable(left, left_shapes, prefix.left, tables, default_amp_resolution, false),
        shaped_sendable(right, right_shapes, prefix.right->0, tables, default_amp_resolution, prefix.coupling),
        ({
            let rows = shaped_pair_bits(
                left,
                right,
                left_shapes,
                right_shapes,
                prefix.left,
                prefix.right->0,
                prefix.coupling,
                default_amp_resolution,
                rest,
            );
            stands_at(
                modes_bits(left.modes) + if prefix.coupling {
                    rows
                } else {
                    modes_bits(right.modes) + rows
                },
                cursor,
            )
        }),
    ensures
        ({
            let (result, next) = parse_pair(prefix, tables, default_amp_resolution, true, cursor);
            let second = channel_values(right, prefix.right->0, prefix.coupling);
            &&& result matches Ok((first_read, second_read))
            &&& first_read == (channel_values(left, prefix.left, false), left_shapes)
            &&& second_read.1 == right_shapes
            &&& second_read.0 == if prefix.coupling {
                ChannelFields { inverse_filtering_modes: left.modes, ..second }
            } else {
                second
            }
            &&& stands_at(rest, next)
        }),
{
    reveal(parse_pair);
    let right_control = prefix.right->0;
    let coupling = prefix.coupling;
    let rows = shaped_pair_bits(
        left,
        right,
        left_shapes,
        right_shapes,
        prefix.left,
        right_control,
        coupling,
        default_amp_resolution,
        rest,
    );
    let c1 = read_modes(tables, cursor).1;
    let c2 = if coupling {
        lemma_all_modes_read(tables, left.modes, rows, cursor);
        c1
    } else {
        lemma_all_modes_read(tables, left.modes, modes_bits(right.modes) + rows, cursor);
        lemma_all_modes_read(tables, right.modes, rows, c1);
        read_modes(tables, c1).1
    };
    lemma_shaped_pair_rows(
        left,
        right,
        left_shapes,
        right_shapes,
        prefix.left,
        right_control,
        coupling,
        tables,
        default_amp_resolution,
        rest,
        c2,
    );
}

} // verus!

//! What is read of rows that were sent: the values come back, in order, with the
//! codebooks and widths of their kind.

use vstd::arithmetic::power2::{lemma2_to64, pow2};
use vstd::prelude::*;

use crate::bits::{
    lemma_stands_bit, lemma_stands_field, lemma_stands_split, lemma_value_bits_len, stands_at, value_bits, BitCursor,
    BitError,
};
use crate::usac_sbr::InterTesEnvelope;

use super::error::LdSbrError;
use super::frame::parse_harmonics;
use super::frequency::FrequencyBorders;
use super::grid::{ControlFields, PrefixFields};
use super::tree::{difference_code, lemma_difference_decodes, SbrHuffmanBook};
use super::values::{
    envelope_book, envelope_start_bits, parse_mono, parse_pair, parse_pair_rows, read_all_envelopes, read_differences,
    read_envelope_rows, read_modes, read_noise_rows, read_row, value_scale, ChannelFields,
};

verus! {

/// A row as it is sent: along frequency an absolute value comes first.
pub struct SentRow {
    pub first: nat,
    pub differences: Seq<i8>,
}

/// The codewords of differences.
pub open spec fn codes(book: SbrHuffmanBook, differences: Seq<i8>) -> Seq<bool>
    decreases differences.len(),
{
    if differences.len() == 0 {
        Seq::empty()
    } else {
        difference_code(book, differences[0])->0 + codes(book, differences.skip(1))
    }
}

/// Whether all differences have codewords.
pub open spec fn all_coded(book: SbrHuffmanBook, differences: Seq<i8>) -> bool {
    forall|i: int| 0 <= i < differences.len() ==> difference_code(book, #[trigger] differences[i]) is Some
}

/// The bits of a row.
pub open spec fn row_bits(time_domain: bool, width: nat, book: SbrHuffmanBook, row: SentRow) -> Seq<bool> {
    if time_domain {
        codes(book, row.differences)
    } else {
        value_bits(row.first, width) + codes(book, row.differences)
    }
}

/// The values of a row: balances count in steps of two.
pub open spec fn row_values(time_domain: bool, balance: bool, row: SentRow) -> Seq<i16> {
    let scale = if balance {
        2int
    } else {
        1
    };
    if time_domain {
        Seq::new(row.differences.len(), |i: int| (row.differences[i] * scale) as i16)
    } else {
        Seq::new(
            row.differences.len() + 1,
            |i: int|
                if i == 0 {
                    (row.first * scale) as i16
                } else {
                    (row.differences[i - 1] * scale) as i16
                },
        )
    }
}

proof fn lemma_codes_read(
    book: SbrHuffmanBook,
    differences: Seq<i8>,
    scale: int,
    before: Seq<i16>,
    rest: Seq<bool>,
    cursor: BitCursor,
)
    requires
        all_coded(book, differences),
        stands_at(codes(book, differences) + rest, cursor),
    ensures
        ({
            let behind = cursor.advance(codes(book, differences).len() as int);
            &&& read_differences(book, (before.len() + differences.len()) as int, scale, before, cursor) == (
                Ok::<Seq<i16>, LdSbrError>(
                    before + Seq::new(differences.len(), |i: int| (differences[i] * scale) as i16),
                ),
                behind,
            )
            &&& stands_at(rest, behind)
        }),
    decreases differences.len(),
{
    let values = Seq::new(differences.len(), |i: int| (differences[i] * scale) as i16);
    if differences.len() == 0 {
        assert(codes(book, differences) + rest =~= rest);
        assert(before + values =~= before);
        assert(cursor.advance(0) == cursor);
    } else {
        let code = difference_code(book, differences[0])->0;
        let tail = differences.skip(1);
        assert(difference_code(book, differences[0]) is Some);
        assert forall|i: int| 0 <= i < tail.len() implies difference_code(book, #[trigger] tail[i]) is Some by {
            assert(difference_code(book, differences[i + 1]) is Some);
        }
        assert(codes(book, differences) + rest =~= code + (codes(book, tail) + rest));
        lemma_stands_split(code, codes(book, tail) + rest, cursor);
        lemma_difference_decodes(book, differences[0], cursor);
        let next = cursor.advance(code.len() as int);
        let longer = before.push((differences[0] * scale) as i16);
        lemma_codes_read(book, tail, scale, longer, rest, next);
        assert(longer + Seq::new(tail.len(), |i: int| (tail[i] * scale) as i16) =~= before + values);
        assert(next.advance(codes(book, tail).len() as int) == cursor.advance(codes(book, differences).len() as int));
    }
}

/// A row is read back as it was sent.
pub proof fn lemma_row_read_back(
    time_domain: bool,
    width: nat,
    book: SbrHuffmanBook,
    balance: bool,
    row: SentRow,
    rest: Seq<bool>,
    cursor: BitCursor,
)
    requires
        all_coded(book, row.differences),
        row.first < pow2(width),
        stands_at(row_bits(time_domain, width, book, row) + rest, cursor),
    ensures
        ({
            let values = row_values(time_domain, balance, row);
            let scale = if balance {
                2int
            } else {
                1
            };
            let behind = cursor.advance(row_bits(time_domain, width, book, row).len() as int);
            &&& read_row(time_domain, width as int, book, values.len() as int, scale, cursor) == (
                Ok::<Seq<i16>, LdSbrError>(values),
                behind,
            )
            &&& stands_at(rest, behind)
        }),
{
    let values = row_values(time_domain, balance, row);
    let scale = if balance {
        2int
    } else {
        1
    };
    let none = Seq::<i16>::empty();
    let behind = cursor.advance(row_bits(time_domain, width, book, row).len() as int);
    if time_domain {
        lemma_codes_read(book, row.differences, scale, none, rest, cursor);
        assert(none + Seq::new(row.differences.len(), |i: int| (row.differences[i] * scale) as i16) =~= values);
    } else {
        let tail = codes(book, row.differences);
        assert(row_bits(time_domain, width, book, row) + rest =~= value_bits(row.first, width) + (tail + rest));
        lemma_value_bits_len(row.first, width);
        lemma_stands_field(row.first, width, tail + rest, cursor);
        let next = cursor.advance(width as int);
        let first = seq![(row.first * scale) as i16];
        lemma_codes_read(book, row.differences, scale, first, rest, next);
        assert(first + Seq::new(row.differences.len(), |i: int| (row.differences[i] * scale) as i16) =~= values);
        assert(next.advance(tail.len() as int) == behind);
    }
}

/// How the rows of a kind are sent: the bits of an absolute value, and the codebooks of
/// differences along time and along frequency.
pub struct RowKind {
    pub width: nat,
    pub time: SbrHuffmanBook,
    pub frequency: SbrHuffmanBook,
}

/// The kinds of envelope rows: levels take seven bits in steps of one and a half
/// decibels, and six in steps of three; balances take one bit less.
pub open spec fn envelope_kind(balance: bool, coarse: bool) -> RowKind {
    match (balance, coarse) {
        (false, false) => RowKind {
            width: 7,
            time: SbrHuffmanBook::EnvelopeLevel15Time,
            frequency: SbrHuffmanBook::EnvelopeLevel15Frequency,
        },
        (false, true) => RowKind {
            width: 6,
            time: SbrHuffmanBook::EnvelopeLevel30Time,
            frequency: SbrHuffmanBook::EnvelopeLevel30Frequency,
        },
        (true, false) => RowKind {
            width: 6,
            time: SbrHuffmanBook::EnvelopeBalance15Time,
            frequency: SbrHuffmanBook::EnvelopeBalance15Frequency,
        },
        (true, true) => RowKind {
            width: 5,
            time: SbrHuffmanBook::EnvelopeBalance30Time,
            frequency: SbrHuffmanBook::EnvelopeBalance30Frequency,
        },
    }
}

/// The kinds of noise rows. Along frequency they share the codebooks of coarse envelopes.
pub open spec fn noise_kind(balance: bool) -> RowKind {
    if balance {
        RowKind {
            width: 5,
            time: SbrHuffmanBook::NoiseBalanceTime,
            frequency: SbrHuffmanBook::EnvelopeBalance30Frequency,
        }
    } else {
        RowKind {
            width: 5,
            time: SbrHuffmanBook::NoiseLevelTime,
            frequency: SbrHuffmanBook::EnvelopeLevel30Frequency,
        }
    }
}

impl RowKind {
    /// The codebook of a direction.
    pub open spec fn book(self, time_domain: bool) -> SbrHuffmanBook {
        if time_domain {
            self.time
        } else {
            self.frequency
        }
    }
}

/// The bits of the rows from one on.
pub open spec fn rows_bits(kind: RowKind, directions: Seq<bool>, rows: Seq<SentRow>, index: int) -> Seq<bool>
    decreases rows.len() - index,
{
    if index < 0 || index >= rows.len() {
        Seq::empty()
    } else {
        row_bits(directions[index], kind.width, kind.book(directions[index]), rows[index]) + rows_bits(
            kind,
            directions,
            rows,
            index + 1,
        )
    }
}

/// Whether rows can be sent, and have as many values as there are bands.
pub open spec fn rows_sendable(kind: RowKind, directions: Seq<bool>, rows: Seq<SentRow>, counts: Seq<int>) -> bool {
    &&& rows.len() == counts.len()
    &&& rows.len() <= directions.len()
    &&& forall|i: int|
        0 <= i < rows.len() ==> (#[trigger] rows[i]).first < pow2(kind.width) && all_coded(
            kind.book(directions[i]),
            rows[i].differences,
        ) && row_values(directions[i], false, rows[i]).len() == counts[i]
}

/// The values of rows.
pub open spec fn rows_values(directions: Seq<bool>, balance: bool, rows: Seq<SentRow>) -> Seq<Seq<i16>> {
    Seq::new(rows.len(), |i: int| row_values(directions[i], balance, rows[i]))
}

/// The numbers of bands of the envelopes of a control.
pub open spec fn envelope_counts(control: ControlFields, tables: FrequencyBorders) -> Seq<int> {
    Seq::new(
        control.grid.frequency_resolution.len(),
        |i: int|
            if control.grid.frequency_resolution[i] {
                tables.high.len() - 1
            } else {
                tables.low.len() - 1
            },
    )
}

/// One row of an envelope is read with the width, the codebook and the number of bands that it
/// was sent with.
proof fn lemma_envelope_row(
    control: ControlFields,
    tables: FrequencyBorders,
    coarse: bool,
    balance: bool,
    rows: Seq<SentRow>,
    index: int,
    rest: Seq<bool>,
    cursor: BitCursor,
)
    requires
        rows_sendable(
            envelope_kind(balance, coarse),
            control.envelope_time_domain,
            rows,
            envelope_counts(control, tables),
        ),
        0 <= index < rows.len(),
        stands_at(rows_bits(envelope_kind(balance, coarse), control.envelope_time_domain, rows, index) + rest, cursor),
    ensures
        ({
            let kind = envelope_kind(balance, coarse);
            let time_domain = control.envelope_time_domain[index];
            let bits = row_bits(time_domain, kind.width, kind.book(time_domain), rows[index]);
            let tail = rows_bits(kind, control.envelope_time_domain, rows, index + 1);
            &&& read_row(
                time_domain,
                envelope_start_bits(balance, coarse),
                envelope_book(balance, coarse, time_domain),
                envelope_counts(control, tables)[index],
                value_scale(balance),
                cursor,
            ) == (
                Ok::<Seq<i16>, LdSbrError>(rows_values(control.envelope_time_domain, balance, rows)[index]),
                cursor.advance(bits.len() as int),
            )
            &&& stands_at(tail + rest, cursor.advance(bits.len() as int))
        }),
{
    let kind = envelope_kind(balance, coarse);
    let directions = control.envelope_time_domain;
    let row = rows[index];
    let book = kind.book(directions[index]);
    let bits = row_bits(directions[index], kind.width, book, row);
    let tail = rows_bits(kind, directions, rows, index + 1);
    assert(rows_bits(kind, directions, rows, index) + rest =~= bits + (tail + rest));
    assert(all_coded(book, row.differences));
    assert(row_values(directions[index], false, row).len() == envelope_counts(control, tables)[index]);
    lemma_row_read_back(directions[index], kind.width, book, balance, row, tail + rest, cursor);
}

#[verifier::rlimit(40)]
proof fn lemma_envelope_rows(
    control: ControlFields,
    tables: FrequencyBorders,
    coarse: bool,
    balance: bool,
    rows: Seq<SentRow>,
    index: int,
    shaping: Seq<InterTesEnvelope>,
    rest: Seq<bool>,
    cursor: BitCursor,
)
    requires
        rows_sendable(
            envelope_kind(balance, coarse),
            control.envelope_time_domain,
            rows,
            envelope_counts(control, tables),
        ),
        0 <= index <= rows.len(),
        stands_at(rows_bits(envelope_kind(balance, coarse), control.envelope_time_domain, rows, index) + rest, cursor),
    ensures
        ({
            let all = read_envelope_rows(
                control,
                tables,
                coarse,
                balance,
                false,
                rows_values(control.envelope_time_domain, balance, rows).take(index),
                shaping,
                cursor,
            );
            &&& all.0 is Ok
            &&& all.0->Ok_0.0 == rows_values(control.envelope_time_domain, balance, rows)
            &&& stands_at(rest, all.1)
        }),
    decreases rows.len() - index,
{
    let kind = envelope_kind(balance, coarse);
    let directions = control.envelope_time_domain;
    let target = rows_values(directions, balance, rows);
    if index < rows.len() {
        let bits = row_bits(directions[index], kind.width, kind.book(directions[index]), rows[index]);
        lemma_envelope_row(control, tables, coarse, balance, rows, index, rest, cursor);
        let next = cursor.advance(bits.len() as int);
        let shape = InterTesEnvelope { active: false, mode: 0 };
        assert(target.take(index).push(target[index]) =~= target.take(index + 1));
        lemma_envelope_rows(control, tables, coarse, balance, rows, index + 1, shaping.push(shape), rest, next);
    } else {
        assert(target.take(index) =~= target);
        assert(rows_bits(kind, directions, rows, index) + rest =~= rest);
    }
}

/// The envelopes of a channel are read back as they were sent: one row for each, in
/// order, with as many values as the bands of its resolution.
pub proof fn lemma_envelopes_read_back(
    control: ControlFields,
    tables: FrequencyBorders,
    default_amp_resolution: bool,
    balance: bool,
    rows: Seq<SentRow>,
    rest: Seq<bool>,
    cursor: BitCursor,
)
    requires
        ({
            let coarse = match control.grid.amp_resolution {
                Some(coarse) => coarse,
                None => default_amp_resolution,
            };
            let kind = envelope_kind(balance, coarse);
            &&& rows_sendable(kind, control.envelope_time_domain, rows, envelope_counts(control, tables))
            &&& stands_at(rows_bits(kind, control.envelope_time_domain, rows, 0) + rest, cursor)
        }),
    ensures
        ({
            let all = read_all_envelopes(control, tables, default_amp_resolution, balance, false, cursor);
            &&& all.0 is Ok
            &&& all.0->Ok_0.0 == rows_values(control.envelope_time_domain, balance, rows)
            &&& stands_at(rest, all.1)
        }),
{
    reveal(read_all_envelopes);
    let coarse = match control.grid.amp_resolution {
        Some(coarse) => coarse,
        None => default_amp_resolution,
    };
    let target = rows_values(control.envelope_time_domain, balance, rows);
    assert(target.take(0) =~= Seq::<Seq<i16>>::empty());
    lemma_envelope_rows(control, tables, coarse, balance, rows, 0, Seq::empty(), rest, cursor);
}

proof fn lemma_noise_rows_read(
    control: ControlFields,
    tables: FrequencyBorders,
    balance: bool,
    rows: Seq<SentRow>,
    index: int,
    rest: Seq<bool>,
    cursor: BitCursor,
)
    requires
        rows_sendable(
            noise_kind(balance),
            control.noise_time_domain,
            rows,
            Seq::new(control.noise_time_domain.len(), |i: int| tables.noise.len() - 1),
        ),
        0 <= index <= rows.len(),
        stands_at(rows_bits(noise_kind(balance), control.noise_time_domain, rows, index) + rest, cursor),
    ensures
        ({
            let target = rows_values(control.noise_time_domain, balance, rows);
            let all = read_noise_rows(control, tables, balance, target.take(index), cursor);
            &&& all.0 == Ok::<Seq<Seq<i16>>, LdSbrError>(target)
            &&& stands_at(rest, all.1)
        }),
    decreases rows.len() - index,
{
    let kind = noise_kind(balance);
    let directions = control.noise_time_domain;
    let counts = Seq::new(directions.len(), |i: int| tables.noise.len() - 1);
    let target = rows_values(directions, balance, rows);
    if index < rows.len() {
        let row = rows[index];
        let book = kind.book(directions[index]);
        let bits = row_bits(directions[index], kind.width, book, row);
        let tail = rows_bits(kind, directions, rows, index + 1);
        assert(rows_bits(kind, directions, rows, index) + rest =~= bits + (tail + rest));
        assert(all_coded(book, row.differences));
        assert(row_values(directions[index], false, row).len() == counts[index]);
        lemma_row_read_back(directions[index], kind.width, book, balance, row, tail + rest, cursor);
        assert(target.take(index).push(target[index]) =~= target.take(index + 1));
        lemma_noise_rows_read(control, tables, balance, rows, index + 1, rest, cursor.advance(bits.len() as int));
    } else {
        assert(target.take(index) =~= target);
        assert(rows_bits(kind, directions, rows, index) + rest =~= rest);
    }
}

/// The noise rows of a channel are read back as they were sent, one for each noise
/// envelope, in order.
pub proof fn lemma_noise_read_back(
    control: ControlFields,
    tables: FrequencyBorders,
    balance: bool,
    rows: Seq<SentRow>,
    rest: Seq<bool>,
    cursor: BitCursor,
)
    requires
        rows_sendable(
            noise_kind(balance),
            control.noise_time_domain,
            rows,
            Seq::new(control.noise_time_domain.len(), |i: int| tables.noise.len() - 1),
        ),
        stands_at(rows_bits(noise_kind(balance), control.noise_time_domain, rows, 0) + rest, cursor),
    ensures
        ({
            let all = read_noise_rows(control, tables, balance, Seq::empty(), cursor);
            &&& all.0 == Ok::<Seq<Seq<i16>>, LdSbrError>(rows_values(control.noise_time_domain, balance, rows))
            &&& stands_at(rest, all.1)
        }),
{
    let target = rows_values(control.noise_time_domain, balance, rows);
    assert(target.take(0) =~= Seq::<Seq<i16>>::empty());
    lemma_noise_rows_read(control, tables, balance, rows, 0, rest, cursor);
}

// ---------------------------------------------------------------------------
// Channels
// ---------------------------------------------------------------------------

/// The values of a channel as they are sent.
pub struct SentChannel {
    pub modes: Seq<u8>,
    pub envelopes: Seq<SentRow>,
    pub noise: Seq<SentRow>,
}

/// Inverse filtering modes in the stream, two bits each.
pub open spec fn modes_bits(modes: Seq<u8>) -> Seq<bool>
    decreases modes.len(),
{
    if modes.len() == 0 {
        Seq::empty()
    } else {
        value_bits(modes[0] as nat, 2) + modes_bits(modes.skip(1))
    }
}

proof fn lemma_modes_read(modes: Seq<u8>, before: Seq<u8>, rest: Seq<bool>, cursor: BitCursor)
    requires
        forall|i: int| 0 <= i < modes.len() ==> #[trigger] modes[i] < 4,
        stands_at(modes_bits(modes) + rest, cursor),
    ensures
        cursor.read_fields(2, (before.len() + modes.len()) as int, before).0 == Ok::<Seq<u8>, BitError>(before + modes),
        stands_at(rest, cursor.read_fields(2, (before.len() + modes.len()) as int, before).1),
    decreases modes.len(),
{
    if modes.len() == 0 {
        assert(modes_bits(modes) + rest =~= rest);
        assert(before + modes =~= before);
    } else {
        let tail = modes.skip(1);
        assert(modes[0] < 4);
        assert forall|i: int| 0 <= i < tail.len() implies #[trigger] tail[i] < 4 by {
            assert(modes[i + 1] < 4);
        }
        assert(modes_bits(modes) + rest =~= value_bits(modes[0] as nat, 2) + (modes_bits(tail) + rest));
        lemma2_to64();
        lemma_stands_field(modes[0] as nat, 2, modes_bits(tail) + rest, cursor);
        lemma_modes_read(tail, before.push(modes[0]), rest, cursor.advance(2));
        assert(before.push(modes[0]) + tail =~= before + modes);
    }
}

/// Whether the amplitude steps of a control are coarse: its own setting counts where it
/// has one.
pub open spec fn steps_coarse(control: ControlFields, default_amp_resolution: bool) -> bool {
    match control.grid.amp_resolution {
        Some(coarse) => coarse,
        None => default_amp_resolution,
    }
}

/// The envelopes of a channel in the stream.
pub open spec fn envelopes_bits(control: ControlFields, default_amp_resolution: bool, balance: bool, rows: Seq<SentRow>) -> Seq<
    bool,
> {
    rows_bits(
        envelope_kind(balance, steps_coarse(control, default_amp_resolution)),
        control.envelope_time_domain,
        rows,
        0,
    )
}

/// The noise of a channel in the stream.
pub open spec fn noise_bits(control: ControlFields, balance: bool, rows: Seq<SentRow>) -> Seq<bool> {
    rows_bits(noise_kind(balance), control.noise_time_domain, rows, 0)
}

/// Whether the values of a channel can be sent.
pub open spec fn channel_sendable(
    channel: SentChannel,
    control: ControlFields,
    tables: FrequencyBorders,
    default_amp_resolution: bool,
    balance: bool,
) -> bool {
    &&& channel.modes.len() == tables.noise.len() - 1
    &&& forall|i: int| 0 <= i < channel.modes.len() ==> #[trigger] channel.modes[i] < 4
    &&& rows_sendable(
        envelope_kind(balance, steps_coarse(control, default_amp_resolution)),
        control.envelope_time_domain,
        channel.envelopes,
        envelope_counts(control, tables),
    )
    &&& rows_sendable(
        noise_kind(balance),
        control.noise_time_domain,
        channel.noise,
        Seq::new(control.noise_time_domain.len(), |i: int| tables.noise.len() - 1),
    )
}

/// The values of a channel that was sent.
pub open spec fn channel_values(channel: SentChannel, control: ControlFields, balance: bool) -> ChannelFields {
    ChannelFields {
        inverse_filtering_modes: channel.modes,
        envelopes: rows_values(control.envelope_time_domain, balance, channel.envelopes),
        noise: rows_values(control.noise_time_domain, balance, channel.noise),
    }
}

/// The inverse filtering modes of a channel are read back.
pub proof fn lemma_all_modes_read(tables: FrequencyBorders, modes: Seq<u8>, rest: Seq<bool>, cursor: BitCursor)
    requires
        modes.len() == tables.noise.len() - 1,
        forall|i: int| 0 <= i < modes.len() ==> #[trigger] modes[i] < 4,
        stands_at(modes_bits(modes) + rest, cursor),
    ensures
        read_modes(tables, cursor).0 == Ok::<Seq<u8>, LdSbrError>(modes),
        stands_at(rest, read_modes(tables, cursor).1),
{
    let none = Seq::<u8>::empty();
    lemma_modes_read(modes, none, rest, cursor);
    assert(none + modes =~= modes);
}

/// A single channel is read back as it was sent: its modes first, then its envelopes, then
/// its noise.
pub proof fn lemma_channel_read_back(
    channel: SentChannel,
    control: ControlFields,
    tables: FrequencyBorders,
    default_amp_resolution: bool,
    rest: Seq<bool>,
    cursor: BitCursor,
)
    requires
        channel_sendable(channel, control, tables, default_amp_resolution, false),
        stands_at(
            modes_bits(channel.modes) + (envelopes_bits(control, default_amp_resolution, false, channel.envelopes) + (
            noise_bits(control, false, channel.noise) + rest)),
            cursor,
        ),
    ensures
        ({
            let all = parse_mono(control, tables, default_amp_resolution, false, cursor);
            &&& all.0 is Ok
            &&& all.0->Ok_0.0 == channel_values(channel, control, false)
            &&& stands_at(rest, all.1)
        }),
{
    reveal(parse_mono);
    let envelopes = envelopes_bits(control, default_amp_resolution, false, channel.envelopes);
    let noise = noise_bits(control, false, channel.noise);
    lemma_all_modes_read(tables, channel.modes, envelopes + (noise + rest), cursor);
    let c1 = read_modes(tables, cursor).1;
    lemma_envelopes_read_back(control, tables, default_amp_resolution, false, channel.envelopes, noise + rest, c1);
    let c2 = read_all_envelopes(control, tables, default_amp_resolution, false, false, c1).1;
    lemma_noise_read_back(control, tables, false, channel.noise, rest, c2);
}

/// The rows of a pair in the stream: where the channels are coupled, all of the left one,
/// which holds the levels, before the right one, which holds the balances; otherwise the
/// envelopes of both before the noise of both.
pub open spec fn pair_bits(
    left: SentChannel,
    right: SentChannel,
    left_control: ControlFields,
    right_control: ControlFields,
    coupling: bool,
    default_amp_resolution: bool,
    rest: Seq<bool>,
) -> Seq<bool> {
    let left_envelopes = envelopes_bits(left_control, default_amp_resolution, false, left.envelopes);
    let left_noise = noise_bits(left_control, false, left.noise);
    let right_envelopes = envelopes_bits(right_control, default_amp_resolution, coupling, right.envelopes);
    let right_noise = noise_bits(right_control, coupling, right.noise);
    if coupling {
        modes_bits(left.modes) + (left_envelopes + (left_noise + (right_envelopes + (right_noise + rest))))
    } else {
        modes_bits(left.modes) + (modes_bits(right.modes) + (left_envelopes + (right_envelopes + (left_noise + (right_noise
            + rest)))))
    }
}

proof fn lemma_pair_rows(
    left: SentChannel,
    right: SentChannel,
    prefix: PrefixFields,
    right_control: ControlFields,
    tables: FrequencyBorders,
    default_amp_resolution: bool,
    rest: Seq<bool>,
    cursor: BitCursor,
)
    requires
        channel_sendable(left, prefix.left, tables, default_amp_resolution, false),
        channel_sendable(right, right_control, tables, default_amp_resolution, prefix.coupling),
        ({
            let left_envelopes = envelopes_bits(prefix.left, default_amp_resolution, false, left.envelopes);
            let left_noise = noise_bits(prefix.left, false, left.noise);
            let right_envelopes = envelopes_bits(right_control, default_amp_resolution, prefix.coupling, right.envelopes);
            let right_noise = noise_bits(right_control, prefix.coupling, right.noise);
            stands_at(
                if prefix.coupling {
                    left_envelopes + (left_noise + (right_envelopes + (right_noise + rest)))
                } else {
                    left_envelopes + (right_envelopes + (left_noise + (right_noise + rest)))
                },
                cursor,
            )
        }),
    ensures
        ({
            let all = parse_pair_rows(
                prefix.left,
                right_control,
                prefix.coupling,
                tables,
                default_amp_resolution,
                false,
                cursor,
            );
            &&& all.0 is Ok
            &&& all.0->Ok_0.0.0 == rows_values(prefix.left.envelope_time_domain, false, left.envelopes)
            &&& all.0->Ok_0.1 == rows_values(prefix.left.noise_time_domain, false, left.noise)
            &&& all.0->Ok_0.2.0 == rows_values(right_control.envelope_time_domain, prefix.coupling, right.envelopes)
            &&& all.0->Ok_0.3 == rows_values(right_control.noise_time_domain, prefix.coupling, right.noise)
            &&& stands_at(rest, all.1)
        }),
{
    reveal(parse_pair_rows);
    let coupling = prefix.coupling;
    let left_noise = noise_bits(prefix.left, false, left.noise);
    let right_envelopes = envelopes_bits(right_control, default_amp_resolution, coupling, right.envelopes);
    let right_noise = noise_bits(right_control, coupling, right.noise);
    let c1 = read_all_envelopes(prefix.left, tables, default_amp_resolution, false, false, cursor).1;
    if coupling {
        let second = right_envelopes + (right_noise + rest);
        lemma_envelopes_read_back(
            prefix.left,
            tables,
            default_amp_resolution,
            false,
            left.envelopes,
            left_noise + second,
            cursor,
        );
        lemma_noise_read_back(prefix.left, tables, false, left.noise, second, c1);
        let c2 = read_noise_rows(prefix.left, tables, false, Seq::empty(), c1).1;
        lemma_envelopes_read_back(
            right_control,
            tables,
            default_amp_resolution,
            true,
            right.envelopes,
            right_noise + rest,
            c2,
        );
        let c3 = read_all_envelopes(right_control, tables, default_amp_resolution, true, false, c2).1;
        lemma_noise_read_back(right_control, tables, true, right.noise, rest, c3);
    } else {
        let second = left_noise + (right_noise + rest);
        lemma_envelopes_read_back(
            prefix.left,
            tables,
            default_amp_resolution,
            false,
            left.envelopes,
            right_envelopes + second,
            cursor,
        );
        lemma_envelopes_read_back(right_control, tables, default_amp_resolution, false, right.envelopes, second, c1);
        let c2 = read_all_envelopes(right_control, tables, default_amp_resolution, false, false, c1).1;
        lemma_noise_read_back(prefix.left, tables, false, left.noise, right_noise + rest, c2);
        let c3 = read_noise_rows(prefix.left, tables, false, Seq::empty(), c2).1;
        lemma_noise_read_back(right_control, tables, false, right.noise, rest, c3);
    }
}

/// A pair of channels is read back as it was sent. Coupled channels share their modes, and
/// the right one holds balances.
pub proof fn lemma_pair_read_back(
    left: SentChannel,
    right: SentChannel,
    prefix: PrefixFields,
    tables: FrequencyBorders,
    default_amp_resolution: bool,
    rest: Seq<bool>,
    cursor: BitCursor,
)
    requires
        prefix.right is Some,
        channel_sendable(left, prefix.left, tables, default_amp_resolution, false),
        channel_sendable(right, prefix.right->0, tables, default_amp_resolution, prefix.coupling),
        stands_at(
            pair_bits(left, right, prefix.left, prefix.right->0, prefix.coupling, default_amp_resolution, rest),
            cursor,
        ),
    ensures
        ({
            let all = parse_pair(prefix, tables, default_amp_resolution, false, cursor);
            let second = channel_values(right, prefix.right->0, prefix.coupling);
            &&& all.0 is Ok
            &&& all.0->Ok_0.0.0 == channel_values(left, prefix.left, false)
            &&& all.0->Ok_0.1.0 == if prefix.coupling {
                ChannelFields { inverse_filtering_modes: left.modes, ..second }
            } else {
                second
            }
            &&& stands_at(rest, all.1)
        }),
{
    reveal(parse_pair);
    let right_control = prefix.right->0;
    let coupling = prefix.coupling;
    let left_envelopes = envelopes_bits(prefix.left, default_amp_resolution, false, left.envelopes);
    let left_noise = noise_bits(prefix.left, false, left.noise);
    let right_envelopes = envelopes_bits(right_control, default_amp_resolution, coupling, right.envelopes);
    let right_noise = noise_bits(right_control, coupling, right.noise);
    let c1 = read_modes(tables, cursor).1;
    if coupling {
        let rows = left_envelopes + (left_noise + (right_envelopes + (right_noise + rest)));
        lemma_all_modes_read(tables, left.modes, rows, cursor);
        lemma_pair_rows(left, right, prefix, right_control, tables, default_amp_resolution, rest, c1);
    } else {
        let rows = left_envelopes + (right_envelopes + (left_noise + (right_noise + rest)));
        lemma_all_modes_read(tables, left.modes, modes_bits(right.modes) + rows, cursor);
        lemma_all_modes_read(tables, right.modes, rows, c1);
        let c2 = read_modes(tables, c1).1;
        lemma_pair_rows(left, right, prefix, right_control, tables, default_amp_resolution, rest, c2);
    }
}

// ---------------------------------------------------------------------------
// Behind the values
// ---------------------------------------------------------------------------

/// The harmonics of a channel are a flag for each high-resolution band, in order, behind a
/// flag that is set; behind a clear one there are none.
pub proof fn lemma_harmonics_read_back(flags: Seq<bool>, rest: Seq<bool>, cursor: BitCursor)
    ensures
        stands_at(seq![true] + (flags + rest), cursor) ==> parse_harmonics(flags.len() as int, cursor).0 == Ok::<
            Seq<bool>,
            LdSbrError,
        >(flags) && stands_at(rest, parse_harmonics(flags.len() as int, cursor).1),
        stands_at(seq![false] + rest, cursor) ==> parse_harmonics(flags.len() as int, cursor).0 == Ok::<
            Seq<bool>,
            LdSbrError,
        >(Seq::new(flags.len(), |i: int| false)) && stands_at(rest, parse_harmonics(flags.len() as int, cursor).1),
{
    reveal(parse_harmonics);
    if stands_at(seq![true] + (flags + rest), cursor) {
        lemma_stands_bit(true, flags + rest, cursor);
        lemma_stands_split(flags, rest, cursor.advance(1));
    }
    if stands_at(seq![false] + rest, cursor) {
        lemma_stands_bit(false, rest, cursor);
    }
}

} // verus!

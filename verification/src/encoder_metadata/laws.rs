//! What a receiver finds in the payloads: every setting stands at its place, and
//! every gain is the nearest one that can be sent.

use vstd::prelude::*;

use crate::bits::{
    bits_of, lemma_bits_of_concat, lemma_byte_bits, lemma_value_bits_index, lemma_value_bits_len, lemma_value_bits_value, padding,
    value_bits,
};
use vstd::arithmetic::power2::{lemma2_to64, pow2};

use super::{
    compression_bits, compression_step, downmix_bits, downmix_gain_bits, extended_bits, extended_gain_bits,
    extended_head_bits, extended_level_bits, extended_lfe_bits, gain_bits, gain_size, level_bits, program_level,
    EncoderMetadata, ExtendedEncoderMetadata, MetadataDrcProfile,
};

verus! {

/// The number in the bits of a byte that have the given weight and size.
pub open spec fn field(byte: u8, weight: int, size: int) -> int {
    (byte as int / weight) % size
}

/// The byte at which a run of eight bits is found.
proof fn lemma_byte_at(payload: Seq<u8>, at: int, value: nat)
    requires
        0 <= at < payload.len(),
        value < 256,
        bits_of(payload).subrange(8 * at, 8 * at + 8) == value_bits(value, 8),
    ensures
        payload[at] == value,
{
    let part = bits_of(payload).subrange(8 * at, 8 * at + 8);
    assert(part =~= bits_of(seq![payload[at]])) by {
        assert forall|k: int| 0 <= k < 8 implies part[k] == bits_of(seq![payload[at]])[k] by {
            assert(part[k] == bits_of(payload)[8 * at + k]);
            assert((8 * at + k) / 8 == at && (8 * at + k) % 8 == k);
        }
    }
    lemma_byte_bits(payload[at]);
    lemma2_to64();
    lemma_value_bits_value(payload[at] as nat, 8);
    lemma_value_bits_value(value, 8);
}

/// Fields side by side are the bits of one number.
proof fn lemma_joined_fields(high: nat, high_width: nat, low: nat, low_width: nat)
    requires
        low < pow2(low_width),
    ensures
        value_bits(high, high_width) + value_bits(low, low_width) == value_bits(
            high * pow2(low_width) + low,
            high_width + low_width,
        ),
    decreases low_width,
{
    lemma_value_bits_len(high, high_width);
    lemma_value_bits_len(low, low_width);
    if low_width == 0 {
        lemma2_to64();
        assert(high * pow2(0) == high) by (nonlinear_arith)
            requires
                pow2(0) == 1,
        ;
        assert(value_bits(high, high_width) + value_bits(low, low_width) =~= value_bits(high, high_width));
    } else {
        let shorter = (low_width - 1) as nat;
        vstd::arithmetic::power2::lemma_pow2_unfold(low_width);
        let whole = high * pow2(low_width) + low;
        assert(high * pow2(low_width) == 2 * (high * pow2(shorter))) by (nonlinear_arith)
            requires
                pow2(low_width) == 2 * pow2(shorter),
        ;
        assert(whole / 2 == high * pow2(shorter) + low / 2);
        assert(whole % 2 == low % 2);
        lemma_joined_fields(high, high_width, low / 2, shorter);
        assert((high_width + low_width - 1) as nat == high_width + shorter);
        assert(value_bits(high, high_width) + value_bits(low, low_width) =~= (value_bits(high, high_width) + value_bits(
            low / 2,
            shorter,
        )).push(low % 2 == 1));
    }
}

/// A flag is a field of one bit.
proof fn lemma_flag_field(flag: bool)
    ensures
        seq![flag] == value_bits(
            if flag {
                1
            } else {
                0
            },
            1,
        ),
{
    let value: nat = if flag {
        1
    } else {
        0
    };
    reveal_with_fuel(value_bits, 2);
    assert(value_bits(value, 1) =~= seq![flag]);
}

/// The number of a flag.
pub open spec fn flag_value(flag: bool) -> nat {
    if flag {
        1
    } else {
        0
    }
}

proof fn lemma_mode_bytes(metadata: EncoderMetadata)
    ensures
        metadata.mode_bits() == value_bits(0xbc, 8) + value_bits(
            (0xc0 + 16 * (metadata.dolby_surround_mode % 4) + 4 * (metadata.drc_presentation_mode % 4)) as nat,
            8,
        ),
{
    lemma2_to64();
    let surround = (metadata.dolby_surround_mode % 4) as nat;
    let presentation = (metadata.drc_presentation_mode % 4) as nat;
    lemma_joined_fields(presentation, 2, 0, 2);
    lemma_joined_fields(surround, 2, presentation * 4, 4);
    lemma_joined_fields(3, 2, surround * 16 + presentation * 4, 6);
}

proof fn lemma_status_byte(metadata: EncoderMetadata, compression: Option<i32>)
    ensures
        metadata.status_bits(compression) == value_bits(
            16 * flag_value(metadata.etsi_downmix_levels_present) + 8 * flag_value(metadata.extended.enabled) + 4
                * flag_value(compression is Some),
            8,
        ),
{
    lemma2_to64();
    let a = metadata.etsi_downmix_levels_present;
    let b = metadata.extended.enabled;
    let c = compression is Some;
    lemma_flag_field(a);
    lemma_flag_field(b);
    lemma_flag_field(c);
    assert(seq![a, b, c] =~= seq![a] + (seq![b] + seq![c]));
    lemma_joined_fields(flag_value(b), 1, flag_value(c), 1);
    lemma_joined_fields(flag_value(a), 1, 2 * flag_value(b) + flag_value(c), 2);
    let flags = 4 * flag_value(a) + 2 * flag_value(b) + flag_value(c);
    lemma_joined_fields(flags, 3, 0, 2);
    lemma_joined_fields(0, 3, 4 * flags, 5);
}

proof fn lemma_extended_head_byte(extended: ExtendedEncoderMetadata)
    ensures
        extended_head_bits(extended) == value_bits(
            64 * flag_value(extended.downmix_levels_enabled) + 32 * flag_value(extended.downmix_gains_enabled) + 16
                * flag_value(extended.lfe_downmix_enabled),
            8,
        ),
{
    lemma2_to64();
    let a = extended.downmix_levels_enabled;
    let b = extended.downmix_gains_enabled;
    let c = extended.lfe_downmix_enabled;
    lemma_flag_field(false);
    lemma_flag_field(a);
    lemma_flag_field(b);
    lemma_flag_field(c);
    assert(seq![false, a, b, c] =~= seq![false] + (seq![a] + (seq![b] + seq![c])));
    lemma_joined_fields(flag_value(b), 1, flag_value(c), 1);
    lemma_joined_fields(flag_value(a), 1, 2 * flag_value(b) + flag_value(c), 2);
    let flags = 4 * flag_value(a) + 2 * flag_value(b) + flag_value(c);
    lemma_joined_fields(0, 1, flags, 3);
    lemma_joined_fields(flags, 4, 0, 4);
}

proof fn lemma_extended_level_byte(extended: ExtendedEncoderMetadata)
    requires
        extended.downmix_levels_enabled,
    ensures
        extended_level_bits(extended) == value_bits(
            (32 * (extended.downmix_level_a % 8) + 4 * (extended.downmix_level_b % 8)) as nat,
            8,
        ),
{
    lemma2_to64();
    let a = (extended.downmix_level_a % 8) as nat;
    let b = (extended.downmix_level_b % 8) as nat;
    lemma_joined_fields(b, 3, 0, 2);
    lemma_joined_fields(a, 3, 4 * b, 5);
}

/// The low bits of a number in a field of six bits.
proof fn lemma_six_bits(value: nat)
    requires
        value < 128,
    ensures
        value_bits(value, 6) == value_bits(value % 64, 6),
{
    lemma2_to64();
    lemma_joined_fields(value / 64, 1, value % 64, 6);
    lemma_value_bits_len(value / 64, 1);
    lemma_value_bits_len(value, 6);
    lemma_value_bits_len(value % 64, 6);
    lemma_value_bits_len(value, 7);
    assert forall|k: int| 0 <= k < 6 implies value_bits(value, 6)[k] == value_bits(value % 64, 6)[k] by {
        lemma_value_bits_index(value, 6, k);
        lemma_value_bits_index(value, 7, k + 1);
        assert((value_bits(value / 64, 1) + value_bits(value % 64, 6))[k + 1] == value_bits(value % 64, 6)[k]);
    }
    assert(value_bits(value, 6) =~= value_bits(value % 64, 6));
}

proof fn lemma_downmix_gain_byte(gain_q16: i32)
    ensures
        downmix_gain_bits(gain_q16) == value_bits(
            128 * flag_value(gain_q16 < 0) + 2 * (gain_size(gain_q16 as int) % 64) as nat,
            8,
        ),
{
    lemma2_to64();
    let size = gain_size(gain_q16 as int) as nat;
    assert(0 <= gain_size(gain_q16 as int) <= 127);
    lemma_six_bits(size);
    lemma_flag_field(false);
    lemma_flag_field(gain_q16 < 0);
    lemma_joined_fields(size % 64, 6, 0, 1);
    lemma_joined_fields(flag_value(gain_q16 < 0), 1, 2 * (size % 64), 7);
}

proof fn lemma_extended_lfe_byte(extended: ExtendedEncoderMetadata)
    requires
        extended.lfe_downmix_enabled,
    ensures
        extended_lfe_bits(extended) == value_bits((16 * (extended.lfe_downmix_level % 16)) as nat, 8),
{
    lemma2_to64();
    lemma_joined_fields((extended.lfe_downmix_level % 16) as nat, 4, 0, 4);
}

/// The compression gain of a code: sixteen coarse steps of about six decibels,
/// each of fifteen fine ones. The result counts in fifteenths.
pub open spec fn sent_gain_fifteenths(code: u8) -> int {
    15 * 3_156_476 - 394_566 * (15 * (code / 16) + code % 16)
}

/// A compression gain is sent as the nearest code: what the code stands for lies
/// within half a fine step of the gain. Gains above all codes are sent as the
/// largest, and those below all as the one that stands for none.
pub proof fn lemma_nearest_compression_gain(gain_q16: i32)
    ensures
        ({
            let code = compression_step(gain_q16 as int) as u8;
            &&& compression_step(gain_q16 as int) == code
            &&& code != 0xff ==> code % 16 < 15
            &&& code != 0xff && gain_q16 <= 3_156_476 ==> {
                let difference = sent_gain_fifteenths(code) - 15 * gain_q16;
                -197_283 <= difference <= 197_283
            }
            &&& gain_q16 > 3_156_476 ==> code == 0
            &&& code == 0xff <==> 15 * gain_q16 <= 15 * 3_156_476 - 394_566 * 240 + 197_283
        }),
{
}

/// The size of a gain is the nearest number of quarters of a decibel, as far as
/// seven bits go.
pub proof fn lemma_nearest_gain_size(gain_q16: i32)
    ensures
        ({
            let size = gain_size(gain_q16 as int);
            let sent = if gain_q16 < 0 {
                -0x4000 * size
            } else {
                0x4000 * size
            };
            &&& 0 <= size <= 127
            &&& -127 * 0x4000 <= gain_q16 <= 127 * 0x4000 ==> -0x2000 <= sent - gain_q16 <= 0x2000
            &&& gain_q16 < -127 * 0x4000 || gain_q16 > 127 * 0x4000 ==> size == 127
        }),
{
}

/// A program reference level is sent as the nearest number of quarters of a
/// decibel below full scale, as far as seven bits go.
pub proof fn lemma_nearest_program_level(level_q16: i32)
    ensures
        ({
            let level = program_level(level_q16 as int);
            &&& 0 <= level <= 127
            &&& -127 * 0x4000 <= level_q16 <= 0 ==> -0x2000 <= level * 0x4000 + level_q16 <= 0x2000
            &&& level_q16 > 0 ==> level == 0
            &&& level_q16 < -127 * 0x4000 ==> level == 127
        }),
{
}

/// Whether a payload holds extended settings from its first byte on: flags, and
/// behind them what they announce.
pub open spec fn holds_extended(payload: Seq<u8>, extended: ExtendedEncoderMetadata) -> bool {
    let gains = if extended.downmix_levels_enabled {
        2int
    } else {
        1
    };
    let lfe = if extended.downmix_gains_enabled {
        gains + 2
    } else {
        gains
    };
    &&& payload.len() == if extended.lfe_downmix_enabled {
        lfe + 1
    } else {
        lfe
    }
    &&& field(payload[0], 128, 2) == 0
    &&& (field(payload[0], 64, 2) == 1) == extended.downmix_levels_enabled
    &&& (field(payload[0], 32, 2) == 1) == extended.downmix_gains_enabled
    &&& (field(payload[0], 16, 2) == 1) == extended.lfe_downmix_enabled
    &&& field(payload[0], 1, 16) == 0
    &&& extended.downmix_levels_enabled ==> field(payload[1], 32, 8) == extended.downmix_level_a % 8 && field(
        payload[1],
        4,
        8,
    ) == extended.downmix_level_b % 8 && field(payload[1], 1, 4) == 0
    &&& extended.downmix_gains_enabled ==> holds_gain(payload[gains], extended.downmix_gain_5_q16) && holds_gain(
        payload[gains + 1],
        extended.downmix_gain_2_q16,
    )
    &&& extended.lfe_downmix_enabled ==> field(payload[lfe], 16, 16) == extended.lfe_downmix_level % 16 && field(
        payload[lfe],
        1,
        16,
    ) == 0
}

/// Whether a byte holds a downmix gain: its sign, and the six low bits of its size
/// in quarters of a decibel.
pub open spec fn holds_gain(byte: u8, gain_q16: i32) -> bool {
    &&& (field(byte, 128, 2) == 1) == (gain_q16 < 0)
    &&& field(byte, 2, 64) == gain_size(gain_q16 as int) % 64
    &&& field(byte, 1, 2) == 0
}

/// The first byte of extended settings.
spec fn head_byte(extended: ExtendedEncoderMetadata) -> u8 {
    (64 * flag_value(extended.downmix_levels_enabled) + 32 * flag_value(extended.downmix_gains_enabled) + 16 * flag_value(
        extended.lfe_downmix_enabled,
    )) as u8
}

/// The byte of the extended downmix levels.
spec fn both_levels_byte(extended: ExtendedEncoderMetadata) -> u8 {
    (32 * (extended.downmix_level_a % 8) + 4 * (extended.downmix_level_b % 8)) as u8
}

/// The byte of the low-frequency downmix level.
spec fn lfe_byte(extended: ExtendedEncoderMetadata) -> u8 {
    (16 * (extended.lfe_downmix_level % 16)) as u8
}

proof fn lemma_extended_fields(extended: ExtendedEncoderMetadata)
    ensures
        field(head_byte(extended), 128, 2) == 0,
        (field(head_byte(extended), 64, 2) == 1) == extended.downmix_levels_enabled,
        (field(head_byte(extended), 32, 2) == 1) == extended.downmix_gains_enabled,
        (field(head_byte(extended), 16, 2) == 1) == extended.lfe_downmix_enabled,
        field(head_byte(extended), 1, 16) == 0,
        field(both_levels_byte(extended), 32, 8) == extended.downmix_level_a % 8,
        field(both_levels_byte(extended), 4, 8) == extended.downmix_level_b % 8,
        field(both_levels_byte(extended), 1, 4) == 0,
        field(lfe_byte(extended), 16, 16) == extended.lfe_downmix_level % 16,
        field(lfe_byte(extended), 1, 16) == 0,
{
}

/// The bytes of extended settings.
spec fn extended_bytes(extended: ExtendedEncoderMetadata) -> Seq<u8> {
    let head = seq![head_byte(extended)];
    let levels = if extended.downmix_levels_enabled {
        seq![both_levels_byte(extended)]
    } else {
        Seq::empty()
    };
    let gains = if extended.downmix_gains_enabled {
        seq![gain_byte(extended.downmix_gain_5_q16), gain_byte(extended.downmix_gain_2_q16)]
    } else {
        Seq::empty()
    };
    let lfe = if extended.lfe_downmix_enabled {
        seq![lfe_byte(extended)]
    } else {
        Seq::empty()
    };
    head + (levels + (gains + lfe))
}

/// The byte of a downmix gain.
spec fn gain_byte(gain_q16: i32) -> u8 {
    (128 * flag_value(gain_q16 < 0) + 2 * (gain_size(gain_q16 as int) % 64)) as u8
}

/// Bytes are known by their bits.
proof fn lemma_same_bits(first: Seq<u8>, second: Seq<u8>)
    requires
        bits_of(first) == bits_of(second),
    ensures
        first == second,
{
    assert(bits_of(first).len() == 8 * first.len());
    assert(bits_of(second).len() == 8 * second.len());
    assert forall|i: int| 0 <= i < first.len() implies first[i] == second[i] by {
        let part = bits_of(second).subrange(8 * i, 8 * i + 8);
        assert(part =~= bits_of(seq![second[i]])) by {
            assert forall|k: int| 0 <= k < 8 implies part[k] == bits_of(seq![second[i]])[k] by {
                assert(part[k] == bits_of(second)[8 * i + k]);
                assert((8 * i + k) / 8 == i && (8 * i + k) % 8 == k);
            }
        }
        lemma_byte_bits(second[i]);
        lemma_byte_at(first, i, second[i] as nat);
    }
    assert(first =~= second);
}

proof fn lemma_extended_gain_bits(extended: ExtendedEncoderMetadata)
    requires
        extended.downmix_gains_enabled,
    ensures
        bits_of(seq![gain_byte(extended.downmix_gain_5_q16), gain_byte(extended.downmix_gain_2_q16)])
            == extended_gain_bits(extended),
{
    let first = gain_byte(extended.downmix_gain_5_q16);
    let second = gain_byte(extended.downmix_gain_2_q16);
    lemma_downmix_gain_byte(extended.downmix_gain_5_q16);
    lemma_downmix_gain_byte(extended.downmix_gain_2_q16);
    lemma_byte_bits(first);
    lemma_byte_bits(second);
    lemma_bits_of_concat(seq![first], seq![second]);
    assert(seq![first, second] =~= seq![first] + seq![second]);
}

/// The bits of extended settings are those of their bytes.
proof fn lemma_extended_bytes(extended: ExtendedEncoderMetadata)
    requires
        extended.enabled,
    ensures
        bits_of(extended_bytes(extended)) == extended_bits(extended),
{
    let none = Seq::<u8>::empty();
    assert(bits_of(none) =~= Seq::<bool>::empty());
    let head = head_byte(extended);
    let levels = if extended.downmix_levels_enabled {
        seq![both_levels_byte(extended)]
    } else {
        none
    };
    let gains = if extended.downmix_gains_enabled {
        seq![gain_byte(extended.downmix_gain_5_q16), gain_byte(extended.downmix_gain_2_q16)]
    } else {
        none
    };
    let lfe = if extended.lfe_downmix_enabled {
        seq![lfe_byte(extended)]
    } else {
        none
    };
    lemma_extended_head_byte(extended);
    lemma_byte_bits(head);
    if extended.downmix_levels_enabled {
        lemma_extended_level_byte(extended);
        lemma_byte_bits(levels[0]);
    }
    assert(bits_of(levels) == extended_level_bits(extended));
    if extended.downmix_gains_enabled {
        lemma_extended_gain_bits(extended);
    }
    assert(bits_of(gains) == extended_gain_bits(extended));
    if extended.lfe_downmix_enabled {
        lemma_extended_lfe_byte(extended);
        lemma_byte_bits(lfe[0]);
    }
    assert(bits_of(lfe) == extended_lfe_bits(extended));
    lemma_bits_of_concat(gains, lfe);
    lemma_bits_of_concat(levels, gains + lfe);
    lemma_bits_of_concat(seq![head], levels + (gains + lfe));
}

proof fn lemma_gain_byte(gain_q16: i32)
    ensures
        holds_gain(gain_byte(gain_q16), gain_q16),
{
    lemma_nearest_gain_size(gain_q16);
}

/// Where the bytes of extended settings stand.
proof fn lemma_extended_places(extended: ExtendedEncoderMetadata)
    ensures
        ({
            let bytes = extended_bytes(extended);
            let gains = if extended.downmix_levels_enabled {
                2int
            } else {
                1
            };
            let lfe = if extended.downmix_gains_enabled {
                gains + 2
            } else {
                gains
            };
            &&& bytes.len() == if extended.lfe_downmix_enabled {
                lfe + 1
            } else {
                lfe
            }
            &&& bytes[0] == head_byte(extended)
            &&& extended.downmix_levels_enabled ==> bytes[1] == both_levels_byte(extended)
            &&& extended.downmix_gains_enabled ==> bytes[gains] == gain_byte(extended.downmix_gain_5_q16) && bytes[gains + 1]
                == gain_byte(extended.downmix_gain_2_q16)
            &&& extended.lfe_downmix_enabled ==> bytes[lfe] == lfe_byte(extended)
        }),
{
}

/// A receiver finds the extended settings at their places.
pub proof fn lemma_extended_layout(extended: ExtendedEncoderMetadata, payload: Seq<u8>)
    requires
        bits_of(payload) == extended_bits(extended),
    ensures
        extended.enabled ==> holds_extended(payload, extended),
        !extended.enabled ==> payload.len() == 0,
{
    if extended.enabled {
        lemma_extended_bytes(extended);
        lemma_same_bits(payload, extended_bytes(extended));
        lemma_extended_places(extended);
        lemma_extended_fields(extended);
        lemma_gain_byte(extended.downmix_gain_5_q16);
        lemma_gain_byte(extended.downmix_gain_2_q16);
    } else {
        assert(bits_of(payload).len() == 8 * payload.len());
    }
}

/// The byte of the modes.
spec fn mode_byte(metadata: EncoderMetadata) -> u8 {
    (0xc0 + 16 * (metadata.dolby_surround_mode % 4) + 4 * (metadata.drc_presentation_mode % 4)) as u8
}

/// The byte of the flags.
spec fn status_byte(metadata: EncoderMetadata, compressed: bool) -> u8 {
    (16 * flag_value(metadata.etsi_downmix_levels_present) + 8 * flag_value(metadata.extended.enabled) + 4 * flag_value(
        compressed,
    )) as u8
}

/// The byte of the downmix levels.
spec fn level_byte(metadata: EncoderMetadata) -> u8 {
    (0x88 + 16 * (metadata.center_mix_level % 8) + metadata.surround_mix_level % 8) as u8
}

/// The bytes of the ancillary payload.
spec fn ancillary_bytes(metadata: EncoderMetadata, compression: Option<i32>) -> Seq<u8> {
    let levels = if metadata.etsi_downmix_levels_present {
        seq![level_byte(metadata)]
    } else {
        Seq::empty()
    };
    let sent = match compression {
        Some(gain) => seq![1u8, compression_step(gain as int) as u8],
        None => Seq::empty(),
    };
    let extended = if metadata.extended.enabled {
        extended_bytes(metadata.extended)
    } else {
        Seq::empty()
    };
    seq![0xbcu8, mode_byte(metadata), status_byte(metadata, compression is Some)] + (levels + (sent + extended))
}

proof fn lemma_two_byte_bits(first: u8, second: u8)
    ensures
        bits_of(seq![first, second]) == value_bits(first as nat, 8) + value_bits(second as nat, 8),
{
    lemma_byte_bits(first);
    lemma_byte_bits(second);
    lemma_bits_of_concat(seq![first], seq![second]);
    assert(seq![first, second] =~= seq![first] + seq![second]);
}

/// The bits of the ancillary payload are those of its bytes.
proof fn lemma_ancillary_bytes(metadata: EncoderMetadata, compression_gain_q16: Option<i32>)
    ensures
        bits_of(ancillary_bytes(metadata, metadata.sent_compression(compression_gain_q16)))
            == metadata.ancillary_bits(compression_gain_q16),
{
    let none = Seq::<u8>::empty();
    assert(bits_of(none) =~= Seq::<bool>::empty());
    let compression = metadata.sent_compression(compression_gain_q16);
    let levels = if metadata.etsi_downmix_levels_present {
        seq![level_byte(metadata)]
    } else {
        none
    };
    let sent = match compression {
        Some(gain) => seq![1u8, compression_step(gain as int) as u8],
        None => none,
    };
    let extended = if metadata.extended.enabled {
        extended_bytes(metadata.extended)
    } else {
        none
    };
    let modes = seq![0xbcu8, mode_byte(metadata)];
    let status = seq![status_byte(metadata, compression is Some)];
    lemma_mode_bytes(metadata);
    lemma_two_byte_bits(0xbc, mode_byte(metadata));
    lemma_status_byte(metadata, compression);
    lemma_byte_bits(status[0]);
    if metadata.etsi_downmix_levels_present {
        lemma_byte_bits(levels[0]);
    }
    assert(bits_of(levels) == downmix_bits(
        metadata.etsi_downmix_levels_present,
        metadata.center_mix_level,
        metadata.surround_mix_level,
    ));
    match compression {
        Some(gain) => {
            lemma_nearest_compression_gain(gain);
            lemma_two_byte_bits(1, sent[1]);
        },
        None => {},
    }
    assert(bits_of(sent) == compression_bits(compression));
    if metadata.extended.enabled {
        lemma_extended_bytes(metadata.extended);
    }
    assert(bits_of(extended) == extended_bits(metadata.extended));
    lemma_bits_of_concat(sent, extended);
    lemma_bits_of_concat(levels, sent + extended);
    lemma_bits_of_concat(status, levels + (sent + extended));
    lemma_bits_of_concat(modes, status + (levels + (sent + extended)));
    assert(ancillary_bytes(metadata, compression) =~= modes + (status + (levels + (sent + extended))));
}

proof fn lemma_ancillary_fields(metadata: EncoderMetadata, compressed: bool)
    ensures
        field(mode_byte(metadata), 64, 4) == 3,
        field(mode_byte(metadata), 16, 4) == metadata.dolby_surround_mode % 4,
        field(mode_byte(metadata), 4, 4) == metadata.drc_presentation_mode % 4,
        field(mode_byte(metadata), 1, 4) == 0,
        field(status_byte(metadata, compressed), 32, 8) == 0,
        (field(status_byte(metadata, compressed), 16, 2) == 1) == metadata.etsi_downmix_levels_present,
        (field(status_byte(metadata, compressed), 8, 2) == 1) == metadata.extended.enabled,
        (field(status_byte(metadata, compressed), 4, 2) == 1) == compressed,
        field(status_byte(metadata, compressed), 1, 4) == 0,
        field(level_byte(metadata), 128, 2) == 1,
        field(level_byte(metadata), 16, 8) == metadata.center_mix_level % 8,
        field(level_byte(metadata), 8, 2) == 1,
        field(level_byte(metadata), 1, 8) == metadata.surround_mix_level % 8,
{
}

/// Where the bytes of the ancillary payload stand.
proof fn lemma_ancillary_places(metadata: EncoderMetadata, compression: Option<i32>)
    ensures
        ({
            let bytes = ancillary_bytes(metadata, compression);
            let place = if metadata.etsi_downmix_levels_present {
                4int
            } else {
                3
            };
            let end = if compression is Some {
                place + 2
            } else {
                place
            };
            &&& bytes.len() >= end
            &&& bytes[0] == 0xbc
            &&& bytes[1] == mode_byte(metadata)
            &&& bytes[2] == status_byte(metadata, compression is Some)
            &&& metadata.etsi_downmix_levels_present ==> bytes[3] == level_byte(metadata)
            &&& compression matches Some(gain) ==> bytes[place] == 1 && bytes[place + 1] == compression_step(
                gain as int,
            ) as u8
            &&& metadata.extended.enabled ==> bytes.skip(end) == extended_bytes(metadata.extended)
            &&& !metadata.extended.enabled ==> bytes.len() == end
        }),
{
    let bytes = ancillary_bytes(metadata, compression);
    let place = if metadata.etsi_downmix_levels_present {
        4int
    } else {
        3
    };
    let end = if compression is Some {
        place + 2
    } else {
        place
    };
    if metadata.extended.enabled {
        assert(bytes.skip(end) =~= extended_bytes(metadata.extended));
    }
}

/// A receiver finds the settings at their places in the ancillary payload: the
/// modes, the flags of what follows, the centre level above the surround level,
/// the code of the compression gain, and the extended settings.
pub proof fn lemma_ancillary_layout(metadata: EncoderMetadata, compression_gain_q16: Option<i32>, payload: Seq<u8>)
    requires
        bits_of(payload) == metadata.ancillary_bits(compression_gain_q16),
    ensures
        ({
            let compressed = metadata.compression_profile != MetadataDrcProfile::NotPresent && compression_gain_q16
                is Some;
            let compression = if metadata.etsi_downmix_levels_present {
                4int
            } else {
                3
            };
            let extended = if compressed {
                compression + 2
            } else {
                compression
            };
            &&& payload.len() >= extended
            &&& payload[0] == 0xbc
            &&& field(payload[1], 64, 4) == 3
            &&& field(payload[1], 16, 4) == metadata.dolby_surround_mode % 4
            &&& field(payload[1], 4, 4) == metadata.drc_presentation_mode % 4
            &&& field(payload[1], 1, 4) == 0
            &&& field(payload[2], 32, 8) == 0
            &&& (field(payload[2], 16, 2) == 1) == metadata.etsi_downmix_levels_present
            &&& (field(payload[2], 8, 2) == 1) == metadata.extended.enabled
            &&& (field(payload[2], 4, 2) == 1) == compressed
            &&& field(payload[2], 1, 4) == 0
            &&& metadata.etsi_downmix_levels_present ==> {
                &&& field(payload[3], 128, 2) == 1
                &&& field(payload[3], 16, 8) == metadata.center_mix_level % 8
                &&& field(payload[3], 8, 2) == 1
                &&& field(payload[3], 1, 8) == metadata.surround_mix_level % 8
            }
            &&& compressed ==> payload[compression] == 1 && payload[compression + 1] == compression_step(
                compression_gain_q16->0 as int,
            )
            &&& metadata.extended.enabled ==> holds_extended(payload.skip(extended), metadata.extended)
            &&& !metadata.extended.enabled ==> payload.len() == extended
        }),
{
    let compression = metadata.sent_compression(compression_gain_q16);
    let bytes = ancillary_bytes(metadata, compression);
    lemma_ancillary_bytes(metadata, compression_gain_q16);
    lemma_same_bits(payload, bytes);
    lemma_ancillary_fields(metadata, compression is Some);
    lemma_ancillary_places(metadata, compression);
    let place = if metadata.etsi_downmix_levels_present {
        4int
    } else {
        3
    };
    let end = if compression is Some {
        place + 2
    } else {
        place
    };
    match compression {
        Some(gain) => lemma_nearest_compression_gain(gain),
        None => {},
    }
    if metadata.extended.enabled {
        let extended = extended_bytes(metadata.extended);
        assert(payload.skip(end) == extended);
        lemma_extended_bytes(metadata.extended);
        lemma_extended_layout(metadata.extended, extended);
    }
}

/// The bytes of the payload of dynamic range control.
spec fn dynamic_range_bytes(metadata: EncoderMetadata, gain_q16: i32) -> Seq<u8> {
    let gain = 128 * flag_value(gain_q16 < 0) + gain_size(gain_q16 as int);
    match metadata.program_reference_level {
        Some(level) => {
            let number = program_level(level as int);
            seq![
                (16 + number / 8) as u8,
                (32 * (number % 8) + gain / 16) as u8,
                (16 * (gain % 16)) as u8,
            ]
        },
        None => seq![(gain / 16) as u8, (16 * (gain % 16)) as u8],
    }
}

/// Four bits and four bits make a byte.
proof fn lemma_two_halves(high: nat, low: nat)
    requires
        high < 16,
        low < 16,
    ensures
        value_bits(high, 4) + value_bits(low, 4) == bits_of(seq![(16 * high + low) as u8]),
{
    lemma2_to64();
    lemma_joined_fields(high, 4, low, 4);
    lemma_byte_bits((16 * high + low) as u8);
}

/// Eight bits are four bits and four bits.
proof fn lemma_halved(value: nat)
    ensures
        value_bits(value, 8) == value_bits(value / 16, 4) + value_bits(value % 16, 4),
{
    lemma2_to64();
    lemma_joined_fields(value / 16, 4, value % 16, 4);
}

proof fn lemma_gain_halves(gain_q16: i32)
    ensures
        ({
            let gain = 128 * flag_value(gain_q16 < 0) + gain_size(gain_q16 as int) as nat;
            &&& gain < 256
            &&& gain_bits(gain_q16) == value_bits(gain / 16, 4) + value_bits(gain % 16, 4)
        }),
{
    lemma2_to64();
    lemma_nearest_gain_size(gain_q16);
    lemma_flag_field(gain_q16 < 0);
    lemma_joined_fields(flag_value(gain_q16 < 0), 1, gain_size(gain_q16 as int) as nat, 7);
    lemma_halved(128 * flag_value(gain_q16 < 0) + gain_size(gain_q16 as int) as nat);
}

proof fn lemma_level_halves(level: i32)
    ensures
        ({
            let number = program_level(level as int) as nat;
            &&& number < 128
            &&& level_bits(Some(level)) == value_bits(number / 8, 4) + value_bits(2 * (number % 8), 4)
        }),
{
    lemma2_to64();
    lemma_nearest_program_level(level);
    let number = program_level(level as int) as nat;
    lemma_flag_field(false);
    lemma_joined_fields(number, 7, 0, 1);
    lemma_halved(2 * number);
}

proof fn lemma_present_half(present: bool)
    ensures
        seq![false, false, false, present] == value_bits(flag_value(present), 4),
{
    let value = flag_value(present);
    reveal_with_fuel(value_bits, 5);
    assert(value_bits(value, 4) =~= seq![false, false, false, present]);
}

proof fn lemma_filler(len: nat)
    requires
        len == 12 || len == 20,
    ensures
        padding(len) == value_bits(0, 4),
{
    reveal_with_fuel(value_bits, 5);
    assert(padding(len) =~= value_bits(0, 4));
}

/// The bits of the payload of dynamic range control are those of its bytes.
proof fn lemma_dynamic_range_bytes(metadata: EncoderMetadata, gain_q16: i32)
    ensures
        ({
            let bits = metadata.dynamic_range_bits(gain_q16);
            bits_of(dynamic_range_bytes(metadata, gain_q16)) == bits + padding(bits.len())
        }),
{
    let bits = metadata.dynamic_range_bits(gain_q16);
    let bytes = dynamic_range_bytes(metadata, gain_q16);
    let gain = 128 * flag_value(gain_q16 < 0) + gain_size(gain_q16 as int) as nat;
    let present = metadata.program_reference_level is Some;
    lemma_gain_halves(gain_q16);
    lemma_present_half(present);
    let head = value_bits(flag_value(present), 4);
    let high = value_bits(gain / 16, 4);
    let low = value_bits(gain % 16, 4);
    let filler = value_bits(0, 4);
    lemma_value_bits_len(flag_value(present), 4);
    lemma_value_bits_len(gain / 16, 4);
    lemma_value_bits_len(gain % 16, 4);
    lemma_value_bits_len(0, 4);
    lemma_two_halves(gain % 16, 0);
    match metadata.program_reference_level {
        Some(level) => {
            lemma_level_halves(level);
            let number = program_level(level as int) as nat;
            let upper = value_bits(number / 8, 4);
            let lower = value_bits(2 * (number % 8), 4);
            lemma_value_bits_len(number / 8, 4);
            lemma_value_bits_len(2 * (number % 8), 4);
            lemma_two_halves(1, number / 8);
            lemma_two_halves(2 * (number % 8), gain / 16);
            assert(bits.len() == 20);
            lemma_filler(20);
            lemma_bits_of_concat(seq![bytes[0]], seq![bytes[1]]);
            lemma_bits_of_concat(seq![bytes[0]] + seq![bytes[1]], seq![bytes[2]]);
            assert(bytes =~= seq![bytes[0]] + seq![bytes[1]] + seq![bytes[2]]);
            assert((head + upper) + (lower + high) + (low + filler) =~= head + ((upper + lower) + (high + low)) + filler);
        },
        None => {
            lemma_two_halves(0, gain / 16);
            assert(bits =~= head + (high + low));
            assert(bits.len() == 12);
            lemma_filler(12);
            lemma_bits_of_concat(seq![bytes[0]], seq![bytes[1]]);
            assert(bytes =~= seq![bytes[0]] + seq![bytes[1]]);
            assert((head + high) + (low + filler) =~= head + (high + low) + filler);
        },
    }
}

proof fn lemma_gain_fields(negative: bool, size: int, upper: int, first: u8, second: u8)
    requires
        0 <= size <= 127,
        0 <= upper < 16,
        first == 16 * upper + (128 * flag_value(negative) + size) / 16,
        second == 16 * ((128 * flag_value(negative) + size) % 16),
    ensures
        (field(first, 8, 2) == 1) == negative,
        16 * field(first, 1, 8) + field(second, 16, 16) == size,
        field(second, 1, 16) == 0,
        upper == 0 ==> field(first, 32, 8) == 0 && field(first, 16, 2) == 0,
{
    let flag = flag_value(negative) as int;
    let high = size / 16;
    assert((128 * flag + size) / 16 == 8 * flag + high);
    assert((128 * flag + size) % 16 == size % 16);
    assert(0 <= high < 8);
    assert(first == 16 * upper + 8 * flag + high);
    assert(first as int / 8 == 2 * upper + flag);
    assert(first as int % 8 == high);
    assert(second as int / 16 == size % 16 && second as int % 16 == 0);
}

proof fn lemma_level_fields(number: int, first: u8, second: u8)
    requires
        0 <= number <= 127,
        first == 16 + number / 8,
        32 * (number % 8) <= second < 32 * (number % 8) + 16,
    ensures
        field(first, 32, 8) == 0,
        field(first, 16, 2) == 1,
        8 * field(first, 1, 16) + field(second, 32, 8) == number,
        field(second, 16, 2) == 0,
{
}

/// A receiver finds the settings at their places in the payload of dynamic range
/// control: the program reference level in the upper bits of a byte of its own,
/// where there is one, and the sign of the gain in front of its size.
pub proof fn lemma_dynamic_range_layout(metadata: EncoderMetadata, gain_q16: i32, payload: Seq<u8>)
    requires
        ({
            let bits = metadata.dynamic_range_bits(gain_q16);
            bits_of(payload) == bits + padding(bits.len())
        }),
    ensures
        ({
            let last = if metadata.program_reference_level is Some {
                2int
            } else {
                1
            };
            &&& payload.len() == last + 1
            &&& field(payload[0], 32, 8) == 0
            &&& (field(payload[0], 16, 2) == 1) == (metadata.program_reference_level is Some)
            &&& metadata.program_reference_level matches Some(level) ==> 8 * field(payload[0], 1, 16) + field(
                payload[1],
                32,
                8,
            ) == program_level(level as int) && field(payload[1], 16, 2) == 0
            &&& (field(payload[last - 1], 8, 2) == 1) == (gain_q16 < 0)
            &&& 16 * field(payload[last - 1], 1, 8) + field(payload[last], 16, 16) == gain_size(gain_q16 as int)
            &&& field(payload[last], 1, 16) == 0
        }),
{
    lemma_dynamic_range_bytes(metadata, gain_q16);
    lemma_same_bits(payload, dynamic_range_bytes(metadata, gain_q16));
    lemma_nearest_gain_size(gain_q16);
    let size = gain_size(gain_q16 as int);
    match metadata.program_reference_level {
        Some(level) => {
            lemma_nearest_program_level(level);
            let number = program_level(level as int);
            lemma_level_fields(number, payload[0], payload[1]);
            lemma_gain_fields(gain_q16 < 0, size, 2 * (number % 8), payload[1], payload[2]);
        },
        None => {
            lemma_gain_fields(gain_q16 < 0, size, 0, payload[0], payload[1]);
        },
    }
}

} // verus!

//! Time grids of a frame and the directions in which values are sent.

use vstd::arithmetic::power2::lemma2_to64;
use vstd::prelude::*;

use crate::bits::{BitCursor, BitReader};

use super::error::LdSbrError;

verus! {

/// How a frame is cut into envelopes.
#[derive(Debug, PartialEq, Eq)]
pub struct LdSbrGrid {
    pub transient: bool,
    pub amp_resolution: Option<bool>,
    pub borders: Vec<u8>,
    pub frequency_resolution: Vec<bool>,
    pub transient_envelope: Option<usize>,
    pub noise_borders: Vec<u8>,
}

/// A grid with its borders as sequences.
pub struct GridFields {
    pub transient: bool,
    pub amp_resolution: Option<bool>,
    pub borders: Seq<u8>,
    pub frequency_resolution: Seq<bool>,
    pub transient_envelope: Option<usize>,
    pub noise_borders: Seq<u8>,
}

impl View for LdSbrGrid {
    type V = GridFields;

    open spec fn view(&self) -> GridFields {
        GridFields {
            transient: self.transient,
            amp_resolution: self.amp_resolution,
            borders: self.borders@,
            frequency_resolution: self.frequency_resolution@,
            transient_envelope: self.transient_envelope,
            noise_borders: self.noise_borders@,
        }
    }
}

impl Clone for LdSbrGrid {
    fn clone(&self) -> (copy: LdSbrGrid)
        ensures
            copy@ == self@,
    {
        let borders = self.borders.clone();
        let frequency_resolution = self.frequency_resolution.clone();
        let noise_borders = self.noise_borders.clone();
        assert(borders@ =~= self.borders@ && frequency_resolution@ =~= self.frequency_resolution@ && noise_borders@
            =~= self.noise_borders@);
        LdSbrGrid {
            transient: self.transient,
            amp_resolution: self.amp_resolution,
            borders,
            frequency_resolution,
            transient_envelope: self.transient_envelope,
            noise_borders,
        }
    }
}

/// A grid with the direction of each of its envelopes.
#[derive(Debug, PartialEq, Eq)]
pub struct LdSbrChannelControl {
    pub grid: LdSbrGrid,
    pub envelope_time_domain: Vec<bool>,
    pub noise_time_domain: Vec<bool>,
}

/// A control with its flags as sequences.
pub struct ControlFields {
    pub grid: GridFields,
    pub envelope_time_domain: Seq<bool>,
    pub noise_time_domain: Seq<bool>,
}

impl View for LdSbrChannelControl {
    type V = ControlFields;

    open spec fn view(&self) -> ControlFields {
        ControlFields {
            grid: self.grid@,
            envelope_time_domain: self.envelope_time_domain@,
            noise_time_domain: self.noise_time_domain@,
        }
    }
}

impl Clone for LdSbrChannelControl {
    fn clone(&self) -> (copy: LdSbrChannelControl)
        ensures
            copy@ == self@,
    {
        let envelope_time_domain = self.envelope_time_domain.clone();
        let noise_time_domain = self.noise_time_domain.clone();
        assert(envelope_time_domain@ =~= self.envelope_time_domain@ && noise_time_domain@ =~= self.noise_time_domain@);
        LdSbrChannelControl { grid: self.grid.clone(), envelope_time_domain, noise_time_domain }
    }
}

/// The part of a channel element that precedes the values.
#[derive(Debug, PartialEq, Eq)]
pub struct LdSbrChannelElementPrefix {
    pub data_extra: Option<(u8, Option<u8>)>,
    pub coupling: bool,
    pub left: LdSbrChannelControl,
    pub right: Option<LdSbrChannelControl>,
}

/// A prefix with its controls as sequences.
pub struct PrefixFields {
    pub data_extra: Option<(u8, Option<u8>)>,
    pub coupling: bool,
    pub left: ControlFields,
    pub right: Option<ControlFields>,
}

impl View for LdSbrChannelElementPrefix {
    type V = PrefixFields;

    open spec fn view(&self) -> PrefixFields {
        PrefixFields {
            data_extra: self.data_extra,
            coupling: self.coupling,
            left: self.left@,
            right: match self.right {
                Some(control) => Some(control@),
                None => None,
            },
        }
    }
}

impl Clone for LdSbrChannelElementPrefix {
    fn clone(&self) -> (copy: LdSbrChannelElementPrefix)
        ensures
            copy@ == self@,
    {
        LdSbrChannelElementPrefix {
            data_extra: self.data_extra,
            coupling: self.coupling,
            left: self.left.clone(),
            right: match &self.right {
                Some(control) => Some(control.clone()),
                None => None,
            },
        }
    }
}

// ---------------------------------------------------------------------------
// Grids
// ---------------------------------------------------------------------------

/// Whether a frame has a number of time slots for which grids are defined.
pub open spec fn supported_slots(time_slots: u8) -> bool {
    time_slots == 15 || time_slots == 16
}

/// The last transient position behind which there is room for a third envelope.
pub open spec fn last_three_position(time_slots: u8) -> u8 {
    if time_slots == 15 {
        9
    } else {
        10
    }
}

/// The borders of a frame with a transient: four slots from the transient on are
/// an envelope of their own, as far as the frame has them.
pub open spec fn transient_borders(time_slots: u8, position: u8) -> Seq<u8> {
    if position < 2 {
        seq![0u8, (position + 4) as u8, time_slots]
    } else if position <= last_three_position(time_slots) {
        seq![0u8, position, (position + 4) as u8, time_slots]
    } else {
        seq![0u8, position, time_slots]
    }
}

/// The envelope that starts with the transient.
pub open spec fn transient_envelope(position: u8) -> usize {
    if position < 2 {
        0
    } else {
        1
    }
}

/// The slots of each of `count` envelopes of equal length, the count taken as a
/// byte. More than sixteen envelopes have no slots.
pub open spec fn equal_step(count: int) -> int {
    16int / (count % 256)
}

/// The borders of `count` envelopes of equal length, the last one as long as the
/// frame has slots. An envelope's index is taken as a byte.
pub open spec fn equal_borders(time_slots: u8, count: int) -> Seq<u8> {
    Seq::new(
        (count + 1) as nat,
        |i: int|
            if i < count {
                ((i % 256) * equal_step(count)) as u8
            } else {
                time_slots
            },
    )
}

/// Parsing of the envelopes of a frame with a transient.
pub open spec fn parse_transient_grid(time_slots: u8, cursor: BitCursor) -> (Result<GridFields, LdSbrError>, BitCursor) {
    match cursor.read(4) {
        (Err(_), next) => (Err(LdSbrError::UnexpectedEof), next),
        (Ok(position), next) => if position >= time_slots {
            (Err(LdSbrError::InvalidTransientPosition { position: position as u8, time_slots }), next)
        } else {
            let borders = transient_borders(time_slots, position as u8);
            match next.read_flags(borders.len() - 1) {
                (Err(_), behind) => (Err(LdSbrError::UnexpectedEof), behind),
                (Ok(resolution), behind) => (
                    Ok(
                        GridFields {
                            transient: true,
                            amp_resolution: None,
                            borders,
                            frequency_resolution: resolution,
                            transient_envelope: Some(transient_envelope(position as u8)),
                            noise_borders: seq![0u8, borders[1], time_slots],
                        },
                    ),
                    behind,
                ),
            }
        },
    }
}

/// The grid of equal envelopes.
pub open spec fn equal_grid(time_slots: u8, count: int, amp_resolution: Option<bool>, resolution: bool) -> GridFields {
    GridFields {
        transient: false,
        amp_resolution,
        borders: equal_borders(time_slots, count),
        frequency_resolution: Seq::new(count as nat, |i: int| resolution),
        transient_envelope: None,
        noise_borders: if count == 1 {
            seq![0u8, time_slots]
        } else {
            seq![0u8, 8u8, time_slots]
        },
    }
}

/// Parsing of the envelopes of a frame without a transient.
pub open spec fn parse_equal_grid(time_slots: u8, cursor: BitCursor) -> (Result<GridFields, LdSbrError>, BitCursor) {
    match cursor.read(2) {
        (Err(_), next) => (Err(LdSbrError::UnexpectedEof), next),
        (Ok(exponent), next) => if exponent == 3 {
            (Err(LdSbrError::TooManyEnvelopes(8)), next)
        } else if exponent == 0 {
            match next.read_flag() {
                (Err(_), c1) => (Err(LdSbrError::UnexpectedEof), c1),
                (Ok(amp), c1) => match c1.read_flag() {
                    (Err(_), c2) => (Err(LdSbrError::UnexpectedEof), c2),
                    (Ok(resolution), c2) => (Ok(equal_grid(time_slots, 1, Some(amp), resolution)), c2),
                },
            }
        } else {
            match next.read_flag() {
                (Err(_), c1) => (Err(LdSbrError::UnexpectedEof), c1),
                (Ok(resolution), c1) => (
                    Ok(equal_grid(time_slots, if exponent == 1 { 2 } else { 4 }, None, resolution)),
                    c1,
                ),
            }
        },
    }
}

/// Parsing of a grid.
#[verifier::opaque]
pub open spec fn parse_grid(time_slots: u8, cursor: BitCursor) -> (Result<GridFields, LdSbrError>, BitCursor) {
    if !supported_slots(time_slots) {
        (Err(LdSbrError::UnsupportedTimeSlots(time_slots)), cursor)
    } else {
        match cursor.read_flag() {
            (Err(_), next) => (Err(LdSbrError::UnexpectedEof), next),
            (Ok(transient), next) => if transient {
                parse_transient_grid(time_slots, next)
            } else {
                parse_equal_grid(time_slots, next)
            },
        }
    }
}

/// Whether a grid has one resolution for each envelope and at most four of them.
pub open spec fn grid_valid(grid: GridFields) -> bool {
    &&& 1 <= grid.frequency_resolution.len() <= 4
    &&& grid.borders.len() == grid.frequency_resolution.len() + 1
    &&& 2 <= grid.noise_borders.len() <= 3
}

/// Whether the borders of a grid rise from the start to the end of its frame.
pub open spec fn borders_rise(borders: Seq<u8>, time_slots: u8) -> bool {
    &&& borders[0] == 0
    &&& borders.last() == time_slots
    &&& forall|i: int, j: int| 0 <= i < j < borders.len() ==> borders[i] < borders[j]
}

/// A parsed grid is valid: its borders rise from the start to the end of the
/// frame, the noise borders among them.
pub proof fn lemma_parsed_grid_valid(time_slots: u8, cursor: BitCursor)
    requires
        0 <= cursor.pos <= cursor.bits.len(),
    ensures
        parse_grid(time_slots, cursor).0 matches Ok(grid) ==> grid_valid(grid) && borders_rise(grid.borders, time_slots)
            && borders_rise(grid.noise_borders, time_slots),
{
    reveal(parse_grid);
    match parse_grid(time_slots, cursor).0 {
        Ok(grid) => {
            assert(grid_valid(grid));
            if grid.transient {
            } else {
                let count = grid.frequency_resolution.len() as int;
                assert(count == 1 || count == 2 || count == 4);
                assert(equal_borders(time_slots, 1) =~= seq![0u8, time_slots]);
                assert(1int % 256 == 1 && 2int % 256 == 2 && 3int % 256 == 3 && 4int % 256 == 4);
                assert(16int / 2 == 8 && 16int / 4 == 4);
                assert(equal_step(2) == 8 && equal_step(4) == 4);
                assert(equal_borders(time_slots, 2)[1] == 8);
                assert(equal_borders(time_slots, 2) =~= seq![0u8, 8u8, time_slots]);
                assert(16int / 4 == 4 && 1 * 4int == 4 && 2 * 4int == 8 && 3 * 4int == 12);
                assert(equal_borders(time_slots, 4)[1] == 4);
                assert(equal_borders(time_slots, 4)[2] == 8);
                assert(equal_borders(time_slots, 4)[3] == 12);
                assert(equal_borders(time_slots, 4) =~= seq![0u8, 4u8, 8u8, 12u8, time_slots]);
            }
        },
        Err(_) => {},
    }
}

/// A byte taken as a signed number.
pub open spec fn signed_byte(byte: u8) -> i8 {
    if byte < 128 {
        byte as i8
    } else {
        (byte - 256) as i8
    }
}

/// The row of the transient grid table: the number of envelopes, the envelope of
/// the transient, the noise border's envelope and the inner borders.
pub fn transient_row(time_slots: u8, position: u8) -> (row: [i8; 6])
    ensures
        row@ == (if position < 2 {
            seq![2i8, 0i8, 0i8, (position + 4) as i8, -1i8, -1i8]
        } else if position <= last_three_position(time_slots) {
            seq![3i8, 1i8, 1i8, position as i8, (position + 4) as i8, -1i8]
        } else {
            seq![2i8, 1i8, 1i8, signed_byte(position), -1i8, -1i8]
        }),
{
    let p: i8 = if position < 128 {
        position as i8
    } else {
        (position as i16 - 256) as i8
    };
    let last: u8 = if time_slots == 15 {
        9
    } else {
        10
    };
    let row: [i8; 6] = if position < 2 {
        [2, 0, 0, p + 4, -1, -1]
    } else if position <= last {
        [3, 1, 1, p, p + 4, -1]
    } else {
        [2, 1, 1, p, -1, -1]
    };
    assert(row@ =~= (if position < 2 {
        seq![2i8, 0i8, 0i8, (position + 4) as i8, -1i8, -1i8]
    } else if position <= last_three_position(time_slots) {
        seq![3i8, 1i8, 1i8, position as i8, (position + 4) as i8, -1i8]
    } else {
        seq![2i8, 1i8, 1i8, signed_byte(position), -1i8, -1i8]
    }));
    row
}

/// The borders of envelopes of equal length. The count is no multiple of 256, and
/// the borders of more than 256 envelopes fit in a byte.
pub fn fixed_borders(time_slots: u8, count: usize) -> (borders: Vec<u8>)
    requires
        count % 256 != 0,
        count > 256 ==> equal_step(count as int) <= 1,
    ensures
        borders@ == equal_borders(time_slots, count as int),
{
    let part: usize = count % 256;
    let step: usize = 16 / part;
    let ghost wanted = equal_borders(time_slots, count as int);
    let mut borders: Vec<u8> = Vec::new();
    while borders.len() < count
        invariant
            borders@.len() <= count,
            1 <= part < 256,
            part == count % 256,
            step == equal_step(count as int) == 16int / (part as int),
            count > 256 ==> step <= 1,
            wanted == equal_borders(time_slots, count as int),
            forall|i: int| 0 <= i < borders@.len() ==> #[trigger] borders@[i] == wanted[i],
        decreases count - borders@.len(),
    {
        let place: usize = borders.len() % 256;
        assert(place * step < 256) by (nonlinear_arith)
            requires
                place < 256,
                0 <= step,
                step <= 1 || place < part,
                part >= 1,
                step == 16int / (part as int),
        ;
        let border: usize = place * step;
        borders.push(border as u8);
    }
    borders.push(time_slots);
    assert(borders@ =~= wanted);
    borders
}

impl LdSbrGrid {
    /// Parses a grid.
    pub fn parse(reader: &mut BitReader<'_>, time_slots: u8) -> (result: Result<LdSbrGrid, LdSbrError>)
        ensures
            final(reader)@ == parse_grid(time_slots, old(reader)@).1,
            match parse_grid(time_slots, old(reader)@).0 {
                Ok(grid) => result matches Ok(found) && found@ == grid && grid_valid(grid),
                Err(error) => result matches Err(found) && found == error,
            },
            old(reader)@.leads_to(final(reader)@),
    {
        proof {
            reveal(parse_grid);
        }
        proof {
            lemma2_to64();
        }
        let _ = reader.bits_read();
        if time_slots != 15 && time_slots != 16 {
            return Err(LdSbrError::UnsupportedTimeSlots(time_slots));
        }
        let transient: bool = match reader.read_bool() {
            Ok(flag) => flag,
            Err(_) => {
                return Err(LdSbrError::UnexpectedEof);
            },
        };
        if transient {
            let position: u8 = match reader.read_u8(4) {
                Ok(position) => position,
                Err(_) => {
                    return Err(LdSbrError::UnexpectedEof);
                },
            };
            if position >= time_slots {
                return Err(LdSbrError::InvalidTransientPosition { position, time_slots });
            }
            let row: [i8; 6] = transient_row(time_slots, position);
            let envelope_count: usize = row[0] as usize;
            let envelope: usize = row[1] as usize;
            let mut borders: Vec<u8> = Vec::new();
            borders.push(0);
            borders.push(row[3] as u8);
            if envelope_count > 2 {
                borders.push(row[4] as u8);
            }
            borders.push(time_slots);
            assert(borders@ =~= transient_borders(time_slots, position));
            let frequency_resolution: Vec<bool> = match reader.read_flags(envelope_count) {
                Ok(flags) => flags,
                Err(_) => {
                    return Err(LdSbrError::UnexpectedEof);
                },
            };
            let middle: u8 = borders[if envelope == 0 {
                1
            } else {
                envelope
            }];
            let noise_borders: Vec<u8> = vec![0, middle, time_slots];
            assert(noise_borders@ =~= seq![0u8, borders@[1], time_slots]);
            Ok(
                LdSbrGrid {
                    transient,
                    amp_resolution: None,
                    borders,
                    frequency_resolution,
                    transient_envelope: Some(envelope),
                    noise_borders,
                },
            )
        } else {
            let exponent: u8 = match reader.read_u8(2) {
                Ok(exponent) => exponent,
                Err(_) => {
                    return Err(LdSbrError::UnexpectedEof);
                },
            };
            let envelope_count: usize = if exponent == 0 {
                1
            } else if exponent == 1 {
                2
            } else if exponent == 2 {
                4
            } else {
                8
            };
            if envelope_count > 4 {
                return Err(LdSbrError::TooManyEnvelopes(envelope_count));
            }
            let amp_resolution: Option<bool> = if envelope_count == 1 {
                match reader.read_bool() {
                    Ok(flag) => Some(flag),
                    Err(_) => {
                        return Err(LdSbrError::UnexpectedEof);
                    },
                }
            } else {
                None
            };
            let resolution: bool = match reader.read_bool() {
                Ok(flag) => flag,
                Err(_) => {
                    return Err(LdSbrError::UnexpectedEof);
                },
            };
            let borders: Vec<u8> = fixed_borders(time_slots, envelope_count);
            let noise_borders: Vec<u8> = if envelope_count == 1 {
                vec![0, time_slots]
            } else {
                vec![0, 8, time_slots]
            };
            let frequency_resolution: Vec<bool> = vec![resolution; envelope_count];
            proof {
                let wanted = equal_grid(time_slots, envelope_count as int, amp_resolution, resolution);
                assert(noise_borders@ =~= wanted.noise_borders);
                assert(frequency_resolution@ =~= wanted.frequency_resolution);
            }
            Ok(
                LdSbrGrid {
                    transient,
                    amp_resolution,
                    borders,
                    frequency_resolution,
                    transient_envelope: None,
                    noise_borders,
                },
            )
        }
    }

    /// The number of envelopes.
    pub fn envelope_count(&self) -> (count: usize)
        ensures
            count == self.frequency_resolution@.len(),
    {
        self.frequency_resolution.len()
    }

    /// The number of noise envelopes.
    pub fn noise_envelope_count(&self) -> (count: usize)
        requires
            self.noise_borders@.len() >= 1,
        ensures
            count == self.noise_borders@.len() - 1,
    {
        self.noise_borders.len() - 1
    }
}

// ---------------------------------------------------------------------------
// Directions
// ---------------------------------------------------------------------------

/// Reading the directions of the envelopes of a grid, then those of its noise
/// envelopes.
#[verifier::opaque]
pub open spec fn parse_control(grid: GridFields, cursor: BitCursor) -> (Result<ControlFields, LdSbrError>, BitCursor) {
    match cursor.read_flags(grid.frequency_resolution.len() as int) {
        (Err(_), next) => (Err(LdSbrError::UnexpectedEof), next),
        (Ok(envelopes), next) => match next.read_flags(grid.noise_borders.len() - 1) {
            (Err(_), behind) => (Err(LdSbrError::UnexpectedEof), behind),
            (Ok(noise), behind) => (
                Ok(ControlFields { grid, envelope_time_domain: envelopes, noise_time_domain: noise }),
                behind,
            ),
        },
    }
}

/// Whether a control has one direction for each envelope of a valid grid.
pub open spec fn control_valid(control: ControlFields) -> bool {
    &&& grid_valid(control.grid)
    &&& control.envelope_time_domain.len() == control.grid.frequency_resolution.len()
    &&& control.noise_time_domain.len() == control.grid.noise_borders.len() - 1
}

/// Reads the directions of a grid's envelopes. A grid whose noise directions are
/// reached has a noise border.
pub fn read_channel_control(reader: &mut BitReader<'_>, grid: LdSbrGrid) -> (result: Result<
    LdSbrChannelControl,
    LdSbrError,
>)
    requires
        old(reader)@.read_flags(grid@.frequency_resolution.len() as int).0 is Ok ==> grid@.noise_borders.len() >= 1,
    ensures
        final(reader)@ == parse_control(grid@, old(reader)@).1,
        match parse_control(grid@, old(reader)@).0 {
            Ok(control) => result matches Ok(found) && found@ == control && control.grid == grid@ && (grid_valid(grid@)
                ==> control_valid(control)),
            Err(error) => result matches Err(found) && found == error,
        },
        old(reader)@.leads_to(final(reader)@),
{
    proof {
        reveal(parse_control);
    }
    let _ = reader.bits_read();
    let envelope_time_domain: Vec<bool> = match reader.read_flags(grid.envelope_count()) {
        Ok(flags) => flags,
        Err(_) => {
            return Err(LdSbrError::UnexpectedEof);
        },
    };
    let noise_time_domain: Vec<bool> = match reader.read_flags(grid.noise_envelope_count()) {
        Ok(flags) => flags,
        Err(_) => {
            return Err(LdSbrError::UnexpectedEof);
        },
    };
    Ok(LdSbrChannelControl { grid, envelope_time_domain, noise_time_domain })
}

/// Reading the extra data of a channel element: four bits for each channel.
#[verifier::opaque]
pub open spec fn parse_data_extra(stereo: bool, cursor: BitCursor) -> (
    Result<Option<(u8, Option<u8>)>, LdSbrError>,
    BitCursor,
) {
    match cursor.read_flag() {
        (Err(_), c1) => (Err(LdSbrError::UnexpectedEof), c1),
        (Ok(present), c1) => if !present {
            (Ok(None), c1)
        } else {
            match c1.read(4) {
                (Err(_), c2) => (Err(LdSbrError::UnexpectedEof), c2),
                (Ok(left), c2) => if !stereo {
                    (Ok(Some((left as u8, None))), c2)
                } else {
                    match c2.read(4) {
                        (Err(_), c3) => (Err(LdSbrError::UnexpectedEof), c3),
                        (Ok(right), c3) => (Ok(Some((left as u8, Some(right as u8)))), c3),
                    }
                },
            }
        },
    }
}

/// Parsing of a single channel's prefix behind the extra data.
pub open spec fn parse_mono_prefix(
    data_extra: Option<(u8, Option<u8>)>,
    time_slots: u8,
    cursor: BitCursor,
) -> (Result<PrefixFields, LdSbrError>, BitCursor) {
    match parse_grid(time_slots, cursor) {
        (Err(error), c1) => (Err(error), c1),
        (Ok(grid), c1) => match parse_control(grid, c1) {
            (Err(error), c2) => (Err(error), c2),
            (Ok(left), c2) => (Ok(PrefixFields { data_extra, coupling: false, left, right: None }), c2),
        },
    }
}

/// Parsing of the controls of a channel pair whose grids are known.
pub open spec fn parse_pair_controls(
    data_extra: Option<(u8, Option<u8>)>,
    coupling: bool,
    left_grid: GridFields,
    right_grid: GridFields,
    cursor: BitCursor,
) -> (Result<PrefixFields, LdSbrError>, BitCursor) {
    match parse_control(left_grid, cursor) {
        (Err(error), c1) => (Err(error), c1),
        (Ok(left), c1) => match parse_control(right_grid, c1) {
            (Err(error), c2) => (Err(error), c2),
            (Ok(right), c2) => (Ok(PrefixFields { data_extra, coupling, left, right: Some(right) }), c2),
        },
    }
}

/// Parsing of a channel pair's prefix behind the extra data: coupled channels
/// share one grid.
pub open spec fn parse_pair_prefix(
    data_extra: Option<(u8, Option<u8>)>,
    time_slots: u8,
    cursor: BitCursor,
) -> (Result<PrefixFields, LdSbrError>, BitCursor) {
    match cursor.read_flag() {
        (Err(_), c1) => (Err(LdSbrError::UnexpectedEof), c1),
        (Ok(coupling), c1) => match parse_grid(time_slots, c1) {
            (Err(error), c2) => (Err(error), c2),
            (Ok(left), c2) => if coupling {
                parse_pair_controls(data_extra, true, left, left, c2)
            } else {
                match parse_grid(time_slots, c2) {
                    (Err(error), c3) => (Err(error), c3),
                    (Ok(right), c3) => parse_pair_controls(data_extra, false, left, right, c3),
                }
            },
        },
    }
}

/// Parsing of a channel element's prefix.
#[verifier::opaque]
pub open spec fn parse_prefix(time_slots: u8, stereo: bool, cursor: BitCursor) -> (
    Result<PrefixFields, LdSbrError>,
    BitCursor,
) {
    match parse_data_extra(stereo, cursor) {
        (Err(error), next) => (Err(error), next),
        (Ok(data_extra), next) => if stereo {
            parse_pair_prefix(data_extra, time_slots, next)
        } else {
            parse_mono_prefix(data_extra, time_slots, next)
        },
    }
}

/// Whether the controls of a prefix are valid, with a right channel in a pair.
pub open spec fn prefix_valid(prefix: PrefixFields, stereo: bool) -> bool {
    &&& control_valid(prefix.left)
    &&& prefix.right is Some == stereo
    &&& prefix.right matches Some(right) ==> control_valid(right)
    &&& prefix.coupling ==> stereo && prefix.right->0.grid == prefix.left.grid
}

/// Reads the extra data of a channel element.
fn read_data_extra(reader: &mut BitReader<'_>, stereo: bool) -> (result: Result<Option<(u8, Option<u8>)>, LdSbrError>)
    ensures
        (result, final(reader)@) == parse_data_extra(stereo, old(reader)@),
        old(reader)@.leads_to(final(reader)@),
{
    proof {
        reveal(parse_data_extra);
        lemma2_to64();
    }
    let present: bool = match reader.read_bool() {
        Ok(flag) => flag,
        Err(_) => {
            return Err(LdSbrError::UnexpectedEof);
        },
    };
    if !present {
        return Ok(None);
    }
    let left: u8 = match reader.read_u8(4) {
        Ok(value) => value,
        Err(_) => {
            return Err(LdSbrError::UnexpectedEof);
        },
    };
    if !stereo {
        return Ok(Some((left, None)));
    }
    match reader.read_u8(4) {
        Ok(right) => Ok(Some((left, Some(right)))),
        Err(_) => Err(LdSbrError::UnexpectedEof),
    }
}

impl LdSbrChannelElementPrefix {
    /// Parses a channel element up to the inverse filtering modes.
    pub fn parse(reader: &mut BitReader<'_>, time_slots: u8, stereo: bool) -> (result: Result<
        LdSbrChannelElementPrefix,
        LdSbrError,
    >)
        ensures
            final(reader)@ == parse_prefix(time_slots, stereo, old(reader)@).1,
            match parse_prefix(time_slots, stereo, old(reader)@).0 {
                Ok(prefix) => result matches Ok(found) && found@ == prefix && prefix_valid(prefix, stereo),
                Err(error) => result matches Err(found) && found == error,
            },
            old(reader)@.leads_to(final(reader)@),
    {
        proof {
            reveal(parse_prefix);
        }
        let _ = reader.bits_read();
        let data_extra: Option<(u8, Option<u8>)> = match read_data_extra(reader, stereo) {
            Ok(extra) => extra,
            Err(error) => {
                return Err(error);
            },
        };
        let coupling: bool = if stereo {
            match reader.read_bool() {
                Ok(flag) => flag,
                Err(_) => {
                    return Err(LdSbrError::UnexpectedEof);
                },
            }
        } else {
            false
        };
        let left_grid = match LdSbrGrid::parse(reader, time_slots) {
            Ok(grid) => grid,
            Err(error) => {
                return Err(error);
            },
        };
        let right_grid: Option<LdSbrGrid> = if stereo {
            if coupling {
                Some(left_grid.clone())
            } else {
                match LdSbrGrid::parse(reader, time_slots) {
                    Ok(grid) => Some(grid),
                    Err(error) => {
                        return Err(error);
                    },
                }
            }
        } else {
            None
        };
        let left = match read_channel_control(reader, left_grid) {
            Ok(control) => control,
            Err(error) => {
                return Err(error);
            },
        };
        let right: Option<LdSbrChannelControl> = match right_grid {
            Some(grid) => match read_channel_control(reader, grid) {
                Ok(control) => Some(control),
                Err(error) => {
                    return Err(error);
                },
            },
            None => None,
        };
        Ok(LdSbrChannelElementPrefix { data_extra, coupling, left, right })
    }
}

/// A grid with a transient spans the frame, and the envelope of the transient begins with
/// it and lasts for four slots or, late in the frame, to its end. In the first two slots
/// there is no room in front: the first envelope holds the transient and four slots more.
/// The noise changes with the first inner border.
pub proof fn lemma_transient_grid(time_slots: u8, cursor: BitCursor)
    requires
        supported_slots(time_slots),
        0 <= cursor.pos,
        cursor.read(4).0 is Ok,
        cursor.read(4).0->Ok_0 < time_slots,
        parse_transient_grid(time_slots, cursor).0 is Ok,
    ensures
        ({
            let position = cursor.read(4).0->Ok_0;
            let grid = parse_transient_grid(time_slots, cursor).0->Ok_0;
            let last = grid.borders.len() - 1;
            &&& grid.transient
            &&& grid.borders[0] == 0
            &&& grid.borders[last] == time_slots
            &&& grid.frequency_resolution.len() == last
            &&& grid.transient_envelope matches Some(envelope) && envelope < last && (if position < 2 {
                envelope == 0 && last == 2 && grid.borders[1] == position + 4
            } else {
                &&& envelope == 1
                &&& grid.borders[1] == position
                &&& grid.borders[2] == if position + 5 < time_slots {
                    position + 4
                } else {
                    time_slots as nat
                }
            })
            &&& grid.noise_borders == seq![0u8, grid.borders[1], time_slots]
        }),
{
    let position = cursor.read(4).0->Ok_0;
    let next = cursor.read(4).1;
    let borders = transient_borders(time_slots, position as u8);
    let grid = parse_transient_grid(time_slots, cursor).0->Ok_0;
    assert(grid.borders == borders);
    assert(grid.frequency_resolution == next.bits.subrange(next.pos, next.pos + (borders.len() - 1)));
    assert(grid.frequency_resolution.len() == borders.len() - 1);
}

/// Envelopes of equal length divide sixteen slots evenly, but that the last one ends with
/// the frame; with more than one the noise changes in the middle.
pub proof fn lemma_equal_grid(time_slots: u8, count: int, amp_resolution: Option<bool>, resolution: bool, i: int)
    requires
        supported_slots(time_slots),
        count == 1 || count == 2 || count == 4,
        0 <= i < count,
    ensures
        ({
            let grid = equal_grid(time_slots, count, amp_resolution, resolution);
            &&& grid.borders.len() == count + 1
            &&& grid.borders[i] * count == 16 * i
            &&& grid.borders[count] == time_slots
            &&& grid.frequency_resolution.len() == count
            &&& grid.frequency_resolution[i] == resolution
            &&& grid.noise_borders.len() == if count == 1 {
                2nat
            } else {
                3
            }
            &&& count > 1 ==> grid.noise_borders[1] * 2 == 16
        }),
{
    assert(16int / 1 == 16 && 16int / 2 == 8 && 16int / 4 == 4);
    assert(1int % 256 == 1 && 2int % 256 == 2 && 4int % 256 == 4 && i % 256 == i);
    let border = equal_borders(time_slots, count)[i];
    assert(border == i * (16int / count)) by {
        assert(equal_step(count) == 16int / count);
        assert(0 <= i * (16int / count) <= 16) by (nonlinear_arith)
            requires
                0 <= i < count,
                16int / count == 16 && count == 1 || 16int / count == 8 && count == 2 || 16int / count == 4 && count == 4,
        ;
    }
}

} // verus!

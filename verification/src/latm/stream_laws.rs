//! Many programs and layers in one element: their configurations and their payloads read back.

use vstd::arithmetic::power2::lemma2_to64;
use vstd::prelude::*;

use crate::asc::AscFields;
use crate::bits::{lemma_stands_bit, lemma_stands_field, lemma_stands_split, packed, stands_at, value_bits, BitCursor};

use super::element::{read_data, read_lengths, read_payload_bits, read_subframes, PayloadFields};
use super::error::LatmError;
use super::laws::lemma_frame_length;
use super::mux::{
    previous_config, read_frame_length, read_layers, read_or_reuse, read_programs, read_same_flag, read_stream,
    read_stream_config, StreamFields,
};
use super::values::{lemma_packed_reads_back, lemma_payload_length, payload_length_bits};
use super::writer::frame_length_bits;

verus! {

// ---------------------------------------------------------------------------
// Payloads
// ---------------------------------------------------------------------------

/// Whether a stream can carry so many bits: whole bytes where their number is sent, and the
/// fixed number otherwise.
pub open spec fn carries(stream: StreamFields, count: nat) -> bool {
    ||| stream.frame_length_type == 0 && count % 8 == 0 && count <= usize::MAX
    ||| stream.frame_length_type == 1 && stream.fixed_frame_length_bits is Some && stream.fixed_frame_length_bits->0 == count
}

/// The lengths of the payloads from a stream on, and more behind them. Fixed lengths are not
/// sent.
pub open spec fn lengths_bits(streams: Seq<StreamFields>, contents: Seq<Seq<bool>>, index: int, rest: Seq<bool>) -> Seq<bool>
    decreases streams.len() - index,
{
    if index >= streams.len() {
        rest
    } else if streams[index].frame_length_type == 0 {
        payload_length_bits(contents[index].len() / 8) + lengths_bits(streams, contents, index + 1, rest)
    } else {
        lengths_bits(streams, contents, index + 1, rest)
    }
}

/// The payloads from a stream on, and more behind them.
pub open spec fn contents_bits(contents: Seq<Seq<bool>>, index: int, rest: Seq<bool>) -> Seq<bool>
    decreases contents.len() - index,
{
    if index >= contents.len() {
        rest
    } else {
        contents[index] + contents_bits(contents, index + 1, rest)
    }
}

/// The payload of a stream in a subframe.
pub open spec fn payload_of(subframe: u8, stream: StreamFields, content: Seq<bool>) -> PayloadFields {
    PayloadFields {
        subframe,
        program: stream.program,
        layer: stream.layer,
        data: packed(content),
        bits: content.len() as usize,
    }
}

/// Whether every stream carries its content.
pub open spec fn all_carried(streams: Seq<StreamFields>, contents: Seq<Seq<bool>>) -> bool {
    &&& streams.len() == contents.len()
    &&& forall|i: int| 0 <= i < streams.len() ==> carries(#[trigger] streams[i], contents[i].len())
}

proof fn lemma_lengths_read_back(
    streams: Seq<StreamFields>,
    contents: Seq<Seq<bool>>,
    lengths: Seq<usize>,
    rest: Seq<bool>,
    cursor: BitCursor,
)
    requires
        all_carried(streams, contents),
        lengths.len() <= streams.len(),
        forall|i: int| 0 <= i < lengths.len() ==> #[trigger] lengths[i] == contents[i].len(),
        stands_at(lengths_bits(streams, contents, lengths.len() as int, rest), cursor),
    ensures
        read_lengths(cursor, streams, lengths).0 matches Ok(list) && list.len() == streams.len() && forall|i: int|
            0 <= i < list.len() ==> #[trigger] list[i] == contents[i].len(),
        stands_at(rest, read_lengths(cursor, streams, lengths).1),
    decreases streams.len() - lengths.len(),
{
    let index = lengths.len() as int;
    if index < streams.len() {
        let stream = streams[index];
        let count = contents[index].len();
        assert(carries(stream, count));
        if stream.frame_length_type == 0 {
            lemma_payload_length(count / 8, 0, lengths_bits(streams, contents, index + 1, rest), cursor);
        }
        let (bits, next) = read_payload_bits(cursor, stream);
        assert(bits == Ok::<usize, LatmError>(count as usize));
        lemma_lengths_read_back(streams, contents, lengths.push(count as usize), rest, next);
    }
}

proof fn lemma_contents_read_back(
    subframe: u8,
    streams: Seq<StreamFields>,
    contents: Seq<Seq<bool>>,
    lengths: Seq<usize>,
    index: int,
    done: Seq<PayloadFields>,
    rest: Seq<bool>,
    cursor: BitCursor,
)
    requires
        all_carried(streams, contents),
        lengths.len() == streams.len(),
        forall|i: int| 0 <= i < lengths.len() ==> #[trigger] lengths[i] == contents[i].len(),
        0 <= index <= streams.len(),
        stands_at(contents_bits(contents, index, rest), cursor),
    ensures
        read_data(cursor, subframe, streams, lengths, index, done).0 == Ok::<Seq<PayloadFields>, LatmError>(
            done + Seq::new(
                (streams.len() - index) as nat,
                |i: int| payload_of(subframe, streams[index + i], contents[index + i]),
            ),
        ),
        stands_at(rest, read_data(cursor, subframe, streams, lengths, index, done).1),
    decreases streams.len() - index,
{
    let behind = Seq::new(
        (streams.len() - index) as nat,
        |i: int| payload_of(subframe, streams[index + i], contents[index + i]),
    );
    if index < streams.len() {
        let one = payload_of(subframe, streams[index], contents[index]);
        assert(lengths[index] == contents[index].len());
        lemma_packed_reads_back(contents[index], contents_bits(contents, index + 1, rest), cursor);
        let next = cursor.advance(contents[index].len() as int);
        lemma_contents_read_back(subframe, streams, contents, lengths, index + 1, done.push(one), rest, next);
        let fewer = Seq::new(
            (streams.len() - (index + 1)) as nat,
            |i: int| payload_of(subframe, streams[index + 1 + i], contents[index + 1 + i]),
        );
        assert(done.push(one) + fewer =~= done + behind);
    } else {
        assert(done + behind =~= done);
    }
}

/// The subframes from one on, and more behind them: in each, first all lengths and then all
/// payloads, in the order of the streams.
pub open spec fn subframes_bits(streams: Seq<StreamFields>, frames: Seq<Seq<Seq<bool>>>, from: int, rest: Seq<bool>) -> Seq<bool>
    decreases frames.len() - from,
{
    if from >= frames.len() {
        rest
    } else {
        lengths_bits(
            streams,
            frames[from],
            0,
            contents_bits(frames[from], 0, subframes_bits(streams, frames, from + 1, rest)),
        )
    }
}

/// Subframes read back: every stream gets its own payloads, subframe by subframe, under its own
/// program and layer.
pub proof fn lemma_subframes_read_back(
    streams: Seq<StreamFields>,
    frames: Seq<Seq<Seq<bool>>>,
    from: u8,
    done: Seq<PayloadFields>,
    rest: Seq<bool>,
    cursor: BitCursor,
)
    requires
        from <= frames.len() <= 255,
        forall|k: int| 0 <= k < frames.len() ==> all_carried(streams, #[trigger] frames[k]),
        done.len() == from * streams.len(),
        forall|k: int, i: int|
            0 <= k < from && 0 <= i < streams.len() ==> #[trigger] done[k * streams.len() + i] == payload_of(
                k as u8,
                streams[i],
                frames[k][i],
            ),
        stands_at(subframes_bits(streams, frames, from as int, rest), cursor),
    ensures
        ({
            let (result, next) = read_subframes(cursor, from, frames.len() as u8, streams, done);
            &&& stands_at(rest, next)
            &&& result matches Ok(payloads)
            &&& payloads.len() == frames.len() * streams.len()
            &&& forall|k: int, i: int|
                0 <= k < frames.len() && 0 <= i < streams.len() ==> #[trigger] payloads[k * streams.len() + i] == payload_of(
                    k as u8,
                    streams[i],
                    frames[k][i],
                )
        }),
    decreases frames.len() - from,
{
    if from < frames.len() {
        let contents = frames[from as int];
        let tail = subframes_bits(streams, frames, from + 1, rest);
        let none = Seq::<usize>::empty();
        assert(all_carried(streams, contents));
        lemma_lengths_read_back(streams, contents, none, contents_bits(contents, 0, tail), cursor);
        let (lengths, next) = read_lengths(cursor, streams, none);
        lemma_contents_read_back(from, streams, contents, lengths->Ok_0, 0, done, tail, next);
        let (data, last) = read_data(next, from, streams, lengths->Ok_0, 0, done);
        let longer = data->Ok_0;
        lemma_subframe_joined(streams, frames, from, done, longer);
        lemma_subframes_read_back(streams, frames, (from + 1) as u8, longer, rest, last);
    }
}

proof fn lemma_subframe_joined(
    streams: Seq<StreamFields>,
    frames: Seq<Seq<Seq<bool>>>,
    from: u8,
    done: Seq<PayloadFields>,
    longer: Seq<PayloadFields>,
)
    requires
        from < frames.len() <= 255,
        done.len() == from * streams.len(),
        forall|k: int, i: int|
            0 <= k < from && 0 <= i < streams.len() ==> #[trigger] done[k * streams.len() + i] == payload_of(
                k as u8,
                streams[i],
                frames[k][i],
            ),
        longer == done + Seq::new(
            (streams.len() - 0) as nat,
            |i: int| payload_of(from, streams[0 + i], frames[from as int][0 + i]),
        ),
    ensures
        longer.len() == (from + 1) * streams.len(),
        forall|k: int, i: int|
            0 <= k < from + 1 && 0 <= i < streams.len() ==> #[trigger] longer[k * streams.len() + i] == payload_of(
                k as u8,
                streams[i],
                frames[k][i],
            ),
{
    let count = streams.len() as int;
    assert((from + 1) * count == from * count + count) by (nonlinear_arith);
    assert forall|k: int, i: int| 0 <= k < from + 1 && 0 <= i < count implies #[trigger] longer[k * count + i] == payload_of(
        k as u8,
        streams[i],
        frames[k][i],
    ) by {
        if k < from {
            assert(0 <= k * count + i < from * count) by (nonlinear_arith)
                requires
                    0 <= k < from,
                    0 <= i < count,
            ;
            assert(done[k * count + i] == payload_of(k as u8, streams[i], frames[k][i]));
        } else {
            assert(longer[from * count + i] == payload_of(from, streams[i], frames[from as int][i]));
        }
    }
}

// ---------------------------------------------------------------------------
// Streams
// ---------------------------------------------------------------------------

/// What a layer is sent as: the settings of the layer before, or its own in bits that are read
/// as them, and its frame length.
pub struct SentLayer {
    pub same: bool,
    pub settings: Seq<bool>,
    pub fields: AscFields,
    pub fixed: Option<usize>,
}

/// Whether bits are read as settings, whatever follows them.
pub open spec fn writes_settings(bits: Seq<bool>, version: u8, fields: AscFields) -> bool {
    forall|rest: Seq<bool>, cursor: BitCursor|
        #[trigger]
        stands_at(bits + rest, cursor) ==> read_stream_config(cursor, version) == (
            Ok::<AscFields, LatmError>(fields),
            cursor.advance(bits.len() as int),
        )
}

/// Whether the layers of a program can be sent: the first has settings of its own, and one that
/// takes over settings has those of the layer before.
pub open spec fn layers_sendable(layers: Seq<SentLayer>, version: u8) -> bool {
    &&& 1 <= layers.len() <= 8
    &&& forall|i: int|
        #![trigger layers[i]]
        0 <= i < layers.len() ==> {
            &&& layers[i].same ==> i > 0 && layers[i].fields == layers[i - 1].fields
            &&& !layers[i].same ==> writes_settings(layers[i].settings, version, layers[i].fields)
            &&& layers[i].fixed matches Some(bits) ==> bits <= 0x1ff
        }
}

/// The bits of the layers of a program from one on, and more behind them. The very first layer
/// has no flag that tells whether it takes over settings.
pub open spec fn layers_bits(program: int, layers: Seq<SentLayer>, from: int, rest: Seq<bool>) -> Seq<bool>
    decreases layers.len() - from,
{
    if from >= layers.len() {
        rest
    } else {
        let behind = frame_length_bits(layers[from].fixed) + layers_bits(program, layers, from + 1, rest);
        let settings = if layers[from].same {
            behind
        } else {
            layers[from].settings + behind
        };
        if program == 0 && from == 0 {
            settings
        } else {
            seq![layers[from].same] + settings
        }
    }
}

/// The stream that a layer becomes.
pub open spec fn stream_of(program: int, layer: int, sent: SentLayer) -> StreamFields {
    StreamFields {
        program: program as u8,
        layer: layer as u8,
        config: Some(sent.fields),
        frame_length_type: if sent.fixed is Some {
            1
        } else {
            0
        },
        fixed_frame_length_bits: sent.fixed,
    }
}

proof fn lemma_layer_read_back(
    version: u8,
    program: u8,
    layers: Seq<SentLayer>,
    from: u8,
    streams: Seq<StreamFields>,
    rest: Seq<bool>,
    cursor: BitCursor,
)
    requires
        layers_sendable(layers, version),
        from < layers.len(),
        from > 0 ==> streams.len() > 0 && streams.last() == stream_of(program as int, from - 1, layers[from - 1]),
        stands_at(layers_bits(program as int, layers, from as int, rest), cursor),
    ensures
        ({
            let (stream, next) = read_stream(cursor, version, program, from, streams);
            &&& stream == Ok::<StreamFields, LatmError>(stream_of(program as int, from as int, layers[from as int]))
            &&& stands_at(layers_bits(program as int, layers, from + 1, rest), next)
        }),
{
    let layer = layers[from as int];
    let tail = layers_bits(program as int, layers, from + 1, rest);
    let behind = frame_length_bits(layer.fixed) + tail;
    let settings = if layer.same {
        behind
    } else {
        layer.settings + behind
    };
    if !(program == 0 && from == 0) {
        lemma_stands_bit(layer.same, settings, cursor);
    }
    let (same, c1) = read_same_flag(cursor, program, from);
    assert(same == Ok::<bool, LatmError>(layer.same));
    assert(stands_at(settings, c1));
    if layer.same {
        assert(layers[from - 1].fields == layer.fields);
        assert(previous_config(from, streams) == Ok::<AscFields, LatmError>(layer.fields));
    } else {
        assert(writes_settings(layer.settings, version, layer.fields));
        assert(stands_at(layer.settings + behind, c1));
        lemma_stands_split(layer.settings, behind, c1);
    }
    let (fields, c2) = read_or_reuse(cursor, version, program, from, streams);
    assert(fields == Ok::<AscFields, LatmError>(layer.fields));
    lemma_frame_length(layer.fixed, tail, c2);
}

proof fn lemma_layers_read_back(
    version: u8,
    program: u8,
    layers: Seq<SentLayer>,
    from: u8,
    streams: Seq<StreamFields>,
    rest: Seq<bool>,
    cursor: BitCursor,
)
    requires
        layers_sendable(layers, version),
        from <= layers.len(),
        from > 0 ==> streams.len() > 0 && streams.last() == stream_of(program as int, from - 1, layers[from - 1]),
        stands_at(layers_bits(program as int, layers, from as int, rest), cursor),
    ensures
        ({
            let (result, next) = read_layers(cursor, version, program, from, layers.len() as u8, streams);
            &&& stands_at(rest, next)
            &&& result == Ok::<Seq<StreamFields>, LatmError>(
                streams + Seq::new(
                    (layers.len() - from) as nat,
                    |i: int| stream_of(program as int, from + i, layers[from + i]),
                ),
            )
        }),
    decreases layers.len() - from,
{
    let list = Seq::new((layers.len() - from) as nat, |i: int| stream_of(program as int, from + i, layers[from + i]));
    if from < layers.len() {
        lemma_layer_read_back(version, program, layers, from, streams, rest, cursor);
        let one = stream_of(program as int, from as int, layers[from as int]);
        let next = read_stream(cursor, version, program, from, streams).1;
        lemma_layers_read_back(version, program, layers, (from + 1) as u8, streams.push(one), rest, next);
        let fewer = Seq::new(
            (layers.len() - (from + 1)) as nat,
            |i: int| stream_of(program as int, from + 1 + i, layers[from + 1 + i]),
        );
        assert(streams.push(one) + fewer =~= streams + list);
    } else {
        assert(streams + list =~= streams);
    }
}

/// The bits of programs from one on, and more behind them: the number of layers less one in
/// three bits, and the layers.
pub open spec fn programs_bits(programs: Seq<Seq<SentLayer>>, from: int, rest: Seq<bool>) -> Seq<bool>
    decreases programs.len() - from,
{
    if from >= programs.len() {
        rest
    } else {
        value_bits((programs[from].len() - 1) as nat, 3) + layers_bits(
            from,
            programs[from],
            0,
            programs_bits(programs, from + 1, rest),
        )
    }
}

/// The streams that programs from one on become, one for each layer, in their order.
pub open spec fn sent_streams(programs: Seq<Seq<SentLayer>>, from: int, before: Seq<StreamFields>) -> Seq<StreamFields>
    decreases programs.len() - from,
{
    if from >= programs.len() {
        before
    } else {
        sent_streams(
            programs,
            from + 1,
            before + Seq::new(programs[from].len(), |i: int| stream_of(from, i, programs[from][i])),
        )
    }
}

/// The streams of all programs read back. A layer that takes over settings has those of the
/// layer before it, and every stream knows its program and its layer.
pub proof fn lemma_programs_read_back(
    version: u8,
    programs: Seq<Seq<SentLayer>>,
    from: u8,
    before: Seq<StreamFields>,
    rest: Seq<bool>,
    cursor: BitCursor,
)
    requires
        from <= programs.len() <= 16,
        forall|p: int| 0 <= p < programs.len() ==> layers_sendable(#[trigger] programs[p], version),
        stands_at(programs_bits(programs, from as int, rest), cursor),
    ensures
        read_programs(cursor, version, from, programs.len() as u8, before).0 == Ok::<Seq<StreamFields>, LatmError>(
            sent_streams(programs, from as int, before),
        ),
        stands_at(rest, read_programs(cursor, version, from, programs.len() as u8, before).1),
    decreases programs.len() - from,
{
    if from < programs.len() {
        let layers = programs[from as int];
        let tail = programs_bits(programs, from + 1, rest);
        assert(layers_sendable(layers, version));
        lemma2_to64();
        lemma_stands_field((layers.len() - 1) as nat, 3, layers_bits(from as int, layers, 0, tail), cursor);
        let next = cursor.advance(3);
        lemma_layers_read_back(version, from, layers, 0, before, tail, next);
        let (longer, last) = read_layers(next, version, from, 0, layers.len() as u8, before);
        let listed = Seq::new((layers.len() - 0) as nat, |i: int| stream_of(from as int, 0 + i, layers[0 + i]));
        let list = Seq::new(layers.len(), |i: int| stream_of(from as int, i, layers[i]));
        assert(listed =~= list);
        assert(longer == Ok::<Seq<StreamFields>, LatmError>(before + list));
        assert(before + list =~= before + Seq::new(
            programs[from as int].len(),
            |i: int| stream_of(from as int, i, programs[from as int][i]),
        ));
        lemma_programs_read_back(version, programs, (from + 1) as u8, before + list, rest, last);
    }
}

} // verus!

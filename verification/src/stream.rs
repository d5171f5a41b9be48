//! Binary stream encoder: the shield sync wire format.
//!
//! Supports three output formats:
//! - **PivxCompat** (default): full raw transactions, then a 0x5d block footer
//!   (9 bytes, with time).
//! - **Compact**: a 0x5d block header, then 0x04 packets with cv and
//!   out_ciphertext (756 bytes per output).
//! - **CompactPlus**: a 0x5d block header, then 0x05 packets without them
//!   (644 bytes per output).

use vstd::prelude::*;
use crate::api::StreamFormat;
use crate::bytes;
use crate::scanner;
use crate::scanner::{BlockModel, CompactModel, CompactTx, OutputModel, ShieldBlock, TxModel};

verus! {

// ---------------------------------------------------------------------------
// Wire format constants
// ---------------------------------------------------------------------------

/// Packet type: block marker.
pub const PACKET_TYPE_BLOCK: u8 = 0x5d;

/// Packet type: compact transaction (with cv and out_ciphertext).
pub const PACKET_TYPE_COMPACT_TX: u8 = 0x04;

/// Packet type: compact+ transaction (without cv and out_ciphertext).
pub const PACKET_TYPE_COMPACT_PLUS_TX: u8 = 0x05;

// ---------------------------------------------------------------------------
// What the wire format means
// ---------------------------------------------------------------------------

/// `n` as a Bitcoin compact size.
pub open spec fn compact_size(n: nat) -> Seq<u8> {
    if n < 253 {
        seq![n as u8]
    } else if n <= 0xffff {
        seq![253u8] + bytes::le_bytes(n, 2)
    } else if n <= 0xffff_ffff {
        seq![254u8] + bytes::le_bytes(n, 4)
    } else {
        seq![255u8] + bytes::le_bytes(n, 8)
    }
}

/// A packet: its payload behind a length of four bytes.
pub open spec fn packet(payload: Seq<u8>) -> Seq<u8> {
    bytes::le_bytes((payload.len() as u32) as nat, 4) + payload
}

/// The payload of a PIVX-compatible block footer: `[0x5d][height:4][time:4]`.
pub open spec fn footer_payload(height: u32, time: u32) -> Seq<u8> {
    seq![PACKET_TYPE_BLOCK] + bytes::le_bytes(height as nat, 4) + bytes::le_bytes(time as nat, 4)
}

/// The payload of a compact block header: `[0x5d][height:4]`.
pub open spec fn header_payload(height: u32) -> Seq<u8> {
    seq![PACKET_TYPE_BLOCK] + bytes::le_bytes(height as nat, 4)
}

/// The bytes of one output in a compact packet.
pub open spec fn output_bytes(output: OutputModel, format: StreamFormat) -> Seq<u8> {
    match format {
        StreamFormat::CompactPlus => output.cmu + output.epk + output.enc_ciphertext,
        _ => output.cv + output.cmu + output.epk + output.enc_ciphertext + output.out_ciphertext,
    }
}

/// The type byte of a compact packet.
pub open spec fn compact_type(format: StreamFormat) -> u8 {
    match format {
        StreamFormat::CompactPlus => PACKET_TYPE_COMPACT_PLUS_TX,
        _ => PACKET_TYPE_COMPACT_TX,
    }
}

/// The outputs of a compact packet, each as its bytes.
pub open spec fn output_parts(outputs: Seq<OutputModel>, format: StreamFormat) -> Seq<Seq<u8>> {
    Seq::new(outputs.len(), |i: int| output_bytes(outputs[i], format))
}

/// The payload of a compact packet: type, spend count, output count, nullifiers,
/// outputs.
pub open spec fn compact_payload(tx: CompactModel, format: StreamFormat) -> Seq<u8> {
    seq![compact_type(format)] + compact_size(tx.nullifiers.len()) + compact_size(
        tx.outputs.len(),
    ) + bytes::joined(tx.nullifiers) + bytes::joined(output_parts(tx.outputs, format))
}

/// What a block holds for `tx` in `format`: the raw transaction as a packet in
/// the compatible format; the compact packet, if the transaction has compact
/// data, in the others.
pub open spec fn tx_part(tx: TxModel, format: StreamFormat) -> Seq<u8> {
    match format {
        StreamFormat::PivxCompat => packet(tx.raw),
        _ => match tx.compact {
            Some(compact) => packet(compact_payload(compact, format)),
            None => Seq::empty(),
        },
    }
}

/// The transactions of a block, each as its part of the stream.
pub open spec fn tx_parts(txs: Seq<TxModel>, format: StreamFormat) -> Seq<Seq<u8>> {
    Seq::new(txs.len(), |i: int| tx_part(txs[i], format))
}

/// A block in the stream: its transactions and then its footer in the compatible
/// format; its header and then its transactions in the others.
pub open spec fn block_bytes(block: BlockModel, format: StreamFormat) -> Seq<u8> {
    let txs = bytes::joined(tx_parts(block.txs, format));
    match format {
        StreamFormat::PivxCompat => txs + packet(footer_payload(block.height, block.time)),
        _ => packet(header_payload(block.height)) + txs,
    }
}

/// The blocks of a stream, each as its bytes.
pub open spec fn block_parts(blocks: Seq<BlockModel>, format: StreamFormat) -> Seq<Seq<u8>> {
    Seq::new(blocks.len(), |i: int| block_bytes(blocks[i], format))
}

/// The whole stream of `blocks`.
pub open spec fn stream_bytes(blocks: Seq<BlockModel>, format: StreamFormat) -> Seq<u8> {
    bytes::joined(block_parts(blocks, format))
}

/// The models of a slice of blocks.
pub open spec fn models(blocks: Seq<ShieldBlock>) -> Seq<BlockModel> {
    Seq::new(blocks.len(), |i: int| blocks[i]@)
}

// ---------------------------------------------------------------------------
// Compact sizes
// ---------------------------------------------------------------------------

/// Write a length as a Bitcoin CompactSize varint, the inverse of
/// `scanner::read_compact_size`.
pub fn write_compact_size(buf: &mut Vec<u8>, n: usize)
    ensures
        final(buf)@ == old(buf)@ + compact_size(n as nat),
{
    let ghost start = buf@;
    if n < 253 {
        buf.push(n as u8);
        assert(buf@ =~= start + compact_size(n as nat));
    } else if n <= 0xffff {
        buf.push(253);
        bytes::push_u16_le(buf, n as u16);
        assert(buf@ =~= start + compact_size(n as nat));
    } else if n <= 0xffff_ffff {
        buf.push(254);
        bytes::push_u32_le(buf, n as u32);
        assert(buf@ =~= start + compact_size(n as nat));
    } else {
        buf.push(255);
        bytes::push_u64_le(buf, n as u64);
        assert(buf@ =~= start + compact_size(n as nat));
    }
}

/// A written compact size reads back as the number written and takes exactly
/// its own bytes, wherever it stands and whatever follows it.
pub proof fn law_compact_size_round_trip(before: Seq<u8>, n: usize, after: Seq<u8>)
    ensures
        scanner::compact_size_at(before + compact_size(n as nat) + after, before.len() as int)
            == Ok::<(usize, int), scanner::ParseFault>((n, compact_size(n as nat).len() as int)),
{
    let data = before + compact_size(n as nat) + after;
    let pos = before.len() as int;
    reveal_with_fuel(bytes::byte_range, 9);
    if n < 253 {
        assert(data[pos] == n);
    } else {
        let width: nat = if n <= 0xffff {
            2
        } else if n <= 0xffff_ffff {
            4
        } else {
            8
        };
        bytes::lemma_le_round_trip(n as nat, width);
        assert(data.subrange(pos + 1, pos + 1 + width) =~= bytes::le_bytes(n as nat, width));
        assert(data[pos] == compact_size(n as nat)[0]);
    }
}

// ---------------------------------------------------------------------------
// Packet encoders
// ---------------------------------------------------------------------------

/// Append `payload` behind its length.
fn push_packet(stream: &mut Vec<u8>, payload: &[u8])
    ensures
        final(stream)@ == old(stream)@ + packet(payload@),
{
    let ghost start = stream@;
    bytes::push_u32_le(stream, payload.len() as u32);
    bytes::push_all(stream, payload);
    assert(stream@ =~= start + packet(payload@));
}

/// Append each nullifier of `nullifiers`.
fn push_nullifiers(payload: &mut Vec<u8>, nullifiers: &Vec<[u8; 32]>)
    ensures
        final(payload)@ == old(payload)@ + bytes::joined(
            Seq::new(nullifiers@.len(), |i: int| nullifiers@[i]@),
        ),
{
    let ghost start = payload@;
    let ghost parts = Seq::new(nullifiers@.len(), |i: int| nullifiers@[i]@);
    let mut i: usize = 0;
    assert(parts.take(0) =~= Seq::empty());
    while i < nullifiers.len()
        invariant
            i <= nullifiers@.len(),
            parts == Seq::new(nullifiers@.len(), |i: int| nullifiers@[i]@),
            payload@ == start + bytes::joined(parts.take(i as int)),
        decreases nullifiers@.len() - i,
    {
        bytes::push_all(payload, &nullifiers[i]);
        proof {
            bytes::lemma_joined_push(parts.take(i as int), parts[i as int]);
            assert(parts.take(i + 1) =~= parts.take(i as int).push(parts[i as int]));
            assert(payload@ =~= start + bytes::joined(parts.take(i + 1)));
        }
        i = i + 1;
    }
    assert(parts.take(i as int) =~= parts);
}

/// Append each output of `outputs` as the compact format `format` has it.
fn push_outputs(
    payload: &mut Vec<u8>,
    outputs: &Vec<scanner::CompactOutput>,
    format: StreamFormat,
)
    ensures
        final(payload)@ == old(payload)@ + bytes::joined(
            output_parts(Seq::new(outputs@.len(), |i: int| outputs@[i]@), format),
        ),
{
    let ghost start = payload@;
    let ghost all = Seq::new(outputs@.len(), |i: int| outputs@[i]@);
    let ghost parts = output_parts(all, format);
    let mut i: usize = 0;
    assert(parts.take(0) =~= Seq::empty());
    while i < outputs.len()
        invariant
            i <= outputs@.len(),
            all == Seq::new(outputs@.len(), |i: int| outputs@[i]@),
            parts == output_parts(all, format),
            payload@ == start + bytes::joined(parts.take(i as int)),
        decreases outputs@.len() - i,
    {
        let out = &outputs[i];
        let ghost before = payload@;
        match format {
            StreamFormat::CompactPlus => {
                bytes::push_all(payload, &out.cmu);
                bytes::push_all(payload, &out.epk);
                bytes::push_all(payload, &out.enc_ciphertext);
            },
            _ => {
                bytes::push_all(payload, &out.cv);
                bytes::push_all(payload, &out.cmu);
                bytes::push_all(payload, &out.epk);
                bytes::push_all(payload, &out.enc_ciphertext);
                bytes::push_all(payload, &out.out_ciphertext);
            },
        }
        proof {
            assert(payload@ =~= before + parts[i as int]);
            bytes::lemma_joined_push(parts.take(i as int), parts[i as int]);
            assert(parts.take(i + 1) =~= parts.take(i as int).push(parts[i as int]));
            assert(payload@ =~= start + bytes::joined(parts.take(i + 1)));
        }
        i = i + 1;
    }
    assert(parts.take(i as int) =~= parts);
}

/// Append the packet of a compact transaction in `format`.
fn push_compact_packet(stream: &mut Vec<u8>, compact: &CompactTx, format: StreamFormat)
    requires
        format != StreamFormat::PivxCompat,
    ensures
        final(stream)@ == old(stream)@ + packet(compact_payload(compact@, format)),
{
    let mut payload: Vec<u8> = Vec::new();
    let packet_type: u8 = match format {
        StreamFormat::CompactPlus => PACKET_TYPE_COMPACT_PLUS_TX,
        _ => PACKET_TYPE_COMPACT_TX,
    };
    payload.push(packet_type);
    write_compact_size(&mut payload, compact.nullifiers.len());
    write_compact_size(&mut payload, compact.outputs.len());
    push_nullifiers(&mut payload, &compact.nullifiers);
    push_outputs(&mut payload, &compact.outputs, format);
    assert(payload@ =~= compact_payload(compact@, format));
    push_packet(stream, payload.as_slice());
}

/// Encode a block header (5 bytes: type + height).
pub fn encode_block_header(stream: &mut Vec<u8>, height: u32)
    ensures
        final(stream)@ == old(stream)@ + packet(header_payload(height)),
{
    let ghost start = stream@;
    proof {
        bytes::lemma_le_bytes_len(height as nat, 4);
    }
    bytes::push_u32_le(stream, 5);
    stream.push(PACKET_TYPE_BLOCK);
    bytes::push_u32_le(stream, height);
    assert(stream@ =~= start + packet(header_payload(height)));
}

/// Encode a compact transaction (0x04) with cv + out_ciphertext for sender recovery.
pub fn encode_compact_tx(stream: &mut Vec<u8>, compact: &CompactTx, _raw: &[u8])
    ensures
        final(stream)@ == old(stream)@ + packet(
            compact_payload(compact@, StreamFormat::Compact),
        ),
{
    push_compact_packet(stream, compact, StreamFormat::Compact);
}

/// Encode a compact+ transaction (0x05) without cv and out_ciphertext.
pub fn encode_compact_plus_tx(stream: &mut Vec<u8>, compact: &CompactTx)
    ensures
        final(stream)@ == old(stream)@ + packet(
            compact_payload(compact@, StreamFormat::CompactPlus),
        ),
{
    push_compact_packet(stream, compact, StreamFormat::CompactPlus);
}

// ---------------------------------------------------------------------------
// Stream encoder
// ---------------------------------------------------------------------------

/// PIVX-compatible encoding: raw transaction bytes (which start with 0x03, their
/// version, so that no type prefix is needed), then the 0x5d block footer.
pub fn encode_pivx_compat(stream: &mut Vec<u8>, block: &ShieldBlock)
    ensures
        final(stream)@ == old(stream)@ + block_bytes(block@, StreamFormat::PivxCompat),
{
    let ghost start = stream@;
    let ghost parts = tx_parts(block@.txs, StreamFormat::PivxCompat);
    let mut i: usize = 0;
    assert(parts.take(0) =~= Seq::empty());
    while i < block.txs.len()
        invariant
            i <= block.txs@.len(),
            parts == tx_parts(block@.txs, StreamFormat::PivxCompat),
            stream@ == start + bytes::joined(parts.take(i as int)),
        decreases block.txs@.len() - i,
    {
        push_packet(stream, block.txs[i].raw.as_slice());
        proof {
            bytes::lemma_joined_push(parts.take(i as int), parts[i as int]);
            assert(parts.take(i + 1) =~= parts.take(i as int).push(parts[i as int]));
            assert(stream@ =~= start + bytes::joined(parts.take(i + 1)));
        }
        i = i + 1;
    }
    assert(parts.take(i as int) =~= parts);
    proof {
        bytes::lemma_le_bytes_len(block.height as nat, 4);
        bytes::lemma_le_bytes_len(block.time as nat, 4);
    }
    // Block footer behind the transactions: [0x5d][height:4LE][time:4LE]
    bytes::push_u32_le(stream, 9);
    stream.push(PACKET_TYPE_BLOCK);
    bytes::push_u32_le(stream, block.height);
    bytes::push_u32_le(stream, block.time);
    assert(stream@ =~= start + block_bytes(block@, StreamFormat::PivxCompat));
}

/// Append the header and the compact packets of `block`.
fn push_compact_block(stream: &mut Vec<u8>, block: &ShieldBlock, format: StreamFormat)
    requires
        format != StreamFormat::PivxCompat,
    ensures
        final(stream)@ == old(stream)@ + block_bytes(block@, format),
{
    encode_block_header(stream, block.height);
    let ghost start = stream@;
    let ghost parts = tx_parts(block@.txs, format);
    let mut i: usize = 0;
    assert(parts.take(0) =~= Seq::empty());
    while i < block.txs.len()
        invariant
            i <= block.txs@.len(),
            format != StreamFormat::PivxCompat,
            parts == tx_parts(block@.txs, format),
            stream@ == start + bytes::joined(parts.take(i as int)),
        decreases block.txs@.len() - i,
    {
        let tx = &block.txs[i];
        let ghost before = stream@;
        if let Some(compact) = &tx.compact {
            push_compact_packet(stream, compact, format);
        }
        proof {
            assert(stream@ =~= before + parts[i as int]);
            bytes::lemma_joined_push(parts.take(i as int), parts[i as int]);
            assert(parts.take(i + 1) =~= parts.take(i as int).push(parts[i as int]));
            assert(stream@ =~= start + bytes::joined(parts.take(i + 1)));
        }
        i = i + 1;
    }
    assert(parts.take(i as int) =~= parts);
    assert(stream@ =~= old(stream)@ + block_bytes(block@, format));
}

/// Compact encoding (0x04): block header, then compact packets with out_ciphertext.
pub fn encode_compact(stream: &mut Vec<u8>, block: &ShieldBlock)
    ensures
        final(stream)@ == old(stream)@ + block_bytes(block@, StreamFormat::Compact),
{
    push_compact_block(stream, block, StreamFormat::Compact);
}

/// CompactPlus encoding (0x05): block header, then ultra-compact packets.
pub fn encode_compact_plus(stream: &mut Vec<u8>, block: &ShieldBlock)
    ensures
        final(stream)@ == old(stream)@ + block_bytes(block@, StreamFormat::CompactPlus),
{
    push_compact_block(stream, block, StreamFormat::CompactPlus);
}

/// Encode a slice of shield blocks into a binary stream.
pub fn encode_shield_stream(blocks: &[ShieldBlock], format: StreamFormat) -> (stream: Vec<u8>)
    ensures
        stream@ == stream_bytes(models(blocks@), format),
{
    let mut stream: Vec<u8> = Vec::new();
    let ghost parts = block_parts(models(blocks@), format);
    let mut i: usize = 0;
    assert(parts.take(0) =~= Seq::empty());
    while i < blocks.len()
        invariant
            i <= blocks@.len(),
            parts == block_parts(models(blocks@), format),
            stream@ == bytes::joined(parts.take(i as int)),
        decreases blocks@.len() - i,
    {
        let block = &blocks[i];
        let ghost before = stream@;
        match format {
            StreamFormat::PivxCompat => encode_pivx_compat(&mut stream, block),
            StreamFormat::Compact => encode_compact(&mut stream, block),
            StreamFormat::CompactPlus => encode_compact_plus(&mut stream, block),
        }
        proof {
            assert(stream@ =~= before + parts[i as int]);
            bytes::lemma_joined_push(parts.take(i as int), parts[i as int]);
            assert(parts.take(i + 1) =~= parts.take(i as int).push(parts[i as int]));
        }
        i = i + 1;
    }
    assert(parts.take(i as int) =~= parts);
    stream
}

// ---------------------------------------------------------------------------
// Reading a stream back
// ---------------------------------------------------------------------------

/// The payload of the packet that `data` starts with, if it is complete.
pub open spec fn first_packet(data: Seq<u8>) -> Option<Seq<u8>> {
    if data.len() < 4 {
        None
    } else {
        let len = bytes::le_value(data.take(4));
        if 4 + len > data.len() {
            None
        } else {
            Some(data.subrange(4, 4 + len as int))
        }
    }
}

/// Whether a payload is a block footer: nine bytes behind the block marker.
pub open spec fn is_footer(payload: Seq<u8>) -> bool {
    payload.len() == 9 && payload[0] == PACKET_TYPE_BLOCK
}

/// The block that a footer closes.
pub open spec fn closed_block(footer: Seq<u8>, txs: Seq<TxModel>) -> BlockModel {
    BlockModel {
        height: bytes::le_value(footer.subrange(1, 5)) as u32,
        time: bytes::le_value(footer.subrange(5, 9)) as u32,
        txs,
    }
}

/// The complete blocks of a compatible stream, where `pending` are transactions
/// read since the last footer. Reading ends at an incomplete or an empty packet.
pub open spec fn blocks_in(data: Seq<u8>, pending: Seq<TxModel>) -> Seq<BlockModel>
    decreases data.len(),
{
    match first_packet(data) {
        None => Seq::empty(),
        Some(payload) => {
            let rest = data.skip(4 + payload.len() as int);
            if payload.len() == 0 {
                Seq::empty()
            } else if is_footer(payload) {
                seq![closed_block(payload, pending)] + blocks_in(rest, Seq::empty())
            } else {
                blocks_in(rest, pending.push(scanner::parsed_tx(payload)))
            }
        },
    }
}

/// Where the last block footer of the complete packets of `data` ends.
pub open spec fn last_footer_end(data: Seq<u8>) -> Option<int>
    decreases data.len(),
{
    match first_packet(data) {
        None => None,
        Some(payload) => {
            let end = 4 + payload.len();
            match last_footer_end(data.skip(end as int)) {
                Some(later) => Some(end + later),
                None => if is_footer(payload) {
                    Some(end as int)
                } else {
                    None
                },
            }
        },
    }
}

/// The length of the packet that starts at `pos`, if it is complete.
pub fn packet_len_at(data: &[u8], pos: usize) -> (len: Option<usize>)
    requires
        pos <= data@.len(),
    ensures
        match (len, first_packet(data@.skip(pos as int))) {
            (None, None) => true,
            (Some(n), Some(payload)) => pos + 4 + n <= data@.len() && payload == data@.subrange(
                pos + 4,
                pos + 4 + n,
            ),
            _ => false,
        },
{
    let rest: usize = data.len() - pos;
    let ghost suffix = data@.skip(pos as int);
    if rest < 4 {
        return None;
    }
    assert(suffix.take(4) =~= data@.subrange(pos as int, pos + 4));
    let announced: u32 = bytes::read_u32_le(data, pos);
    if (announced as u64) > ((rest - 4) as u64) {
        return None;
    }
    let len: usize = announced as usize;
    assert(suffix.subrange(4, 4 + len as int) =~= data@.subrange(pos + 4, pos + 4 + len));
    Some(len)
}

// ---------------------------------------------------------------------------
// Laws
// ---------------------------------------------------------------------------

/// Whether the fields of an output have the sizes that they have on the chain.
pub open spec fn sized_output(output: OutputModel) -> bool {
    &&& output.cv.len() == 32
    &&& output.cmu.len() == 32
    &&& output.epk.len() == 32
    &&& output.enc_ciphertext.len() == scanner::ENC_CIPHERTEXT_SIZE
    &&& output.out_ciphertext.len() == scanner::OUT_CIPHERTEXT_SIZE
}

/// Whether the fields of a compact transaction have the sizes that they have on
/// the chain.
pub open spec fn sized(tx: CompactModel) -> bool {
    &&& forall|k: int| 0 <= k < tx.nullifiers.len() ==> (#[trigger] tx.nullifiers[k]).len() == 32
    &&& forall|k: int| 0 <= k < tx.outputs.len() ==> #[trigger] sized_output(tx.outputs[k])
}

/// The fields of every compact transaction have the sizes that they have on the
/// chain.
pub proof fn law_compact_tx_is_sized(tx: CompactTx)
    ensures
        sized(tx@),
{
    assert forall|k: int| 0 <= k < tx@.outputs.len() implies #[trigger] sized_output(
        tx@.outputs[k],
    ) by {
        let output = tx.outputs@[k];
        assert(output.cv@.len() == 32 && output.cmu@.len() == 32 && output.epk@.len() == 32);
        assert(output.enc_ciphertext@.len() == 580 && output.out_ciphertext@.len() == 80);
    }
    assert forall|k: int| 0 <= k < tx@.nullifiers.len() implies (#[trigger] tx@.nullifiers[k]).len()
        == 32 by {
        assert(tx.nullifiers@[k]@.len() == 32);
    }
}

/// Parts of one size join to that size times their number.
proof fn lemma_joined_len(parts: Seq<Seq<u8>>, size: nat)
    requires
        forall|k: int| 0 <= k < parts.len() ==> (#[trigger] parts[k]).len() == size,
    ensures
        bytes::joined(parts).len() == size * parts.len(),
    decreases parts.len(),
{
    if parts.len() > 0 {
        let init = parts.drop_last();
        assert forall|k: int| 0 <= k < init.len() implies (#[trigger] init[k]).len() == size by {
            assert(init[k] == parts[k]);
        }
        lemma_joined_len(init, size);
        assert(parts.last().len() == size);
        assert(size * parts.len() == size * init.len() + size) by (nonlinear_arith)
            requires
                parts.len() == init.len() + 1,
        ;
    } else {
        assert(size * 0 == 0) by (nonlinear_arith);
    }
}

/// A compact payload holds its type, the two counts, 32 bytes for each spend, and
/// 756 bytes for each output; a compact+ payload only 644 for each output.
pub proof fn law_compact_payload_len(tx: CompactModel, format: StreamFormat)
    requires
        sized(tx),
        format != StreamFormat::PivxCompat,
    ensures
        compact_payload(tx, format).len() == 1 + compact_size(tx.nullifiers.len()).len()
            + compact_size(tx.outputs.len()).len() + 32 * tx.nullifiers.len() + (if format
            == StreamFormat::Compact {
            756nat
        } else {
            644nat
        }) * tx.outputs.len(),
{
    let size: nat = if format == StreamFormat::Compact {
        756
    } else {
        644
    };
    let parts = output_parts(tx.outputs, format);
    assert forall|k: int| 0 <= k < parts.len() implies (#[trigger] parts[k]).len() == size by {
        assert(sized_output(tx.outputs[k]));
    }
    lemma_joined_len(parts, size);
    lemma_joined_len(tx.nullifiers, 32);
}

/// The compact+ form of a transaction is smaller than the compact form by 112
/// bytes for each output: the value commitment and the outgoing ciphertext.
pub proof fn law_compact_plus_saves_112_bytes_per_output(tx: CompactModel)
    requires
        sized(tx),
    ensures
        compact_payload(tx, StreamFormat::Compact).len() == compact_payload(
            tx,
            StreamFormat::CompactPlus,
        ).len() + 112 * tx.outputs.len(),
{
    law_compact_payload_len(tx, StreamFormat::Compact);
    law_compact_payload_len(tx, StreamFormat::CompactPlus);
    assert(756 * tx.outputs.len() == 644 * tx.outputs.len() + 112 * tx.outputs.len());
}

} // verus!

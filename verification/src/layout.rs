//! What stands where in a stream, byte by byte.

use vstd::prelude::*;
use crate::api::StreamFormat;
use crate::bytes;
use crate::scanner;
use crate::scanner::{BlockModel, CompactModel, OutputModel, TxModel};
use crate::store;
use crate::stream;
use crate::transaction;

verus! {

/// A number of 32 bits as four bytes, the least significant first.
pub open spec fn four_bytes(n: u32) -> Seq<u8> {
    seq![
        (n % 256) as u8,
        (n / 256 % 256) as u8,
        (n / 65536 % 256) as u8,
        (n / 16777216) as u8,
    ]
}

/// A payload behind its length.
pub open spec fn framed(payload: Seq<u8>) -> Seq<u8> {
    four_bytes(payload.len() as u32) + payload
}

/// Joining parts is laying them out in a row.
proof fn lemma_joined_in_a_row(parts: Seq<Seq<u8>>)
    ensures
        bytes::joined(parts) == transaction::in_a_row(parts),
    decreases parts.len(),
{
    if parts.len() > 0 {
        bytes::lemma_joined_first(parts);
        lemma_joined_in_a_row(parts.drop_first());
    }
}

// ---------------------------------------------------------------------------
// Numbers
// ---------------------------------------------------------------------------

/// Numbers are little-endian: a byte weighs 256 times the one before it, when it is
/// written and when it is read.
pub proof fn law_numbers_are_little_endian(n: u32, a: u8, b: u8, c: u8, d: u8, rest: Seq<u8>)
    ensures
        bytes::le_bytes(n as nat, 4) == four_bytes(n),
        bytes::le_value(seq![a, b, c, d]) == a + 256 * b + 65536 * c + 16777216 * d,
        bytes::le_value(seq![a] + rest) == a + 256 * bytes::le_value(rest),
        bytes::le_value(Seq::empty()) == 0,
{
    reveal_with_fuel(bytes::le_bytes, 5);
    reveal_with_fuel(bytes::le_value, 6);
    assert((seq![a] + rest).drop_first() =~= rest);
    let n1 = n as nat / 256;
    let n2 = n1 / 256;
    let n3 = n2 / 256;
    assert(n2 == n as nat / 65536);
    assert(n3 == n as nat / 16777216);
    assert(n3 % 256 == n3);
    assert(bytes::le_bytes(n as nat, 4) =~= four_bytes(n));
    let s = seq![a, b, c, d];
    assert(s.drop_first() =~= seq![b, c, d]);
    assert(s.drop_first().drop_first() =~= seq![c, d]);
    assert(s.drop_first().drop_first().drop_first() =~= seq![d]);
}

// ---------------------------------------------------------------------------
// Compact packets
// ---------------------------------------------------------------------------

/// Whether the output at `at` of a compact packet is `output`: value commitment, note
/// commitment, ephemeral key, ciphertext and outgoing ciphertext, in this order.
pub open spec fn has_compact_output(payload: Seq<u8>, at: int, output: OutputModel) -> bool {
    &&& payload.subrange(at, at + 32) == output.cv
    &&& payload.subrange(at + 32, at + 64) == output.cmu
    &&& payload.subrange(at + 64, at + 96) == output.epk
    &&& payload.subrange(at + 96, at + 676) == output.enc_ciphertext
    &&& payload.subrange(at + 676, at + 756) == output.out_ciphertext
}

/// Whether the output at `at` of a compact+ packet is `output`: note commitment,
/// ephemeral key and ciphertext, in this order.
pub open spec fn has_compact_plus_output(payload: Seq<u8>, at: int, output: OutputModel) -> bool {
    &&& payload.subrange(at, at + 32) == output.cmu
    &&& payload.subrange(at + 32, at + 64) == output.epk
    &&& payload.subrange(at + 64, at + 644) == output.enc_ciphertext
}

/// Parts of one size stand in a row, each where its number says.
proof fn lemma_part_at(parts: Seq<Seq<u8>>, size: int, k: int)
    requires
        size >= 0,
        forall|j: int| 0 <= j < parts.len() ==> (#[trigger] parts[j]).len() == size,
        0 <= k < parts.len(),
    ensures
        bytes::joined(parts).len() == size * parts.len(),
        0 <= size * k,
        size * k + size <= bytes::joined(parts).len(),
        bytes::joined(parts).subrange(size * k, size * k + size) == parts[k],
    decreases parts.len(),
{
    let init = parts.drop_last();
    let n = init.len() as int;
    assert forall|j: int| 0 <= j < init.len() implies (#[trigger] init[j]).len() == size by {
        assert(init[j] == parts[j]);
    }
    lemma_row_len(init, size);
    assert(parts[n].len() == size);
    assert(size * (n + 1) == size * n + size) by (nonlinear_arith);
    assert(0 <= size * k) by (nonlinear_arith)
        requires
            size >= 0,
            k >= 0,
    ;
    if k < n {
        lemma_part_at(init, size, k);
        assert(init[k] == parts[k]);
        assert(bytes::joined(parts).subrange(size * k, size * k + size) =~= bytes::joined(
            init,
        ).subrange(size * k, size * k + size));
    } else {
        assert(bytes::joined(parts).subrange(size * k, size * k + size) =~= parts[k]);
    }
}

/// Parts of one size join to that size times their number.
proof fn lemma_row_len(parts: Seq<Seq<u8>>, size: int)
    requires
        size >= 0,
        forall|j: int| 0 <= j < parts.len() ==> (#[trigger] parts[j]).len() == size,
    ensures
        bytes::joined(parts).len() == size * parts.len(),
    decreases parts.len(),
{
    if parts.len() > 0 {
        let init = parts.drop_last();
        let n = init.len() as int;
        assert forall|j: int| 0 <= j < init.len() implies (#[trigger] init[j]).len() == size by {
            assert(init[j] == parts[j]);
        }
        lemma_row_len(init, size);
        assert(parts[n].len() == size);
        assert(size * (n + 1) == size * n + size) by (nonlinear_arith);
    } else {
        assert(size * 0 == 0) by (nonlinear_arith);
    }
}

/// One nullifier of a compact payload, by where it stands.
proof fn lemma_nullifier_at(head: Seq<u8>, nullifiers: Seq<Seq<u8>>, rest: Seq<u8>, k: int)
    requires
        forall|j: int| 0 <= j < nullifiers.len() ==> (#[trigger] nullifiers[j]).len() == 32,
        0 <= k < nullifiers.len(),
    ensures
        ({
            let at = head.len() + 32 * k;
            (head + bytes::joined(nullifiers) + rest).subrange(at, at + 32) == nullifiers[k]
        }),
{
    lemma_part_at(nullifiers, 32, k);
    let at = head.len() + 32 * k;
    assert((head + bytes::joined(nullifiers) + rest).subrange(at, at + 32) =~= bytes::joined(
        nullifiers,
    ).subrange(32 * k, 32 * k + 32));
}

/// One output of a compact payload, by where it stands.
proof fn lemma_output_at(head: Seq<u8>, outputs: Seq<OutputModel>, format: StreamFormat, k: int)
    requires
        forall|j: int| 0 <= j < outputs.len() ==> #[trigger] stream::sized_output(outputs[j]),
        0 <= k < outputs.len(),
        format != StreamFormat::PivxCompat,
    ensures
        ({
            let payload = head + bytes::joined(stream::output_parts(outputs, format));
            if format == StreamFormat::Compact {
                has_compact_output(payload, head.len() + 756 * k, outputs[k])
            } else {
                has_compact_plus_output(payload, head.len() + 644 * k, outputs[k])
            }
        }),
{
    let parts = stream::output_parts(outputs, format);
    let row = bytes::joined(parts);
    let payload = head + row;
    let output = outputs[k];
    let size: int = if format == StreamFormat::Compact {
        756
    } else {
        644
    };
    assert forall|j: int| 0 <= j < parts.len() implies (#[trigger] parts[j]).len() == size by {
        assert(stream::sized_output(outputs[j]));
    }
    lemma_part_at(parts, size, k);
    assert(stream::sized_output(output));
    let part = parts[k];
    let at = head.len() + size * k;
    assert(payload.subrange(at, at + 32) =~= part.subrange(0, 32));
    assert(payload.subrange(at + 32, at + 64) =~= part.subrange(32, 64));
    if format == StreamFormat::Compact {
        assert(payload.subrange(at + 64, at + 96) =~= part.subrange(64, 96));
        assert(payload.subrange(at + 96, at + 676) =~= part.subrange(96, 676));
        assert(payload.subrange(at + 676, at + 756) =~= part.subrange(676, 756));
        assert(part.subrange(0, 32) =~= output.cv);
        assert(part.subrange(32, 64) =~= output.cmu);
        assert(part.subrange(64, 96) =~= output.epk);
        assert(part.subrange(96, 676) =~= output.enc_ciphertext);
        assert(part.subrange(676, 756) =~= output.out_ciphertext);
    } else {
        assert(payload.subrange(at + 64, at + 644) =~= part.subrange(64, 644));
        assert(part.subrange(0, 32) =~= output.cmu);
        assert(part.subrange(32, 64) =~= output.epk);
        assert(part.subrange(64, 644) =~= output.enc_ciphertext);
    }
}

/// A compact packet reads back by its layout. It starts with its type, 4 for compact
/// and 5 for compact+, the number of spends and the number of outputs. Then come 32
/// bytes for each nullifier, and for each output 756 bytes, or 644 in a compact+
/// packet, with its fields in their places; and nothing more.
pub proof fn law_compact_packet_reads_back(tx: CompactModel, format: StreamFormat)
    requires
        stream::sized(tx),
        format != StreamFormat::PivxCompat,
    ensures
        ({
            let payload = stream::compact_payload(tx, format);
            let n = tx.nullifiers.len();
            let m = tx.outputs.len();
            let head = seq![
                if format == StreamFormat::Compact {
                    4u8
                } else {
                    5u8
                },
            ] + transaction::size_prefix(n) + transaction::size_prefix(m);
            let first = head.len() + 32 * n as int;
            &&& payload.len() == first + (if format == StreamFormat::Compact {
                756int
            } else {
                644int
            }) * m
            &&& payload.take(head.len() as int) == head
            &&& forall|k: int|
                #![trigger tx.nullifiers[k]]
                0 <= k < n ==> payload.subrange(head.len() + 32 * k, head.len() + 32 * k + 32)
                    == tx.nullifiers[k]
            &&& format == StreamFormat::Compact ==> forall|k: int|
                0 <= k < m ==> has_compact_output(payload, first + 756 * k, #[trigger] tx.outputs[k])
            &&& format == StreamFormat::CompactPlus ==> forall|k: int|
                0 <= k < m ==> has_compact_plus_output(
                    payload,
                    first + 644 * k,
                    #[trigger] tx.outputs[k],
                )
        }),
{
    let payload = stream::compact_payload(tx, format);
    let n = tx.nullifiers.len();
    let m = tx.outputs.len();
    transaction::law_compact_size_is_its_bytes(n);
    transaction::law_compact_size_is_its_bytes(m);
    let head = seq![
        if format == StreamFormat::Compact {
            4u8
        } else {
            5u8
        },
    ] + transaction::size_prefix(n) + transaction::size_prefix(m);
    let spends = bytes::joined(tx.nullifiers);
    let outputs = bytes::joined(stream::output_parts(tx.outputs, format));
    assert(payload =~= head + spends + outputs);
    lemma_row_len(tx.nullifiers, 32);
    stream::law_compact_payload_len(tx, format);
    assert(payload.take(head.len() as int) =~= head);
    assert forall|k: int| #![trigger tx.nullifiers[k]] 0 <= k < n implies payload.subrange(
        head.len() + 32 * k,
        head.len() + 32 * k + 32,
    ) == tx.nullifiers[k] by {
        lemma_nullifier_at(head, tx.nullifiers, outputs, k);
    }
    if format == StreamFormat::Compact {
        assert forall|k: int| 0 <= k < m implies has_compact_output(
            payload,
            head.len() + 32 * n + 756 * k,
            #[trigger] tx.outputs[k],
        ) by {
            lemma_output_at(head + spends, tx.outputs, format, k);
        }
    } else {
        assert forall|k: int| 0 <= k < m implies has_compact_plus_output(
            payload,
            head.len() + 32 * n + 644 * k,
            #[trigger] tx.outputs[k],
        ) by {
            lemma_output_at(head + spends, tx.outputs, format, k);
        }
    }
}

// ---------------------------------------------------------------------------
// Blocks and streams
// ---------------------------------------------------------------------------

/// The packet of each transaction: its raw bytes.
pub open spec fn raw_packets(txs: Seq<TxModel>) -> Seq<Seq<u8>> {
    Seq::new(txs.len(), |k: int| framed(txs[k].raw))
}

/// The packet of each transaction that has compact data; nothing for the others.
pub open spec fn compact_packets(txs: Seq<TxModel>, format: StreamFormat) -> Seq<Seq<u8>> {
    Seq::new(
        txs.len(),
        |k: int|
            match txs[k].compact {
                Some(compact) => framed(stream::compact_payload(compact, format)),
                None => Seq::empty(),
            },
    )
}

/// The end of a block in the compatible stream: a packet of nine bytes, the marker,
/// the height and the time.
pub open spec fn block_end(block: BlockModel) -> Seq<u8> {
    seq![9u8, 0, 0, 0, 0x5d] + four_bytes(block.height) + four_bytes(block.time)
}

/// The start of a block in a compact stream: a packet of five bytes, the marker and
/// the height.
pub open spec fn block_start(block: BlockModel) -> Seq<u8> {
    seq![5u8, 0, 0, 0, 0x5d] + four_bytes(block.height)
}

/// A block in the compatible stream is its raw transactions in their order, each
/// behind its length, and then its end. In a compact stream it is its start, and then
/// the compact transactions in their order.
pub proof fn law_block_layout(block: BlockModel, format: StreamFormat)
    ensures
        stream::block_bytes(block, format) == (if format == StreamFormat::PivxCompat {
            transaction::in_a_row(raw_packets(block.txs)) + block_end(block)
        } else {
            block_start(block) + transaction::in_a_row(compact_packets(block.txs, format))
        }),
{
    law_numbers_are_little_endian(block.height, 0, 0, 0, 0, Seq::empty());
    law_numbers_are_little_endian(block.time, 0, 0, 0, 0, Seq::empty());
    law_numbers_are_little_endian(9, 0, 0, 0, 0, Seq::empty());
    law_numbers_are_little_endian(5, 0, 0, 0, 0, Seq::empty());
    let parts = stream::tx_parts(block.txs, format);
    lemma_joined_in_a_row(parts);
    let expected = if format == StreamFormat::PivxCompat {
        raw_packets(block.txs)
    } else {
        compact_packets(block.txs, format)
    };
    assert forall|k: int| 0 <= k < parts.len() implies parts[k] == expected[k] by {
        match format {
            StreamFormat::PivxCompat => {
                law_numbers_are_little_endian(
                    block.txs[k].raw.len() as u32,
                    0,
                    0,
                    0,
                    0,
                    Seq::empty(),
                );
            },
            _ => {
                if let Some(compact) = block.txs[k].compact {
                    let payload = stream::compact_payload(compact, format);
                    law_numbers_are_little_endian(payload.len() as u32, 0, 0, 0, 0, Seq::empty());
                }
            },
        }
    }
    assert(parts =~= expected);
    if format == StreamFormat::PivxCompat {
        let footer = stream::footer_payload(block.height, block.time);
        assert(footer.len() == 9);
        assert(stream::packet(footer) =~= block_end(block));
    } else {
        let header = stream::header_payload(block.height);
        assert(header.len() == 5);
        assert(stream::packet(header) =~= block_start(block));
    }
}

/// A stream is its blocks in a row, in their order, and nothing between them.
pub proof fn law_stream_is_its_blocks(blocks: Seq<BlockModel>, format: StreamFormat)
    ensures
        stream::stream_bytes(blocks, format) == transaction::in_a_row(
            Seq::new(blocks.len(), |k: int| stream::block_bytes(blocks[k], format)),
        ),
{
    lemma_joined_in_a_row(stream::block_parts(blocks, format));
    assert(stream::block_parts(blocks, format) =~= Seq::new(
        blocks.len(),
        |k: int| stream::block_bytes(blocks[k], format),
    ));
}

/// What a packet of a stream is when it is read. Nine bytes that begin with 0x5d close a
/// block: four of them are its height and four its time, and its transactions are those
/// that came before. Any other packet that is not empty is one more transaction of the
/// block that is still open. An empty packet, and one that is not all there, end the
/// reading.
pub proof fn law_what_a_packet_is(
    payload: Seq<u8>,
    height: u32,
    time: u32,
    pending: Seq<TxModel>,
    rest: Seq<u8>,
)
    requires
        payload.len() <= u32::MAX,
    ensures
        stream::blocks_in(framed(seq![0x5du8] + four_bytes(height) + four_bytes(time)) + rest, pending)
            == seq![BlockModel { height, time, txs: pending }] + stream::blocks_in(
            rest,
            Seq::empty(),
        ),
        payload.len() > 0 && (payload.len() != 9 || payload[0] != 0x5d) ==> stream::blocks_in(
            framed(payload) + rest,
            pending,
        ) == stream::blocks_in(rest, pending.push(scanner::parsed_tx(payload))),
        payload.len() == 0 ==> stream::blocks_in(framed(payload) + rest, pending).len() == 0,
        forall|n: int|
            0 <= n < framed(payload).len() ==> (#[trigger] stream::blocks_in(
                framed(payload).take(n),
                pending,
            )).len() == 0,
{
    let footer = stream::footer_payload(height, time);
    law_numbers_are_little_endian(height, 0, 0, 0, 0, Seq::empty());
    law_numbers_are_little_endian(time, 0, 0, 0, 0, Seq::empty());
    law_numbers_are_little_endian(payload.len() as u32, 0, 0, 0, 0, Seq::empty());
    law_numbers_are_little_endian(9, 0, 0, 0, 0, Seq::empty());
    let spelled = seq![0x5du8] + four_bytes(height) + four_bytes(time);
    assert(footer =~= spelled);
    assert(framed(spelled) =~= stream::packet(footer));
    store::law_packet_round_trip(footer, rest);
    bytes::lemma_le_round_trip_u32(height);
    bytes::lemma_le_round_trip_u32(time);
    assert(footer.subrange(1, 5) =~= four_bytes(height));
    assert(footer.subrange(5, 9) =~= four_bytes(time));
    assert(framed(payload) =~= stream::packet(payload));
    store::law_packet_round_trip(payload, rest);
    assert forall|n: int| 0 <= n < framed(payload).len() implies (#[trigger] stream::blocks_in(
        framed(payload).take(n),
        pending,
    )).len() == 0 by {
        lemma_cut_packet(payload, n);
    }
}

/// A packet that is not all there is none.
proof fn lemma_cut_packet(payload: Seq<u8>, n: int)
    requires
        payload.len() <= u32::MAX,
        0 <= n < framed(payload).len(),
    ensures
        stream::first_packet(framed(payload).take(n)) is None,
{
    let data = framed(payload).take(n);
    if n >= 4 {
        law_numbers_are_little_endian(payload.len() as u32, 0, 0, 0, 0, Seq::empty());
        bytes::lemma_le_round_trip_u32(payload.len() as u32);
        assert(data.take(4) =~= four_bytes(payload.len() as u32));
    }
}

/// Where a recovered file ends. Behind a footer that is the last one, what is left is no
/// footer: other packets, or one that is not all there.
pub proof fn law_where_the_last_footer_ends(
    payload: Seq<u8>,
    height: u32,
    time: u32,
    rest: Seq<u8>,
    n: int,
)
    requires
        payload.len() <= u32::MAX,
        payload.len() != 9 || payload[0] != 0x5d,
        0 <= n < framed(payload).len(),
        stream::last_footer_end(rest) is None,
    ensures
        stream::last_footer_end(framed(seq![0x5du8] + four_bytes(height) + four_bytes(time)) + rest)
            == Some(13int),
        stream::last_footer_end(framed(payload) + rest) is None,
        stream::last_footer_end(framed(payload).take(n)) is None,
{
    let footer = stream::footer_payload(height, time);
    law_numbers_are_little_endian(height, 0, 0, 0, 0, Seq::empty());
    law_numbers_are_little_endian(time, 0, 0, 0, 0, Seq::empty());
    law_numbers_are_little_endian(payload.len() as u32, 0, 0, 0, 0, Seq::empty());
    law_numbers_are_little_endian(9, 0, 0, 0, 0, Seq::empty());
    let spelled = seq![0x5du8] + four_bytes(height) + four_bytes(time);
    assert(footer =~= spelled);
    assert(framed(spelled) =~= stream::packet(footer));
    store::law_packet_round_trip(footer, rest);
    assert(framed(payload) =~= stream::packet(payload));
    store::law_packet_round_trip(payload, rest);
    lemma_cut_packet(payload, n);
}

} // verus!

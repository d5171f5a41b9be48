//! The shield store: the stream of all shield blocks and the index into it, and
//! what holds of the two together.

use vstd::prelude::*;
use crate::api::StreamFormat;
use crate::bytes;
use crate::index;
use crate::index::IndexEntry;
use crate::json::JsonModel;
use crate::scanner;
use crate::scanner::{BlockModel, TxModel};
use crate::stream;

verus! {

/// Whether `buffer` is the compatible stream of `blocks`, in ascending order, and
/// `entries` give the height and the offset of each.
pub open spec fn mirrors(
    entries: Seq<IndexEntry>,
    buffer: Seq<u8>,
    blocks: Seq<BlockModel>,
) -> bool {
    &&& buffer == stream::stream_bytes(blocks, StreamFormat::PivxCompat)
    &&& entries.len() == blocks.len()
    &&& forall|k: int|
        0 <= k < blocks.len() ==> {
            &&& (#[trigger] entries[k]).block == blocks[k].height
            &&& entries[k].i == stream::stream_bytes(blocks.take(k), StreamFormat::PivxCompat).len()
        }
    &&& index::ascending(index::heights(entries))
}

/// Whether each transaction of `block` can be told apart in a stream: it is not
/// empty, its length fits into its prefix, and it does not look like a footer.
pub open spec fn readable_block(block: BlockModel) -> bool {
    forall|k: int| 0 <= k < block.txs.len() ==> #[trigger] readable_tx(block.txs[k])
}

/// Whether `tx` can be told apart in a stream.
pub open spec fn readable_tx(tx: TxModel) -> bool {
    0 < tx.raw.len() <= u32::MAX && !stream::is_footer(tx.raw)
}

/// Whether every transaction of `blocks` can be told apart in a stream.
pub open spec fn readable(blocks: Seq<BlockModel>) -> bool {
    forall|k: int| 0 <= k < blocks.len() ==> #[trigger] readable_block(blocks[k])
}

// ---------------------------------------------------------------------------
// Streams of blocks
// ---------------------------------------------------------------------------

/// The stream of two runs of blocks is the stream of the first, then that of the
/// second.
pub proof fn law_stream_concat(a: Seq<BlockModel>, b: Seq<BlockModel>, format: StreamFormat)
    ensures
        stream::stream_bytes(a + b, format) == stream::stream_bytes(a, format)
            + stream::stream_bytes(b, format),
{
    bytes::lemma_joined_concat(stream::block_parts(a, format), stream::block_parts(b, format));
    assert(stream::block_parts(a + b, format) =~= stream::block_parts(a, format)
        + stream::block_parts(b, format));
}

/// The stream of one block is the bytes of that block.
pub proof fn lemma_stream_single(block: BlockModel, format: StreamFormat)
    ensures
        stream::stream_bytes(seq![block], format) == stream::block_bytes(block, format),
{
    let parts = stream::block_parts(seq![block], format);
    assert(parts =~= Seq::<Seq<u8>>::empty().push(stream::block_bytes(block, format)));
    bytes::lemma_joined_push(Seq::empty(), stream::block_bytes(block, format));
    assert(stream::stream_bytes(seq![block], format) =~= stream::block_bytes(block, format));
}

/// A stream splits at any block boundary.
pub proof fn lemma_stream_split(blocks: Seq<BlockModel>, k: int, format: StreamFormat)
    requires
        0 <= k <= blocks.len(),
    ensures
        stream::stream_bytes(blocks, format) == stream::stream_bytes(blocks.take(k), format)
            + stream::stream_bytes(blocks.skip(k), format),
{
    law_stream_concat(blocks.take(k), blocks.skip(k), format);
    assert(blocks.take(k) + blocks.skip(k) =~= blocks);
}

/// The bytes of a block in the compatible format are never fewer than those of
/// its footer.
pub proof fn lemma_block_not_empty(block: BlockModel)
    ensures
        stream::block_bytes(block, StreamFormat::PivxCompat).len() >= 13,
{
    bytes::lemma_le_bytes_len(block.height as nat, 4);
    bytes::lemma_le_bytes_len(block.time as nat, 4);
    bytes::lemma_le_bytes_len(
        (stream::footer_payload(block.height, block.time).len() as u32) as nat,
        4,
    );
}

// ---------------------------------------------------------------------------
// Reading a stream back
// ---------------------------------------------------------------------------

/// A packet that is written is the packet that is read.
pub proof fn law_packet_round_trip(payload: Seq<u8>, rest: Seq<u8>)
    requires
        payload.len() <= u32::MAX,
    ensures
        stream::first_packet(stream::packet(payload) + rest) == Some(payload),
        (stream::packet(payload) + rest).skip(4 + payload.len() as int) == rest,
{
    let data = stream::packet(payload) + rest;
    bytes::lemma_le_round_trip_u32(payload.len() as u32);
    assert(data.take(4) =~= bytes::le_bytes((payload.len() as u32) as nat, 4));
    assert(data.subrange(4, 4 + payload.len() as int) =~= payload);
    assert(data.skip(4 + payload.len() as int) =~= rest);
}

/// A footer closes the block that it was written for.
proof fn lemma_footer(height: u32, time: u32, txs: Seq<TxModel>)
    ensures
        stream::is_footer(stream::footer_payload(height, time)),
        stream::closed_block(stream::footer_payload(height, time), txs) == (BlockModel {
            height,
            time,
            txs,
        }),
{
    let footer = stream::footer_payload(height, time);
    bytes::lemma_le_round_trip_u32(height);
    bytes::lemma_le_round_trip_u32(time);
    assert(footer.subrange(1, 5) =~= bytes::le_bytes(height as nat, 4));
    assert(footer.subrange(5, 9) =~= bytes::le_bytes(time as nat, 4));
}

/// The transactions of a block and its footer read back as one block, behind
/// whatever transactions were pending.
proof fn lemma_block_reads_back(block: BlockModel, pending: Seq<TxModel>, rest: Seq<u8>)
    requires
        readable_block(block),
    ensures
        stream::blocks_in(stream::block_bytes(block, StreamFormat::PivxCompat) + rest, pending)
            == seq![
            (BlockModel {
                txs: pending + scanner::parsed_block(block).txs,
                ..block
            }),
        ] + stream::blocks_in(rest, Seq::empty()),
    decreases block.txs.len(),
{
    let format = StreamFormat::PivxCompat;
    let footer = stream::footer_payload(block.height, block.time);
    let data = stream::block_bytes(block, format) + rest;
    let parts = stream::tx_parts(block.txs, format);
    let whole = BlockModel { txs: pending + scanner::parsed_block(block).txs, ..block };
    if block.txs.len() == 0 {
        lemma_footer(block.height, block.time, pending);
        assert(data =~= stream::packet(footer) + rest);
        law_packet_round_trip(footer, rest);
        assert(pending + scanner::parsed_block(block).txs =~= pending);
        assert(whole == stream::closed_block(footer, pending));
    } else {
        let tx = block.txs[0];
        assert(readable_tx(tx));
        let tail = BlockModel { txs: block.txs.drop_first(), ..block };
        assert forall|k: int| 0 <= k < tail.txs.len() implies #[trigger] readable_tx(
            tail.txs[k],
        ) by {
            assert(readable_tx(block.txs[k + 1]));
        }
        bytes::lemma_joined_first(parts);
        assert(parts.drop_first() =~= stream::tx_parts(tail.txs, format));
        assert(data =~= stream::packet(tx.raw) + (stream::block_bytes(tail, format) + rest));
        law_packet_round_trip(tx.raw, stream::block_bytes(tail, format) + rest);
        let more = pending.push(scanner::parsed_tx(tx.raw));
        lemma_block_reads_back(tail, more, rest);
        assert(more + scanner::parsed_block(tail).txs =~= pending
            + scanner::parsed_block(block).txs);
    }
}

/// Reading a stream gives back the blocks that were written, each transaction
/// with the compact data of its own bytes, and then whatever follows them.
pub proof fn law_stream_reads_back(blocks: Seq<BlockModel>, rest: Seq<u8>)
    requires
        readable(blocks),
    ensures
        stream::blocks_in(
            stream::stream_bytes(blocks, StreamFormat::PivxCompat) + rest,
            Seq::empty(),
        ) == scanner::parsed_blocks(blocks) + stream::blocks_in(rest, Seq::empty()),
    decreases blocks.len(),
{
    let format = StreamFormat::PivxCompat;
    let data = stream::stream_bytes(blocks, format) + rest;
    if blocks.len() == 0 {
        assert(stream::block_parts(blocks, format) =~= Seq::empty());
        assert(data =~= rest);
        assert(scanner::parsed_blocks(blocks) + stream::blocks_in(rest, Seq::empty())
            =~= stream::blocks_in(rest, Seq::empty()));
    } else {
        let tail = blocks.drop_first();
        let parts = stream::block_parts(blocks, format);
        bytes::lemma_joined_first(parts);
        assert(parts.drop_first() =~= stream::block_parts(tail, format));
        let after = stream::stream_bytes(tail, format) + rest;
        assert(data =~= stream::block_bytes(blocks[0], format) + after);
        assert(readable_block(blocks[0]));
        lemma_block_reads_back(blocks[0], Seq::empty(), after);
        assert forall|k: int| 0 <= k < tail.len() implies #[trigger] readable_block(tail[k]) by {
            assert(readable_block(blocks[k + 1]));
        }
        law_stream_reads_back(tail, rest);
        assert(Seq::<TxModel>::empty() + scanner::parsed_block(blocks[0]).txs
            =~= scanner::parsed_block(blocks[0]).txs);
        assert(seq![scanner::parsed_block(blocks[0])] + (scanner::parsed_blocks(tail)
            + stream::blocks_in(rest, Seq::empty())) =~= scanner::parsed_blocks(blocks)
            + stream::blocks_in(rest, Seq::empty()));
    }
}

/// The compact stream derived from the compatible stream of some blocks is the
/// compact stream of those blocks themselves, where their compact data is that
/// of their raw transactions.
pub proof fn law_compact_is_derived(blocks: Seq<BlockModel>, format: StreamFormat)
    requires
        readable(blocks),
        format != StreamFormat::PivxCompat,
        scanner::parsed_blocks(blocks) == blocks,
    ensures
        stream::stream_bytes(
            stream::blocks_in(
                stream::stream_bytes(blocks, StreamFormat::PivxCompat),
                Seq::empty(),
            ),
            format,
        ) == stream::stream_bytes(blocks, format),
{
    let data = stream::stream_bytes(blocks, StreamFormat::PivxCompat);
    law_stream_reads_back(blocks, Seq::empty());
    assert(data + Seq::<u8>::empty() =~= data);
    assert(blocks + stream::blocks_in(Seq::empty(), Seq::empty()) =~= blocks);
}

/// The shield transactions of a block are what their own raw bytes are.
proof fn lemma_shield_txs(items: Seq<JsonModel>, replies: Seq<Option<JsonModel>>)
    ensures
        forall|k: int|
            0 <= k < scanner::shield_txs(items, replies).len() ==> {
                let tx = #[trigger] scanner::shield_txs(items, replies)[k];
                scanner::shield_tx(tx.raw) == Some(tx)
            },
    decreases items.len(),
{
    if items.len() > 0 {
        lemma_shield_txs(items.drop_last(), replies);
    }
}

/// What a scan finds can be served in every format: the compact data of each
/// transaction is that of its raw bytes, and no transaction looks like a footer,
/// so that every block whose transactions fit into their packets reads back.
pub proof fn law_scanned_blocks_read_back(
    block: JsonModel,
    replies: Seq<Option<JsonModel>>,
    height: u32,
)
    ensures
        scanner::scanned(block, replies, height) matches Ok(Some(found)) ==> {
            &&& scanner::parsed_block(found) == found
            &&& framed_block(found) ==> readable_block(found)
        },
{
    if let Ok(Some(found)) = scanner::scanned(block, replies, height) {
        let items = scanner::block_items(block)->0;
        lemma_shield_txs(items, replies);
        assert forall|k: int| 0 <= k < found.txs.len() implies {
            let tx = #[trigger] found.txs[k];
            &&& scanner::parsed_tx(tx.raw) == tx
            &&& 0 < tx.raw.len()
            &&& !stream::is_footer(tx.raw)
        } by {
            let tx = found.txs[k];
            assert(tx == scanner::shield_txs(items, replies)[k]);
            assert(tx.raw[0] == tx.raw.take(4)[0]);
            assert(scanner::SAPLING_HEADER@[0] == 0x03);
        }
        assert(scanner::parsed_block(found).txs =~= found.txs);
    }
}

// ---------------------------------------------------------------------------
// Recovery after a crash
// ---------------------------------------------------------------------------

/// Whether the length of every transaction of `block` fits into its prefix.
pub open spec fn framed_block(block: BlockModel) -> bool {
    forall|k: int| 0 <= k < block.txs.len() ==> (#[trigger] block.txs[k]).raw.len() <= u32::MAX
}

/// Whether the length of every transaction of `blocks` fits into its prefix.
pub open spec fn framed(blocks: Seq<BlockModel>) -> bool {
    forall|k: int| 0 <= k < blocks.len() ==> #[trigger] framed_block(blocks[k])
}

/// Where the last footer ends, in what follows a stretch of `len` bytes that
/// ends with a footer itself.
pub open spec fn footer_end_behind(len: int, rest: Seq<u8>) -> Option<int> {
    match stream::last_footer_end(rest) {
        Some(later) => Some(len + later),
        None => Some(len),
    }
}

/// The last footer of a block and what follows it.
proof fn lemma_block_footer_end(block: BlockModel, rest: Seq<u8>)
    requires
        framed_block(block),
    ensures
        ({
            let bytes = stream::block_bytes(block, StreamFormat::PivxCompat);
            stream::last_footer_end(bytes + rest) == footer_end_behind(bytes.len() as int, rest)
        }),
    decreases block.txs.len(),
{
    let format = StreamFormat::PivxCompat;
    let footer = stream::footer_payload(block.height, block.time);
    let data = stream::block_bytes(block, format) + rest;
    let parts = stream::tx_parts(block.txs, format);
    lemma_footer(block.height, block.time, Seq::empty());
    if block.txs.len() == 0 {
        assert(data =~= stream::packet(footer) + rest);
        assert(stream::block_bytes(block, format) =~= stream::packet(footer));
        law_packet_round_trip(footer, rest);
        bytes::lemma_le_bytes_len((footer.len() as u32) as nat, 4);
    } else {
        let tx = block.txs[0];
        let less = BlockModel { txs: block.txs.drop_first(), ..block };
        assert forall|k: int| 0 <= k < less.txs.len() implies (#[trigger] less.txs[k]).raw.len()
            <= u32::MAX by {
            assert(less.txs[k] == block.txs[k + 1]);
        }
        bytes::lemma_joined_first(parts);
        assert(parts.drop_first() =~= stream::tx_parts(less.txs, format));
        let after = stream::block_bytes(less, format) + rest;
        assert(data =~= stream::packet(tx.raw) + after);
        assert(stream::block_bytes(block, format) =~= stream::packet(tx.raw)
            + stream::block_bytes(less, format));
        law_packet_round_trip(tx.raw, after);
        bytes::lemma_le_bytes_len((tx.raw.len() as u32) as nat, 4);
        lemma_block_footer_end(less, rest);
    }
}

/// The last footer of a stream of blocks is where the stream ends, unless a
/// complete footer follows. So a crash in the middle of a block costs that block
/// alone: recovery keeps every complete block and nothing else.
pub proof fn law_recovery_keeps_complete_blocks(blocks: Seq<BlockModel>, rest: Seq<u8>)
    requires
        blocks.len() > 0,
        framed(blocks),
    ensures
        ({
            let kept = stream::stream_bytes(blocks, StreamFormat::PivxCompat);
            stream::last_footer_end(kept + rest) == footer_end_behind(kept.len() as int, rest)
        }),
    decreases blocks.len(),
{
    let format = StreamFormat::PivxCompat;
    let kept = stream::stream_bytes(blocks, format);
    let less = blocks.drop_first();
    let parts = stream::block_parts(blocks, format);
    bytes::lemma_joined_first(parts);
    assert(parts.drop_first() =~= stream::block_parts(less, format));
    let after = stream::stream_bytes(less, format) + rest;
    assert(kept + rest =~= stream::block_bytes(blocks[0], format) + after);
    assert(framed_block(blocks[0]));
    lemma_block_footer_end(blocks[0], after);
    if less.len() > 0 {
        assert forall|k: int| 0 <= k < less.len() implies #[trigger] framed_block(less[k]) by {
            assert(framed_block(blocks[k + 1]));
        }
        law_recovery_keeps_complete_blocks(less, rest);
    } else {
        assert(stream::block_parts(less, format) =~= Seq::empty());
        assert(after =~= rest);
    }
}

/// The height that stands in the last footer of a stream is that of its last block.
pub proof fn law_recovered_height(blocks: Seq<BlockModel>, rest: Seq<u8>)
    requires
        blocks.len() > 0,
    ensures
        ({
            let kept = stream::stream_bytes(blocks, StreamFormat::PivxCompat);
            let end = kept.len() as int;
            bytes::le_value((kept + rest).subrange(end - 8, end - 4)) == blocks.last().height
        }),
{
    let format = StreamFormat::PivxCompat;
    let last = blocks.last();
    let kept = stream::stream_bytes(blocks, format);
    let end = kept.len() as int;
    let footer = stream::footer_payload(last.height, last.time);
    assert(kept == bytes::joined(stream::block_parts(blocks, format).drop_last())
        + stream::block_bytes(last, format));
    lemma_block_not_empty(last);
    bytes::lemma_le_round_trip_u32(last.height);
    bytes::lemma_le_bytes_len(last.time as nat, 4);
    assert(stream::block_bytes(last, format).len() >= 9);
    assert(kept.subrange(end - 9, end) =~= footer);
    assert((kept + rest).subrange(end - 8, end - 4) =~= footer.subrange(1, 5));
    assert(footer.subrange(1, 5) =~= bytes::le_bytes(last.height as nat, 4));
}

// ---------------------------------------------------------------------------
// Appending and rewinding
// ---------------------------------------------------------------------------

/// The blocks below `fork`.
pub open spec fn blocks_below(blocks: Seq<BlockModel>, fork: u32) -> Seq<BlockModel> {
    blocks.filter(|b: BlockModel| b.height < fork)
}

/// The blocks at or above `start`.
pub open spec fn blocks_from(blocks: Seq<BlockModel>, start: u32) -> Seq<BlockModel> {
    blocks.filter(|b: BlockModel| b.height >= start)
}

/// The blocks at or above `start` and no higher than `end`.
pub open spec fn blocks_between(blocks: Seq<BlockModel>, start: u32, end: u32) -> Seq<BlockModel> {
    blocks.filter(|b: BlockModel| start <= b.height <= end)
}

/// The empty store mirrors no blocks.
pub proof fn law_empty_store()
    ensures
        mirrors(Seq::empty(), Seq::empty(), Seq::empty()),
{
    assert(stream::block_parts(Seq::empty(), StreamFormat::PivxCompat) =~= Seq::empty());
}

/// Appending a block that is higher than all others, with the offset at which
/// its bytes land, keeps index and stream in step.
pub proof fn law_append_keeps_mirror(
    entries: Seq<IndexEntry>,
    buffer: Seq<u8>,
    blocks: Seq<BlockModel>,
    block: BlockModel,
    entry: IndexEntry,
)
    requires
        mirrors(entries, buffer, blocks),
        entries.len() > 0 ==> entries.last().block < block.height,
        entry.block == block.height,
        entry.i == buffer.len(),
    ensures
        mirrors(
            entries.push(entry),
            buffer + stream::block_bytes(block, StreamFormat::PivxCompat),
            blocks.push(block),
        ),
        !index::heights(entries).contains(block.height),
{
    let format = StreamFormat::PivxCompat;
    let all = blocks.push(block);
    let longer = entries.push(entry);
    law_stream_concat(blocks, seq![block], format);
    lemma_stream_single(block, format);
    assert(blocks + seq![block] =~= all);
    assert forall|k: int| 0 <= k < all.len() implies {
        &&& (#[trigger] longer[k]).block == all[k].height
        &&& longer[k].i == stream::stream_bytes(all.take(k), format).len()
    } by {
        if k < blocks.len() {
            assert(all.take(k) =~= blocks.take(k));
            assert(longer[k] == entries[k]);
        } else {
            assert(all.take(k) =~= blocks);
        }
    }
    let s = index::heights(longer);
    assert forall|j: int, k: int| 0 <= j < k < s.len() implies s[j] < s[k] by {
        let t = index::heights(entries);
        assert(s[j] == t[j]);
        if k < t.len() {
            assert(s[k] == t[k]);
        } else if j < t.len() - 1 {
            assert(t[j] < t[t.len() - 1]);
        }
    }
    if index::heights(entries).contains(block.height) {
        let t = index::heights(entries);
        let j = choose|j: int| 0 <= j < t.len() && t[j] == block.height;
        if j < t.len() - 1 {
            assert(t[j] < t[t.len() - 1]);
        }
        assert(t[t.len() - 1] == entries.last().block);
    }
}

/// Cutting the stream at the offset of the first entry at or above the fork and
/// dropping the entries from the fork on leaves exactly the blocks below the
/// fork: no orphan bytes stay behind.
pub proof fn law_rewind_keeps_mirror(
    entries: Seq<IndexEntry>,
    buffer: Seq<u8>,
    blocks: Seq<BlockModel>,
    fork: u32,
)
    requires
        mirrors(entries, buffer, blocks),
    ensures
        index::offset_from(entries, fork) matches Some(offset) ==> offset <= buffer.len()
            && mirrors(
            index::entries_below(entries, fork),
            buffer.take(offset as int),
            blocks_below(blocks, fork),
        ),
        index::offset_from(entries, fork) is None ==> index::entries_below(entries, fork)
            == entries && blocks_below(blocks, fork) == blocks,
{
    let format = StreamFormat::PivxCompat;
    let s = index::heights(entries);
    let p = index::place(s, fork);
    index::law_place_splits(s, fork);
    let fe = |e: IndexEntry| e.block < fork;
    let fb = |b: BlockModel| b.height < fork;
    assert forall|k: int| 0 <= k < entries.len() implies #[trigger] fe(entries[k]) == (0 <= k
        < p) by {
        assert(s[k] == entries[k].block);
    }
    assert forall|k: int| 0 <= k < blocks.len() implies #[trigger] fb(blocks[k]) == (0 <= k < p) by {
        assert(s[k] == entries[k].block);
    }
    index::lemma_filter_range(entries, fe, 0, p);
    index::lemma_filter_range(blocks, fb, 0, p);
    let kept = entries.take(p);
    let below = blocks.take(p);
    assert(entries.subrange(0, p) =~= kept);
    assert(blocks.subrange(0, p) =~= below);
    if p < entries.len() {
        lemma_stream_split(blocks, p, format);
        assert(entries[p].i == stream::stream_bytes(below, format).len());
        assert(buffer.take(entries[p].i as int) =~= stream::stream_bytes(below, format));
        assert forall|k: int| 0 <= k < below.len() implies {
            &&& (#[trigger] kept[k]).block == below[k].height
            &&& kept[k].i == stream::stream_bytes(below.take(k), format).len()
        } by {
            assert(kept[k] == entries[k]);
            assert(below.take(k) =~= blocks.take(k));
        }
        let t = index::heights(kept);
        assert forall|j: int, k: int| 0 <= j < k < t.len() implies t[j] < t[k] by {
            assert(t[j] == s[j] && t[k] == s[k]);
        }
    } else {
        assert(kept =~= entries);
        assert(below =~= blocks);
    }
}

// ---------------------------------------------------------------------------
// Serving
// ---------------------------------------------------------------------------

/// What stands in the stream from the offset that a search for `start` finds:
/// the blocks at or above `start`.
pub proof fn law_suffix_is_blocks_from(
    entries: Seq<IndexEntry>,
    buffer: Seq<u8>,
    blocks: Seq<BlockModel>,
    start: u32,
)
    requires
        mirrors(entries, buffer, blocks),
    ensures
        match index::offset_from(entries, start) {
            Some(offset) => offset < buffer.len() && buffer.skip(offset as int)
                == stream::stream_bytes(blocks_from(blocks, start), StreamFormat::PivxCompat),
            None => blocks_from(blocks, start).len() == 0,
        },
        blocks_from(blocks, start) == blocks.skip(index::place(index::heights(entries), start)),
{
    let format = StreamFormat::PivxCompat;
    let s = index::heights(entries);
    let p = index::place(s, start);
    index::law_place_splits(s, start);
    let f = |b: BlockModel| b.height >= start;
    let n = blocks.len() as int;
    assert forall|k: int| 0 <= k < blocks.len() implies #[trigger] f(blocks[k]) == (p <= k < n) by {
        assert(s[k] == entries[k].block);
    }
    index::lemma_filter_range(blocks, f, p, n);
    assert(blocks.subrange(p, n) =~= blocks.skip(p));
    if p < entries.len() {
        lemma_stream_split(blocks, p, format);
        assert(entries[p].i == stream::stream_bytes(blocks.take(p), format).len());
        assert(buffer.skip(entries[p].i as int) =~= stream::stream_bytes(blocks.skip(p), format));
        let rest = blocks.skip(p);
        bytes::lemma_joined_first(stream::block_parts(rest, format));
        lemma_block_not_empty(rest[0]);
    }
}

/// What stands in the stream between the offset that a search for `start` finds
/// and the offset of the first entry above `end`: the blocks from `start` to `end`.
pub proof fn law_range_is_blocks_between(
    entries: Seq<IndexEntry>,
    buffer: Seq<u8>,
    blocks: Seq<BlockModel>,
    start: u32,
    end: u32,
)
    requires
        mirrors(entries, buffer, blocks),
        buffer.len() <= u64::MAX,
    ensures
        ({
            let p = index::place(index::heights(entries), start);
            let from = index::offset_at(entries, p, buffer.len() as u64) as int;
            let to = index::offset_above(entries, end, buffer.len() as u64) as int;
            &&& from <= buffer.len()
            &&& to <= buffer.len()
            &&& stream::stream_bytes(blocks_between(blocks, start, end), StreamFormat::PivxCompat)
                == (if from <= to {
                buffer.subrange(from, to)
            } else {
                Seq::empty()
            })
            &&& from < to ==> exists|q: int|
                p <= q <= blocks.len() && blocks_between(blocks, start, end)
                    == #[trigger] blocks.subrange(p, q)
        }),
{
    let format = StreamFormat::PivxCompat;
    let s = index::heights(entries);
    let n = blocks.len() as int;
    let p = index::place(s, start);
    index::law_place_splits(s, start);
    let q = if end == u32::MAX {
        n
    } else {
        index::lemma_ascending_splits(s, (end + 1) as u32)
    };
    assert forall|k: int| 0 <= k < n implies (#[trigger] entries[k]).block == s[k] by {}
    index::lemma_offset_above(entries, end, buffer.len() as u64, q);
    let f = |b: BlockModel| start <= b.height <= end;
    lemma_offset_is_prefix(entries, buffer, blocks, p);
    lemma_offset_is_prefix(entries, buffer, blocks, q);
    if p <= q {
        assert forall|k: int| 0 <= k < n implies #[trigger] f(blocks[k]) == (p <= k < q) by {
            assert(s[k] == entries[k].block);
        }
        index::lemma_filter_range(blocks, f, p, q);
        let mid = blocks.subrange(p, q);
        lemma_stream_split(blocks, q, format);
        lemma_stream_split(blocks.take(q), p, format);
        assert(blocks.take(q).take(p) =~= blocks.take(p));
        assert(blocks.take(q).skip(p) =~= mid);
        let from = stream::stream_bytes(blocks.take(p), format).len() as int;
        let to = stream::stream_bytes(blocks.take(q), format).len() as int;
        assert(buffer.subrange(from, to) =~= stream::stream_bytes(mid, format));
        assert(p <= q <= blocks.len() && blocks_between(blocks, start, end) == blocks.subrange(p, q));
    } else {
        assert forall|k: int| 0 <= k < n implies #[trigger] f(blocks[k]) == (0 <= k < 0) by {
            assert(s[k] == entries[k].block);
        }
        index::lemma_filter_range(blocks, f, 0, 0);
        assert(blocks.subrange(0, 0) =~= Seq::empty());
        assert(stream::block_parts(Seq::empty(), format) =~= Seq::empty());
        lemma_stream_split(blocks.take(p), q, format);
        assert(blocks.take(p).take(q) =~= blocks.take(q));
        let from = stream::stream_bytes(blocks.take(p), format).len() as int;
        let to = stream::stream_bytes(blocks.take(q), format).len() as int;
        assert(to <= from);
        assert(from == to ==> buffer.subrange(from, to) =~= Seq::empty());
    }
}

/// The offset at a place is the length of the stream of all blocks before it.
proof fn lemma_offset_is_prefix(
    entries: Seq<IndexEntry>,
    buffer: Seq<u8>,
    blocks: Seq<BlockModel>,
    p: int,
)
    requires
        mirrors(entries, buffer, blocks),
        buffer.len() <= u64::MAX,
        0 <= p <= entries.len(),
    ensures
        index::offset_at(entries, p, buffer.len() as u64) == stream::stream_bytes(
            blocks.take(p),
            StreamFormat::PivxCompat,
        ).len(),
        stream::stream_bytes(blocks.take(p), StreamFormat::PivxCompat).len() <= buffer.len(),
{
    lemma_stream_split(blocks, p, StreamFormat::PivxCompat);
    if p == entries.len() {
        assert(blocks.take(p) =~= blocks);
    } else {
        assert(entries[p].i == stream::stream_bytes(
            blocks.take(p),
            StreamFormat::PivxCompat,
        ).len());
    }
}

} // verus!

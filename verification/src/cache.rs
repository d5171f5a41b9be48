//! The persistent binary cache: what is appended to shield.bin, where each block
//! lands in it, and how much of it survives a crash.

use vstd::prelude::*;
use crate::api::StreamFormat;
use crate::bytes;
use crate::scanner::ShieldBlock;
use crate::stream;

verus! {

/// What appending blocks to the cache file writes and where.
pub struct Append {
    /// For each block its height, its byte offset and its byte length.
    pub entries: Vec<(u32, u64, u64)>,
    /// For each block the bytes to write.
    pub chunks: Vec<Vec<u8>>,
}

/// The bytes of one block in the cache.
pub open spec fn cached_block(block: ShieldBlock) -> Seq<u8> {
    stream::block_bytes(block@, StreamFormat::PivxCompat)
}

/// The bytes of `blocks` in the cache.
pub open spec fn cached(blocks: Seq<ShieldBlock>) -> Seq<u8> {
    stream::stream_bytes(stream::models(blocks), StreamFormat::PivxCompat)
}

/// Whether `entry` and `chunk` are those of the `k`th of `blocks`, appended to a
/// cache of `end` bytes: its height, the offset behind all earlier blocks, its
/// length, and its bytes.
pub open spec fn lands(
    entry: (u32, u64, u64),
    chunk: Seq<u8>,
    end: u64,
    blocks: Seq<ShieldBlock>,
    k: int,
) -> bool {
    &&& entry.0 == blocks[k].height
    &&& entry.1 == end + cached(blocks.take(k)).len()
    &&& entry.2 == cached_block(blocks[k]).len()
    &&& chunk == cached_block(blocks[k])
}

/// Lay out `blocks` behind a cache of `end` bytes: the entry and the bytes of
/// each block, or nothing where the offsets would not fit into 64 bits.
pub fn append_blocks(end: u64, blocks: &[ShieldBlock]) -> (r: Option<Append>)
    ensures
        r is None <==> end + cached(blocks@).len() > u64::MAX,
        r matches Some(a) ==> {
            &&& a.entries@.len() == blocks@.len()
            &&& a.chunks@.len() == blocks@.len()
            &&& forall|k: int|
                0 <= k < blocks@.len() ==> #[trigger] lands(
                    a.entries@[k],
                    a.chunks@[k]@,
                    end,
                    blocks@,
                    k,
                )
        },
{
    let mut offset: u64 = end;
    let mut entries: Vec<(u32, u64, u64)> = Vec::new();
    let mut chunks: Vec<Vec<u8>> = Vec::new();
    let mut i: usize = 0;
    proof {
        assert(stream::block_parts(stream::models(blocks@.take(0)), StreamFormat::PivxCompat)
            =~= Seq::empty());
    }
    while i < blocks.len()
        invariant
            i <= blocks@.len(),
            entries@.len() == i,
            chunks@.len() == i,
            offset == end + cached(blocks@.take(i as int)).len(),
            forall|k: int|
                0 <= k < i ==> #[trigger] lands(entries@[k], chunks@[k]@, end, blocks@, k),
        decreases blocks@.len() - i,
    {
        let mut encoded: Vec<u8> = Vec::new();
        stream::encode_pivx_compat(&mut encoded, &blocks[i]);
        let len: u64 = encoded.len() as u64;
        proof {
            assert(encoded@ =~= cached_block(blocks@[i as int]));
            lemma_cached_grows(blocks@, i as int);
            lemma_cached_prefix(blocks@, i + 1);
        }
        if len > u64::MAX - offset {
            return None;
        }
        let ghost entries_before = entries@;
        let ghost chunks_before = chunks@;
        entries.push((blocks[i].height, offset, len));
        chunks.push(encoded);
        assert forall|k: int| 0 <= k < i + 1 implies #[trigger] lands(
            entries@[k],
            chunks@[k]@,
            end,
            blocks@,
            k,
        ) by {
            if k < i {
                assert(lands(entries_before[k], chunks_before[k]@, end, blocks@, k));
            }
        }
        offset = offset + len;
        i = i + 1;
    }
    assert(blocks@.take(i as int) =~= blocks@);
    Some(Append { entries, chunks })
}

/// One more block adds its own bytes.
proof fn lemma_cached_grows(blocks: Seq<ShieldBlock>, k: int)
    requires
        0 <= k < blocks.len(),
    ensures
        cached(blocks.take(k + 1)) == cached(blocks.take(k)) + cached_block(blocks[k]),
{
    let format = StreamFormat::PivxCompat;
    let parts = stream::block_parts(stream::models(blocks.take(k)), format);
    bytes::lemma_joined_push(parts, cached_block(blocks[k]));
    assert(stream::block_parts(stream::models(blocks.take(k + 1)), format) =~= parts.push(
        cached_block(blocks[k]),
    ));
}

/// The bytes of the first blocks are no longer than the bytes of all.
proof fn lemma_cached_prefix(blocks: Seq<ShieldBlock>, k: int)
    requires
        0 <= k <= blocks.len(),
    ensures
        cached(blocks.take(k)).len() <= cached(blocks).len(),
    decreases blocks.len() - k,
{
    if k == blocks.len() {
        assert(blocks.take(k) =~= blocks);
    } else {
        lemma_cached_grows(blocks, k);
        lemma_cached_prefix(blocks, k + 1);
    }
}

/// Scan the binary stream for the byte offset just past the last complete block
/// footer.
pub fn find_last_footer(data: &[u8]) -> (r: Option<usize>)
    ensures
        match (r, stream::last_footer_end(data@)) {
            (Some(end), Some(e)) => end == e,
            (None, None) => true,
            _ => false,
        },
{
    let mut pos: usize = 0;
    let mut found: Option<usize> = None;
    assert(data@.skip(0) =~= data@);
    loop
        invariant_except_break
            pos <= data@.len() == data.len(),
            stream::last_footer_end(data@) == (match stream::last_footer_end(
                data@.skip(pos as int),
            ) {
                Some(later) => Some(pos + later),
                None => match found {
                    Some(end) => Some(end as int),
                    None => None,
                },
            }),
        ensures
            stream::last_footer_end(data@) == (match found {
                Some(end) => Some(end as int),
                None => None,
            }),
        decreases data@.len() - pos,
    {
        let ghost suffix = data@.skip(pos as int);
        let len: usize = match stream::packet_len_at(data, pos) {
            Some(len) => len,
            None => {
                break ;
            },
        };
        let end: usize = pos + 4 + len;
        let ghost payload = data@.subrange(pos + 4, pos + 4 + len);
        assert(suffix.skip(4 + payload.len() as int) =~= data@.skip(end as int));
        if len == 9 && data[pos + 4] == stream::PACKET_TYPE_BLOCK {
            found = Some(end);
        }
        pos = end;
    }
    found
}

/// The last footer lies within the stream, with its length before it.
pub proof fn lemma_last_footer_is_footer(data: Seq<u8>)
    ensures
        stream::last_footer_end(data) matches Some(end) ==> 13 <= end <= data.len()
            && stream::is_footer(data.subrange(end - 9, end)),
    decreases data.len(),
{
    if let Some(payload) = stream::first_packet(data) {
        let end = 4 + payload.len() as int;
        let rest = data.skip(end);
        lemma_last_footer_is_footer(rest);
        match stream::last_footer_end(rest) {
            Some(later) => {
                assert(data.subrange(end + later - 9, end + later) =~= rest.subrange(
                    later - 9,
                    later,
                ));
            },
            None => {
                if stream::is_footer(payload) {
                    assert(data.subrange(end - 9, end) =~= payload);
                }
            },
        }
    }
}

/// What is left of a cache file after recovery.
pub struct Recovery {
    /// How many bytes to keep; what stands behind them is an incomplete block.
    pub keep: usize,
    /// Height of the last complete block.
    pub height: u32,
}

/// Recover the cache by cutting it behind the last complete block footer.
///
/// Prevents a half-written block from corrupting the stream. Nothing is
/// recovered from a file without a complete footer.
pub fn recover_cache(data: &[u8]) -> (r: Option<Recovery>)
    ensures
        match (r, stream::last_footer_end(data@)) {
            (Some(recovery), Some(end)) => {
                &&& recovery.keep == end
                &&& 13 <= end <= data@.len()
                &&& stream::is_footer(data@.subrange(end - 9, end))
                &&& recovery.height == bytes::le_value(data@.subrange(end - 8, end - 4))
            },
            (None, None) => true,
            _ => false,
        },
{
    match find_last_footer(data) {
        Some(keep) => {
            proof {
                lemma_last_footer_is_footer(data@);
            }
            // Footer payload: [0x5d][height:4LE][time:4LE]
            let height: u32 = bytes::read_u32_le(data, keep - 8);
            Some(Recovery { keep, height })
        },
        None => None,
    }
}

/// Blocks land one behind the other: the first at the end of the file as it was, and
/// each other right behind the one before it. Each takes as many bytes as are written
/// for it, which are those of the block in the format of the stream.
pub proof fn law_blocks_land_one_behind_the_other(
    entry: (u32, u64, u64),
    chunk: Seq<u8>,
    next_entry: (u32, u64, u64),
    next_chunk: Seq<u8>,
    end: u64,
    blocks: Seq<ShieldBlock>,
    k: int,
)
    requires
        0 <= k < blocks.len(),
        lands(entry, chunk, end, blocks, k),
    ensures
        k == 0 ==> entry.1 == end,
        entry.0 == blocks[k].height,
        entry.2 == chunk.len(),
        chunk == stream::block_bytes(blocks[k]@, StreamFormat::PivxCompat),
        k + 1 < blocks.len() && lands(next_entry, next_chunk, end, blocks, k + 1) ==> next_entry.1
            == entry.1 + chunk.len(),
{
    lemma_cached_grows(blocks, k);
    if k == 0 {
        assert(stream::block_parts(stream::models(blocks.take(0)), StreamFormat::PivxCompat)
            =~= Seq::empty());
    }
}

} // verus!

//! The HTTP interface: its queries, its stream formats, and what it answers.

use vstd::prelude::*;
use std::collections::{HashMap, VecDeque};
use crate::bytes;
use crate::index;
use crate::index::ShieldIndex;
use crate::scanner;
use crate::scanner::{BlockModel, CompactTx, TxModel};
use crate::store;
use crate::stream;
use crate::text;

verus! {

/// Stream format for the shield sync protocol.
#[derive(Debug, Clone, Copy, PartialEq, Eq, Structural)]
pub enum StreamFormat {
    /// PIVX-compatible (default): full raw transactions, then a 0x5d block footer
    /// with the time of the block.
    PivxCompat,
    /// Compact (0x04): strips proofs and signatures, keeps cv and out_ciphertext
    /// (756 bytes per output).
    Compact,
    /// Compact+ (0x05): strips cv and out_ciphertext too (644 bytes per output).
    CompactPlus,
}

impl Default for StreamFormat {
    fn default() -> (format: StreamFormat)
        ensures
            format == StreamFormat::PivxCompat,
    {
        StreamFormat::PivxCompat
    }
}

// ---------------------------------------------------------------------------
// Hash cache
// ---------------------------------------------------------------------------

/// Fixed-size LRU cache for block height -> hash mappings: the least recently used
/// goes first.
pub struct HashCache {
    pub entries: HashMap<u32, String>,
    /// The heights, from the least to the most recently used.
    pub order: VecDeque<u32>,
    pub capacity: usize,
}

/// What a `HashCache` holds: the hashes, and the heights from the least to the most
/// recently used.
#[verifier::ext_equal]
pub struct HashCacheModel {
    pub hashes: Map<u32, Seq<char>>,
    pub order: Seq<u32>,
    pub capacity: nat,
}

impl HashCacheModel {
    /// The order lists each height once.
    pub open spec fn ordered(self) -> bool {
        &&& self.order.no_duplicates()
        &&& self.order.to_set() == self.hashes.dom()
    }

    /// The cache after a height was looked up: one that is there is then the most
    /// recently used.
    pub open spec fn used(self, height: u32) -> HashCacheModel {
        if self.hashes.contains_key(height) {
            HashCacheModel {
                order: self.order.remove(self.order.index_of(height)).push(height),
                ..self
            }
        } else {
            self
        }
    }

    /// The cache with one more height, in place of the least recently used where it
    /// is full.
    pub open spec fn inserted(self, height: u32, hash: Seq<char>) -> HashCacheModel {
        if self.hashes.contains_key(height) {
            self
        } else if self.order.len() >= self.capacity && self.order.len() > 0 {
            HashCacheModel {
                hashes: self.hashes.remove(self.order[0]).insert(height, hash),
                order: self.order.drop_first().push(height),
                capacity: self.capacity,
            }
        } else {
            HashCacheModel {
                hashes: self.hashes.insert(height, hash),
                order: self.order.push(height),
                capacity: self.capacity,
            }
        }
    }
}

impl View for HashCache {
    type V = HashCacheModel;

    open spec fn view(&self) -> HashCacheModel {
        HashCacheModel {
            hashes: self.entries@.map_values(|s: String| s@),
            order: self.order@,
            capacity: self.capacity as nat,
        }
    }
}

impl HashCache {
    /// The order lists each height once, and no more of them than there is room
    /// for (a cache without room still holds the last one).
    pub open spec fn wf(&self) -> bool {
        &&& self@.ordered()
        &&& self.order@.len() <= self.capacity || self.order@.len() <= 1
    }

    /// An empty cache for `capacity` heights.
    pub fn new(capacity: usize) -> (cache: HashCache)
        ensures
            cache.wf(),
            cache@ == (HashCacheModel {
                hashes: Map::empty(),
                order: Seq::empty(),
                capacity: capacity as nat,
            }),
    {
        let cache = HashCache { entries: HashMap::new(), order: VecDeque::new(), capacity };
        assert(cache@.hashes =~= Map::empty());
        assert(cache.order@.to_set() =~= cache.entries@.dom());
        cache
    }

    /// The hash at `height`, if it is cached. One that is found counts as used.
    pub fn get(&mut self, height: u32) -> (r: Option<&str>)
        requires
            old(self).wf(),
        ensures
            final(self).wf(),
            final(self)@ == old(self)@.used(height),
            match r {
                Some(hash) => old(self)@.hashes.contains_key(height) && hash@
                    == old(self)@.hashes[height],
                None => !old(self)@.hashes.contains_key(height),
            },
    {
        self.touch(height);
        match self.entries.get(&height) {
            Some(hash) => Some(hash.as_str()),
            None => None,
        }
    }

    /// Make `height` the most recently used, if it is cached.
    fn touch(&mut self, height: u32)
        requires
            old(self).wf(),
        ensures
            final(self).wf(),
            final(self)@ == old(self)@.used(height),
            final(self).entries == old(self).entries,
    {
        let ghost before = *self;
        let mut p: usize = 0;
        while p < self.order.len() && self.order[p] != height
            invariant
                *self == before,
                p <= self.order@.len() == self.order.len(),
                forall|j: int| 0 <= j < p ==> self.order@[j] != height,
            decreases self.order@.len() - p,
        {
            p = p + 1;
        }
        if p < self.order.len() {
            self.order.remove(p);
            self.order.push_back(height);
            proof {
                let list = before.order@;
                assert(list.contains(height)) by {
                    assert(list[p as int] == height);
                }
                assert(list.index_of(height) == p);
                assert(self.order@ =~= list.remove(p as int).push(height));
                assert(list.to_set().contains(height));
                assert forall|h: u32| #[trigger] self.order@.to_set().contains(h)
                    == list.to_set().contains(h) by {
                    if list.contains(h) {
                        let k = choose|k: int| 0 <= k < list.len() && list[k] == h;
                        if k < p {
                            assert(self.order@[k] == h);
                        } else if k > p {
                            assert(self.order@[k - 1] == h);
                        } else {
                            assert(self.order@[list.len() - 1] == h);
                        }
                    }
                    if self.order@.contains(h) {
                        let k = choose|k: int| 0 <= k < self.order@.len() && self.order@[k] == h;
                        if k < p {
                            assert(list[k] == h);
                        } else if k < list.len() - 1 {
                            assert(list[k + 1] == h);
                        }
                    }
                }
                assert(self.order@.to_set() =~= list.to_set());
                assert(self@ =~= before@.used(height));
            }
        } else {
            proof {
                if before@.hashes.contains_key(height) {
                    assert(before.order@.to_set().contains(height));
                }
            }
        }
    }

    /// Cache the hash at `height`; a height that is there already keeps its hash.
    pub fn insert(&mut self, height: u32, hash: String)
        requires
            old(self).wf(),
        ensures
            final(self).wf(),
            final(self)@ == old(self)@.inserted(height, hash@),
    {
        let ghost before = *self;
        proof {
            self.order@.unique_seq_to_set();
            assert(self@.hashes.dom() =~= self.entries@.dom());
        }
        if self.entries.contains_key(&height) {
            return ;
        }
        if self.entries.len() >= self.capacity {
            if let Some(oldest) = self.order.pop_front() {
                self.entries.remove(&oldest);
                proof {
                    let rest = before.order@.drop_first();
                    assert(self.order@ =~= rest);
                    assert forall|h: u32| #[trigger] rest.to_set().contains(h) == before.entries@.remove(
                        oldest,
                    ).dom().contains(h) by {
                        if rest.contains(h) {
                            let k = choose|k: int| 0 <= k < rest.len() && rest[k] == h;
                            assert(before.order@[k + 1] == h);
                            assert(before.order@.to_set().contains(h));
                            assert(before.order@[0] != before.order@[k + 1]);
                        }
                        if before.entries@.remove(oldest).dom().contains(h) {
                            assert(before.order@.to_set().contains(h));
                            let k = choose|k: int| 0 <= k < before.order@.len() && before.order@[k] == h;
                            assert(rest[k - 1] == h);
                        }
                    }
                    assert(self.order@.to_set() =~= self.entries@.dom());
                    assert(self@.hashes =~= before@.hashes.remove(oldest));
                }
            }
        }
        let ghost middle = *self;
        self.entries.insert(height, hash);
        self.order.push_back(height);
        proof {
            assert(!middle.order@.contains(height)) by {
                if middle.order@.contains(height) {
                    assert(middle.order@.to_set().contains(height));
                }
            }
            assert(self@.hashes =~= middle@.hashes.insert(height, hash@));
            assert forall|h: u32| #[trigger] self.order@.to_set().contains(h)
                == self.entries@.dom().contains(h) by {
                if middle.order@.contains(h) {
                    let k = choose|k: int| 0 <= k < middle.order@.len() && middle.order@[k] == h;
                    assert(self.order@[k] == h);
                    assert(middle.order@.to_set().contains(h));
                }
                if h == height {
                    assert(self.order@[middle.order@.len() as int] == h);
                }
                if self.entries@.dom().contains(h) && h != height {
                    assert(middle.order@.to_set().contains(h));
                }
            }
            assert(self@.hashes.dom() =~= self.entries@.dom());
            assert(self.order@.to_set() =~= self@.hashes.dom());
            assert(self@ =~= before@.inserted(height, hash@));
        }
    }
}

/// A height that is inserted is found, with the hash it had before if it was there.
pub proof fn law_inserted_height_is_found(m: HashCacheModel, height: u32, hash: Seq<char>)
    ensures
        m.inserted(height, hash).hashes.contains_key(height),
        m.inserted(height, hash).hashes[height] == (if m.hashes.contains_key(height) {
            m.hashes[height]
        } else {
            hash
        }),
{
}

/// A full cache gives up its least recently used height for a new one, and no other.
pub proof fn law_least_recently_used_goes_first(
    m: HashCacheModel,
    height: u32,
    hash: Seq<char>,
    other: u32,
)
    requires
        !m.hashes.contains_key(height),
        m.order.len() > 0,
        m.order.len() >= m.capacity,
        other != height,
    ensures
        m.inserted(height, hash).hashes.contains_key(other) == (m.hashes.contains_key(other)
            && other != m.order[0]),
        m.inserted(height, hash).order == m.order.drop_first().push(height),
{
}

/// Looking a height up renews it: the next insertion does not take it, as long as
/// another is there to go.
pub proof fn law_lookup_renews(m: HashCacheModel, height: u32, new: u32, hash: Seq<char>)
    requires
        m.ordered(),
        m.hashes.contains_key(height),
        m.order.len() > 1,
    ensures
        m.used(height).hashes == m.hashes,
        m.used(height).inserted(new, hash).hashes.contains_key(height),
        m.used(height).inserted(new, hash).hashes[height] == m.hashes[height],
{
    assert(m.order.to_set().contains(height));
    let p = m.order.index_of(height);
    assert(m.order[p] == height);
    let order = m.used(height).order;
    assert(order[0] == (if p == 0 {
        m.order[1]
    } else {
        m.order[0]
    }));
    assert(order[0] != height);
}

// ---------------------------------------------------------------------------
// Compact streams out of the compatible one
// ---------------------------------------------------------------------------

/// Encode a single compact or compact+ transaction packet.
pub fn encode_compact_packet(out: &mut Vec<u8>, compact: &CompactTx, format: StreamFormat)
    requires
        format != StreamFormat::PivxCompat,
    ensures
        final(out)@ == old(out)@ + stream::packet(stream::compact_payload(compact@, format)),
{
    match format {
        StreamFormat::CompactPlus => stream::encode_compact_plus_tx(out, compact),
        _ => stream::encode_compact_tx(out, compact, &[]),
    }
}

/// The transactions that raw packets hold.
pub open spec fn parsed_txs(raws: Seq<Vec<u8>>) -> Seq<TxModel> {
    Seq::new(raws.len(), |i: int| scanner::parsed_tx(raws[i]@))
}

/// Append a compact packet for each raw transaction that holds shielded data.
fn push_compact_txs(out: &mut Vec<u8>, raws: &Vec<Vec<u8>>, format: StreamFormat)
    requires
        format != StreamFormat::PivxCompat,
    ensures
        final(out)@ == old(out)@ + bytes::joined(stream::tx_parts(parsed_txs(raws@), format)),
{
    let ghost start = out@;
    let ghost parts = stream::tx_parts(parsed_txs(raws@), format);
    let mut i: usize = 0;
    assert(parts.take(0) =~= Seq::empty());
    while i < raws.len()
        invariant
            i <= raws@.len(),
            format != StreamFormat::PivxCompat,
            parts == stream::tx_parts(parsed_txs(raws@), format),
            out@ == start + bytes::joined(parts.take(i as int)),
        decreases raws@.len() - i,
    {
        let ghost before = out@;
        if let Ok(Some(compact)) = scanner::parse_sapling_tx(raws[i].as_slice()) {
            encode_compact_packet(out, &compact, format);
        }
        proof {
            reveal(scanner::compact_of);
            assert(parts[i as int] == stream::tx_part(scanner::parsed_tx(raws@[i as int]@), format));
            assert(out@ =~= before + parts[i as int]);
            bytes::lemma_joined_push(parts.take(i as int), parts[i as int]);
            assert(parts.take(i + 1) =~= parts.take(i as int).push(parts[i as int]));
            assert(out@ =~= start + bytes::joined(parts.take(i + 1)));
        }
        i = i + 1;
    }
    assert(parts.take(i as int) =~= parts);
}

/// Transform a compatible stream into the compact or compact+ stream of the
/// same blocks.
///
/// Walks the raw transaction packets, parses their Sapling fields, and re-encodes
/// them as compact packets. Block footers (9 bytes with time, behind the
/// transactions) become compact headers (5 bytes, height only, before them).
pub fn pivxcompat_to_compact(data: &[u8], format: StreamFormat) -> (out: Vec<u8>)
    requires
        format != StreamFormat::PivxCompat,
    ensures
        out@ == stream::stream_bytes(stream::blocks_in(data@, Seq::empty()), format),
{
    let mut out: Vec<u8> = Vec::new();
    let mut pos: usize = 0;
    let mut pending: Vec<Vec<u8>> = Vec::new();
    let ghost mut done: Seq<BlockModel> = Seq::empty();
    proof {
        assert(data@.skip(0) =~= data@);
        assert(parsed_txs(pending@) =~= Seq::empty());
        assert(stream::block_parts(done, format) =~= Seq::empty());
        assert(done + stream::blocks_in(data@, Seq::empty()) =~= stream::blocks_in(
            data@,
            Seq::empty(),
        ));
    }
    loop
        invariant_except_break
            pos <= data@.len() == data.len(),
            format != StreamFormat::PivxCompat,
            out@ == stream::stream_bytes(done, format),
            stream::blocks_in(data@, Seq::empty()) == done + stream::blocks_in(
                data@.skip(pos as int),
                parsed_txs(pending@),
            ),
        ensures
            out@ == stream::stream_bytes(stream::blocks_in(data@, Seq::empty()), format),
        decreases data@.len() - pos,
    {
        let ghost suffix = data@.skip(pos as int);
        let len: usize = match stream::packet_len_at(data, pos) {
            Some(len) => len,
            None => 0,
        };
        if len == 0 {
            assert(done =~= stream::blocks_in(data@, Seq::empty()));
            break ;
        }
        let ghost payload = data@.subrange(pos + 4, pos + 4 + len);
        let end: usize = pos + 4 + len;
        assert(suffix.skip(4 + payload.len() as int) =~= data@.skip(end as int));
        if data[pos + 4] == stream::PACKET_TYPE_BLOCK && len == 9 {
            let height: u32 = bytes::read_u32_le(data, pos + 5);
            let ghost block = stream::closed_block(payload, parsed_txs(pending@));
            assert(payload.subrange(1, 5) =~= data@.subrange(pos + 5, pos + 9));
            let ghost before = out@;
            stream::encode_block_header(&mut out, height);
            push_compact_txs(&mut out, &pending, format);
            pending.clear();
            proof {
                assert(out@ =~= before + stream::block_bytes(block, format));
                bytes::lemma_joined_push(
                    stream::block_parts(done, format),
                    stream::block_bytes(block, format),
                );
                assert(stream::block_parts(done.push(block), format) =~= stream::block_parts(
                    done,
                    format,
                ).push(stream::block_bytes(block, format)));
                assert(parsed_txs(pending@) =~= Seq::empty());
                assert(done + (seq![block] + stream::blocks_in(data@.skip(end as int), Seq::empty()))
                    =~= done.push(block) + stream::blocks_in(data@.skip(end as int), Seq::empty()));
                done = done.push(block);
            }
        } else {
            let ghost before = pending@;
            let raw = vstd::slice::slice_to_vec(vstd::slice::slice_subrange(data, pos + 4, end));
            assert(raw@ =~= payload);
            pending.push(raw);
            assert(parsed_txs(pending@) =~= parsed_txs(before).push(scanner::parsed_tx(payload)));
        }
        pos = end;
    }
    out
}

// ---------------------------------------------------------------------------
// GET /mainnet/getshielddata?startBlock=N&format=...
// ---------------------------------------------------------------------------

/// The query of a request for shield data.
pub struct ShieldDataQuery {
    /// The first block that is wanted; without one, all are.
    pub start_block: Option<u32>,
    /// The format of the stream.
    pub format: StreamFormat,
}

impl ShieldDataQuery {
    /// The first height that is wanted.
    pub open spec fn start(&self) -> u32 {
        match self.start_block {
            Some(start) => start,
            None => 0,
        }
    }
}

/// A binary reply and its headers.
pub struct BinaryResponse {
    /// Value of the `Content-Type` header.
    pub content_type: String,
    /// Value of the `X-Content-Length` header.
    pub content_length: u64,
    /// The bytes themselves.
    pub body: Vec<u8>,
}

/// Build a binary response with its X-Content-Length header.
pub fn build_binary_response(data: Vec<u8>) -> (r: BinaryResponse)
    ensures
        r.body@ == data@,
        r.content_length == data@.len(),
        r.content_type@ == "application/octet-stream"@,
{
    let content_length: u64 = data.len() as u64;
    BinaryResponse {
        content_type: "application/octet-stream".to_string(),
        content_length,
        body: data,
    }
}

/// A compatible stream in another format.
pub open spec fn in_format(data: Seq<u8>, format: StreamFormat) -> Seq<u8> {
    match format {
        StreamFormat::PivxCompat => data,
        _ => stream::stream_bytes(stream::blocks_in(data, Seq::empty()), format),
    }
}

/// What is served from `start` on.
pub open spec fn served(
    entries: Seq<index::IndexEntry>,
    buffer: Seq<u8>,
    start: u32,
    format: StreamFormat,
) -> Seq<u8> {
    match index::offset_from(entries, start) {
        Some(offset) => if (offset as usize) < buffer.len() {
            in_format(buffer.skip((offset as usize) as int), format)
        } else {
            Seq::empty()
        },
        None => Seq::empty(),
    }
}

/// `data` in `format`.
fn to_format(data: &[u8], format: StreamFormat) -> (r: Vec<u8>)
    ensures
        r@ == in_format(data@, format),
{
    match format {
        StreamFormat::PivxCompat => {
            let r = vstd::slice::slice_to_vec(data);
            assert(r@ =~= data@);
            r
        },
        _ => pivxcompat_to_compact(data, format),
    }
}

/// Serve shield data as a binary stream, out of the buffer that holds the whole
/// compatible stream.
pub fn get_shield_data(index: &ShieldIndex, buffer: &Vec<u8>, query: &ShieldDataQuery) -> (r:
    BinaryResponse)
    ensures
        r.body@ == served(index.entries@, buffer@, query.start(), query.format),
        r.content_length == r.body@.len(),
        r.content_type@ == "application/octet-stream"@,
{
    let start: u32 = match query.start_block {
        Some(start) => start,
        None => 0,
    };
    if let Some(offset) = index.offset_for_height(start) {
        let offset: usize = offset as usize;
        if offset < buffer.len() {
            let rest = vstd::slice::slice_subrange(buffer.as_slice(), offset, buffer.len());
            assert(rest@ =~= buffer@.skip(offset as int));
            return build_binary_response(to_format(rest, query.format));
        }
    }
    build_binary_response(Vec::new())
}

/// Where the store mirrors some blocks, what is served from `start` on is the
/// stream of the blocks at or above it: their raw transactions in the compatible
/// format, the compact data of these in the others.
pub proof fn law_served_is_blocks_from(
    entries: Seq<index::IndexEntry>,
    buffer: Seq<u8>,
    blocks: Seq<BlockModel>,
    start: u32,
    format: StreamFormat,
)
    requires
        store::mirrors(entries, buffer, blocks),
        buffer.len() <= usize::MAX,
        format != StreamFormat::PivxCompat ==> store::readable(blocks),
    ensures
        format == StreamFormat::PivxCompat ==> served(entries, buffer, start, format)
            == stream::stream_bytes(store::blocks_from(blocks, start), format),
        format != StreamFormat::PivxCompat ==> served(entries, buffer, start, format)
            == stream::stream_bytes(
            scanner::parsed_blocks(store::blocks_from(blocks, start)),
            format,
        ),
{
    store::law_suffix_is_blocks_from(entries, buffer, blocks, start);
    let wanted = store::blocks_from(blocks, start);
    let p = index::place(index::heights(entries), start);
    index::law_place_splits(index::heights(entries), start);
    match index::offset_from(entries, start) {
        Some(offset) => {
            assert(offset as usize == offset);
            if format != StreamFormat::PivxCompat {
                assert forall|k: int| 0 <= k < wanted.len() implies #[trigger] store::readable_block(
                    wanted[k],
                ) by {
                    assert(store::readable_block(blocks[p + k]));
                }
                lemma_in_format(wanted, format);
            }
        },
        None => {
            assert(scanner::parsed_blocks(wanted) =~= Seq::empty());
            assert(stream::block_parts(wanted, format) =~= Seq::empty());
            assert(stream::block_parts(scanner::parsed_blocks(wanted), format) =~= Seq::empty());
        },
    }
}

/// The compact form of a compatible stream is the compact stream of its blocks.
proof fn lemma_in_format(blocks: Seq<BlockModel>, format: StreamFormat)
    requires
        store::readable(blocks),
        format != StreamFormat::PivxCompat,
    ensures
        in_format(stream::stream_bytes(blocks, StreamFormat::PivxCompat), format)
            == stream::stream_bytes(scanner::parsed_blocks(blocks), format),
{
    let data = stream::stream_bytes(blocks, StreamFormat::PivxCompat);
    store::law_stream_reads_back(blocks, Seq::empty());
    assert(data + Seq::<u8>::empty() =~= data);
    assert(scanner::parsed_blocks(blocks) + stream::blocks_in(Seq::empty(), Seq::empty())
        =~= scanner::parsed_blocks(blocks));
}

// ---------------------------------------------------------------------------
// GET /mainnet/getshielddatalength?startBlock=N&endBlock=M
// ---------------------------------------------------------------------------

/// The query of a request for the length of shield data.
pub struct ShieldDataLengthQuery {
    /// The first block that is wanted; without one, all are.
    pub start_block: Option<u32>,
    /// The last block that is wanted; without one, all are.
    pub end_block: Option<u32>,
    /// The format of the stream.
    pub format: StreamFormat,
}

impl ShieldDataLengthQuery {
    /// The first height that is wanted.
    pub open spec fn start(&self) -> u32 {
        match self.start_block {
            Some(start) => start,
            None => 0,
        }
    }

    /// The last height that is wanted.
    pub open spec fn end(&self) -> u32 {
        match self.end_block {
            Some(end) => end,
            None => u32::MAX,
        }
    }
}

/// Where the stretch from `start` begins, in a stream of `total` bytes.
pub open spec fn stretch_from(entries: Seq<index::IndexEntry>, start: u32, total: u64) -> u64 {
    index::offset_at(entries, index::place(index::heights(entries), start), total)
}

/// Whether the stretch from `start` to `end`, unless it is empty, lies within the
/// buffer.
pub open spec fn stretch_lies_within(
    entries: Seq<index::IndexEntry>,
    buffer: Seq<u8>,
    start: u32,
    end: u32,
) -> bool {
    let from = stretch_from(entries, start, buffer.len() as u64) as usize;
    let to = index::offset_above(entries, end, buffer.len() as u64) as usize;
    from < buffer.len() && from < to ==> to <= buffer.len()
}

/// How many bytes the stream takes from `start` to `end`.
pub open spec fn served_length(
    entries: Seq<index::IndexEntry>,
    buffer: Seq<u8>,
    start: u32,
    end: u32,
    format: StreamFormat,
) -> nat {
    let from = stretch_from(entries, start, buffer.len() as u64);
    let to = index::offset_above(entries, end, buffer.len() as u64);
    if format == StreamFormat::PivxCompat {
        if from <= to {
            (to - from) as nat
        } else {
            0
        }
    } else if (from as usize) < buffer.len() && (from as usize) < (to as usize) {
        in_format(buffer.subrange((from as usize) as int, (to as usize) as int), format).len()
    } else {
        0
    }
}

/// Where the store mirrors some blocks, every stretch lies within the buffer.
pub proof fn law_stretches_lie_within(
    entries: Seq<index::IndexEntry>,
    buffer: Seq<u8>,
    blocks: Seq<BlockModel>,
    start: u32,
    end: u32,
)
    requires
        store::mirrors(entries, buffer, blocks),
        buffer.len() <= usize::MAX,
    ensures
        stretch_lies_within(entries, buffer, start, end),
{
    store::law_range_is_blocks_between(entries, buffer, blocks, start, end);
}

/// The byte count of shield data between two block heights, in decimal.
///
/// Where a compact stretch is measured, it has to lie within the buffer.
pub fn get_shield_data_length(
    index: &ShieldIndex,
    buffer: &Vec<u8>,
    query: &ShieldDataLengthQuery,
) -> (r: String)
    requires
        query.format != StreamFormat::PivxCompat ==> stretch_lies_within(
            index.entries@,
            buffer@,
            query.start(),
            query.end(),
        ),
    ensures
        r@ == text::decimal_of(
            served_length(index.entries@, buffer@, query.start(), query.end(), query.format),
        ),
{
    let start: u32 = match query.start_block {
        Some(start) => start,
        None => 0,
    };
    let end: u32 = match query.end_block {
        Some(end) => end,
        None => u32::MAX,
    };
    let total: u64 = buffer.len() as u64;
    match query.format {
        StreamFormat::PivxCompat => text::decimal(index.byte_length_between(start, end, total)),
        _ => {
            proof {
                index::lemma_place_cut(index::heights(index.entries@), start);
            }
            let from: usize = match index.offset_for_height(start) {
                Some(offset) => offset as usize,
                None => buffer.len(),
            };
            let to: usize = index.offset_after(end, total) as usize;
            if from < buffer.len() && from < to {
                let part = vstd::slice::slice_subrange(buffer.as_slice(), from, to);
                text::decimal(to_format(part, query.format).len() as u64)
            } else {
                text::decimal(0)
            }
        },
    }
}

/// Where the store mirrors some blocks, the length that is reported is that of
/// the stream of the blocks from `start` to `end`.
pub proof fn law_length_is_that_of_the_stream(
    entries: Seq<index::IndexEntry>,
    buffer: Seq<u8>,
    blocks: Seq<BlockModel>,
    start: u32,
    end: u32,
    format: StreamFormat,
)
    requires
        store::mirrors(entries, buffer, blocks),
        buffer.len() <= usize::MAX,
        format != StreamFormat::PivxCompat ==> store::readable(blocks),
    ensures
        format == StreamFormat::PivxCompat ==> served_length(entries, buffer, start, end, format)
            == stream::stream_bytes(store::blocks_between(blocks, start, end), format).len(),
        format != StreamFormat::PivxCompat ==> served_length(entries, buffer, start, end, format)
            == stream::stream_bytes(
            scanner::parsed_blocks(store::blocks_between(blocks, start, end)),
            format,
        ).len(),
{
    store::law_range_is_blocks_between(entries, buffer, blocks, start, end);
    let wanted = store::blocks_between(blocks, start, end);
    let p = index::place(index::heights(entries), start);
    let from = stretch_from(entries, start, buffer.len() as u64);
    let to = index::offset_above(entries, end, buffer.len() as u64);
    let stretch = stream::stream_bytes(wanted, StreamFormat::PivxCompat);
    index::law_place_splits(index::heights(entries), start);
    if format != StreamFormat::PivxCompat {
        if from < to {
            let q = choose|q: int|
                p <= q <= blocks.len() && wanted == #[trigger] blocks.subrange(p, q);
            assert forall|k: int| 0 <= k < wanted.len() implies #[trigger] store::readable_block(
                wanted[k],
            ) by {
                assert(store::readable_block(blocks[p + k]));
            }
            lemma_in_format(wanted, format);
        } else {
            assert(stretch.len() == 0);
            assert(wanted.len() == 0) by {
                if wanted.len() > 0 {
                    let parts = stream::block_parts(wanted, StreamFormat::PivxCompat);
                    bytes::lemma_joined_first(parts);
                    store::lemma_block_not_empty(wanted[0]);
                }
            }
            assert(stream::block_parts(scanner::parsed_blocks(wanted), format) =~= Seq::empty());
        }
    }
}

// ---------------------------------------------------------------------------
// The other routes
// ---------------------------------------------------------------------------

/// All shield block heights.
pub fn get_shield_blocks(index: &ShieldIndex) -> (r: Vec<u32>)
    ensures
        r@ == index.shield_heights@,
{
    let r = vstd::slice::slice_to_vec(index.shield_heights.as_slice());
    assert(r@ =~= index.shield_heights@);
    r
}

/// An HTTP error: its status code and its message.
pub struct HttpError {
    pub status: u16,
    pub message: String,
}

/// The block count as the node reports it, in decimal.
pub fn get_block_count(reply: Result<u64, String>) -> (r: Result<String, HttpError>)
    ensures
        match (reply, r) {
            (Ok(count), Ok(text)) => text@ == text::decimal_of(count as nat),
            (Err(e), Err(error)) => error.status == 502 && error.message@ == "node error: "@ + e@,
            _ => false,
        },
{
    match reply {
        Ok(count) => Ok(text::decimal(count)),
        Err(e) => Err(HttpError { status: 502, message: text::join2("node error: ", e.as_str()) }),
    }
}

/// The longest transaction that is accepted, in bytes of hex.
pub const MAX_TRANSACTION_HEX: usize = 10_000_000;

/// The hex of a transaction to broadcast, out of the body of the request.
pub fn send_raw_transaction(body: &str) -> (r: Result<String, HttpError>)
    ensures
        ({
            let hex = text::trimmed(body@);
            let len = vstd::utf8::encode_utf8(hex).len();
            match r {
                Ok(accepted) => hex.len() > 0 && len <= MAX_TRANSACTION_HEX && accepted@ == hex,
                Err(error) => if hex.len() == 0 {
                    error.status == 400 && error.message@ == "empty transaction hex"@
                } else {
                    len > MAX_TRANSACTION_HEX && error.status == 413 && error.message@
                        == "transaction too large"@
                },
            }
        }),
{
    let hex = text::trim(body);
    if text::is_empty(hex.as_str()) {
        return Err(HttpError { status: 400, message: "empty transaction hex".to_string() });
    }
    if hex.as_str().as_bytes().len() > MAX_TRANSACTION_HEX {
        return Err(HttpError { status: 413, message: "transaction too large".to_string() });
    }
    Ok(hex)
}

/// What a client is told of a broadcast: the id of the transaction, or why the
/// node refused it.
pub fn broadcast_reply(reply: Result<String, String>) -> (r: Result<String, HttpError>)
    ensures
        match (reply, r) {
            (Ok(txid), Ok(text)) => text@ == txid@,
            (Err(e), Err(error)) => error.status == 400 && error.message@ == e@,
            _ => false,
        },
{
    match reply {
        Ok(txid) => Ok(txid),
        Err(e) => Err(HttpError { status: 400, message: e }),
    }
}

// ---------------------------------------------------------------------------
// Laws
// ---------------------------------------------------------------------------

/// While there is room, an insertion takes nothing away: the new height comes last, and
/// all others are as they were, in their order.
pub proof fn law_insertion_with_room_keeps_all(
    m: HashCacheModel,
    height: u32,
    hash: Seq<char>,
    other: u32,
)
    requires
        !m.hashes.contains_key(height),
        m.order.len() < m.capacity,
        other != height,
    ensures
        m.inserted(height, hash).hashes.contains_key(other) <==> m.hashes.contains_key(other),
        m.inserted(height, hash).hashes[other] == m.hashes[other],
        m.inserted(height, hash).order == m.order.push(height),
        m.inserted(height, hash).capacity == m.capacity,
{
}

/// Looking a height up makes it the most recently used and leaves the order of all others
/// as it was. One that is not there changes nothing.
pub proof fn law_lookup_moves_one_height(m: HashCacheModel, height: u32, p: int)
    requires
        m.ordered(),
        0 <= p < m.order.len(),
        m.order[p] == height,
    ensures
        m.used(height).hashes == m.hashes,
        m.used(height).order == m.order.take(p) + m.order.skip(p + 1) + seq![height],
        forall|absent: u32| !m.hashes.contains_key(absent) ==> #[trigger] m.used(absent) == m,
{
    assert(m.order.to_set().contains(height));
    let q = m.order.index_of(height);
    assert(m.order[q] == height);
    assert(q == p);
    assert(m.used(height).order =~= m.order.take(p) + m.order.skip(p + 1) + seq![height]);
}

/// A query that names no first block wants all from the beginning, and one that names no
/// last block wants all to the end; what is named is what is wanted.
pub proof fn law_open_queries_want_all(
    data: ShieldDataQuery,
    length: ShieldDataLengthQuery,
    start: u32,
    end: u32,
    any: u32,
)
    ensures
        data.start_block is None ==> data.start() <= any,
        data.start_block == Some(start) ==> data.start() == start,
        length.start_block is None ==> length.start() <= any,
        length.start_block == Some(start) ==> length.start() == start,
        length.end_block is None ==> any <= length.end(),
        length.end_block == Some(end) ==> length.end() == end,
{
}

/// Where no indexed block is at or above the first one that is wanted, nothing is served,
/// in any format; and what is served in the compatible format is the buffer from the
/// offset of the first such block on.
pub proof fn law_served_is_the_rest_of_the_buffer(
    entries: Seq<index::IndexEntry>,
    buffer: Seq<u8>,
    start: u32,
    format: StreamFormat,
    p: int,
)
    requires
        index::ascending(index::heights(entries)),
        0 <= p <= entries.len(),
        forall|k: int| 0 <= k < p ==> (#[trigger] entries[k]).block < start,
        p < entries.len() ==> entries[p].block >= start && entries[p].i <= usize::MAX,
    ensures
        p == entries.len() ==> served(entries, buffer, start, format).len() == 0,
        p < entries.len() && entries[p].i >= buffer.len() ==> served(
            entries,
            buffer,
            start,
            format,
        ).len() == 0,
        p < entries.len() && entries[p].i < buffer.len() ==> served(
            entries,
            buffer,
            start,
            StreamFormat::PivxCompat,
        ) == buffer.skip(entries[p].i as int),
{
    index::law_offset_from(entries, start, p);
    if p < entries.len() {
        assert(entries[p].i as usize == entries[p].i);
    }
}

} // verus!

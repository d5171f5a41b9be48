//! Sapling transactions: the types that a scan yields and the raw parser.

use vstd::prelude::*;
use crate::bytes;
use crate::hex;
use crate::json;
use crate::json::{Json, JsonModel};
use crate::text;

verus! {

/// PIVX Sapling transaction header: nVersion=3 (i16 LE) + nType=0 (i16 LE).
pub const SAPLING_HEADER: [u8; 4] = [0x03, 0x00, 0x00, 0x00];

/// Size of each spend description in bytes.
pub const SPEND_DESC_SIZE: usize = 384;

/// Size of each output description in bytes.
pub const OUTPUT_DESC_SIZE: usize = 948;

/// Size of enc_ciphertext in bytes.
pub const ENC_CIPHERTEXT_SIZE: usize = 580;

/// Size of out_ciphertext in bytes.
pub const OUT_CIPHERTEXT_SIZE: usize = 80;

// ---------------------------------------------------------------------------
// Scanned block types
// ---------------------------------------------------------------------------

/// A scanned shield block.
#[derive(Debug, Clone)]
pub struct ShieldBlock {
    /// Block height.
    pub height: u32,
    /// Block timestamp.
    pub time: u32,
    /// Sapling transactions in this block.
    pub txs: Vec<ShieldTx>,
}

/// A Sapling transaction with extracted compact data.
#[derive(Debug, Clone)]
pub struct ShieldTx {
    /// Full raw transaction bytes.
    pub raw: Vec<u8>,
    /// Extracted compact data (for the compact stream formats).
    pub compact: Option<CompactTx>,
}

/// Compact transaction data: proofs and signatures stripped.
#[derive(Debug, Clone)]
pub struct CompactTx {
    /// Nullifiers from Sapling spends (32 bytes each).
    pub nullifiers: Vec<[u8; 32]>,
    /// Compact outputs.
    pub outputs: Vec<CompactOutput>,
}

/// A compact Sapling output.
#[derive(Debug, Clone)]
pub struct CompactOutput {
    /// Value commitment (32 bytes), needed for outgoing recovery.
    pub cv: [u8; 32],
    /// Note commitment (32 bytes).
    pub cmu: [u8; 32],
    /// Ephemeral public key (32 bytes).
    pub epk: [u8; 32],
    /// Encrypted ciphertext (580 bytes).
    pub enc_ciphertext: [u8; ENC_CIPHERTEXT_SIZE],
    /// Outgoing ciphertext (80 bytes), for sender recovery.
    pub out_ciphertext: [u8; OUT_CIPHERTEXT_SIZE],
}

// ---------------------------------------------------------------------------
// Their mathematical models
// ---------------------------------------------------------------------------

/// What a `CompactOutput` holds.
#[verifier::ext_equal]
pub struct OutputModel {
    pub cv: Seq<u8>,
    pub cmu: Seq<u8>,
    pub epk: Seq<u8>,
    pub enc_ciphertext: Seq<u8>,
    pub out_ciphertext: Seq<u8>,
}

/// What a `CompactTx` holds.
#[verifier::ext_equal]
pub struct CompactModel {
    pub nullifiers: Seq<Seq<u8>>,
    pub outputs: Seq<OutputModel>,
}

/// What a `ShieldTx` holds.
#[verifier::ext_equal]
pub struct TxModel {
    pub raw: Seq<u8>,
    pub compact: Option<CompactModel>,
}

/// What a `ShieldBlock` holds.
#[verifier::ext_equal]
pub struct BlockModel {
    pub height: u32,
    pub time: u32,
    pub txs: Seq<TxModel>,
}

impl View for CompactOutput {
    type V = OutputModel;

    open spec fn view(&self) -> OutputModel {
        OutputModel {
            cv: self.cv@,
            cmu: self.cmu@,
            epk: self.epk@,
            enc_ciphertext: self.enc_ciphertext@,
            out_ciphertext: self.out_ciphertext@,
        }
    }
}

impl View for CompactTx {
    type V = CompactModel;

    open spec fn view(&self) -> CompactModel {
        CompactModel {
            nullifiers: Seq::new(self.nullifiers@.len(), |i: int| self.nullifiers@[i]@),
            outputs: Seq::new(self.outputs@.len(), |i: int| self.outputs@[i]@),
        }
    }
}

impl View for ShieldTx {
    type V = TxModel;

    open spec fn view(&self) -> TxModel {
        TxModel {
            raw: self.raw@,
            compact: match self.compact {
                Some(c) => Some(c@),
                None => None,
            },
        }
    }
}

impl View for ShieldBlock {
    type V = BlockModel;

    open spec fn view(&self) -> BlockModel {
        BlockModel {
            height: self.height,
            time: self.time,
            txs: Seq::new(self.txs@.len(), |i: int| self.txs@[i]@),
        }
    }
}

// ---------------------------------------------------------------------------
// What the transaction grammar means
// ---------------------------------------------------------------------------

/// Why raw bytes are not a transaction.
pub enum ParseFault {
    PastEnd,
    TruncatedVarint,
    TruncatedVin,
    TruncatedVout,
    TruncatedSpend,
    TruncatedOutput,
}

impl ParseFault {
    /// The message that names the fault.
    pub open spec fn message(self) -> Seq<char> {
        match self {
            ParseFault::PastEnd => "read past end"@,
            ParseFault::TruncatedVarint => "truncated varint"@,
            ParseFault::TruncatedVin => "truncated vin"@,
            ParseFault::TruncatedVout => "truncated vout"@,
            ParseFault::TruncatedSpend => "truncated spend"@,
            ParseFault::TruncatedOutput => "truncated output"@,
        }
    }
}

/// The compact size written at `pos`: its value, and how many bytes it takes.
pub open spec fn compact_size_at(data: Seq<u8>, pos: int) -> Result<(usize, int), ParseFault> {
    if pos >= data.len() {
        Err(ParseFault::PastEnd)
    } else {
        let width: int = if data[pos] < 253 {
            0
        } else if data[pos] == 253 {
            2
        } else if data[pos] == 254 {
            4
        } else {
            8
        };
        if width == 0 {
            Ok((data[pos] as usize, 1))
        } else if pos + 1 + width > data.len() {
            Err(ParseFault::TruncatedVarint)
        } else {
            Ok(
                (
                    bytes::le_value(data.subrange(pos + 1, pos + 1 + width)) as u64 as usize,
                    1 + width,
                ),
            )
        }
    }
}

/// Where `n` transparent inputs that start at `pos` end. Each is an outpoint of
/// 36 bytes, a script behind its compact size, and a sequence number of 4 bytes.
pub open spec fn after_inputs(data: Seq<u8>, pos: int, n: nat) -> Result<int, ParseFault>
    decreases n,
{
    if n == 0 {
        Ok(pos)
    } else {
        match compact_size_at(data, pos + 36) {
            Err(fault) => Err(fault),
            Ok((script, width)) => {
                let end = pos + 36 + width + script + 4;
                if end > data.len() {
                    Err(ParseFault::TruncatedVin)
                } else {
                    after_inputs(data, end, (n - 1) as nat)
                }
            },
        }
    }
}

/// Where `n` transparent outputs that start at `pos` end. Each is a value of 8
/// bytes and a script behind its compact size.
pub open spec fn after_outputs(data: Seq<u8>, pos: int, n: nat) -> Result<int, ParseFault>
    decreases n,
{
    if n == 0 {
        Ok(pos)
    } else {
        match compact_size_at(data, pos + 8) {
            Err(fault) => Err(fault),
            Ok((script, width)) => {
                let end = pos + 8 + width + script;
                if end > data.len() {
                    Err(ParseFault::TruncatedVout)
                } else {
                    after_outputs(data, end, (n - 1) as nat)
                }
            },
        }
    }
}

/// The nullifier of the spend description that starts at `pos`.
pub open spec fn nullifier_at(data: Seq<u8>, pos: int) -> Seq<u8> {
    data.subrange(pos + 64, pos + 96)
}

/// The compact fields of the output description that starts at `pos`.
pub open spec fn output_at(data: Seq<u8>, pos: int) -> OutputModel {
    OutputModel {
        cv: data.subrange(pos, pos + 32),
        cmu: data.subrange(pos + 32, pos + 64),
        epk: data.subrange(pos + 64, pos + 96),
        enc_ciphertext: data.subrange(pos + 96, pos + 676),
        out_ciphertext: data.subrange(pos + 676, pos + 756),
    }
}

/// The shielded part that starts at `pos` with its spend count.
pub open spec fn sapling_descs_at(data: Seq<u8>, pos: int) -> Result<
    Option<CompactModel>,
    ParseFault,
> {
    match compact_size_at(data, pos) {
        Err(fault) => Err(fault),
        Ok((spends, spends_width)) => {
            let first_spend = pos + spends_width;
            let spends_end = first_spend + SPEND_DESC_SIZE * spends;
            if spends_end > data.len() {
                Err(ParseFault::TruncatedSpend)
            } else {
                match compact_size_at(data, spends_end) {
                    Err(fault) => Err(fault),
                    Ok((outputs, outputs_width)) => {
                        let first_output = spends_end + outputs_width;
                        if first_output + OUTPUT_DESC_SIZE * outputs > data.len() {
                            Err(ParseFault::TruncatedOutput)
                        } else if spends == 0 && outputs == 0 {
                            Ok(None)
                        } else {
                            Ok(
                                Some(
                                    CompactModel {
                                        nullifiers: Seq::new(
                                            spends as nat,
                                            |i: int|
                                                nullifier_at(data, first_spend + SPEND_DESC_SIZE * i),
                                        ),
                                        outputs: Seq::new(
                                            outputs as nat,
                                            |i: int|
                                                output_at(
                                                    data,
                                                    first_output + OUTPUT_DESC_SIZE * i,
                                                ),
                                        ),
                                    },
                                ),
                            )
                        }
                    },
                }
            }
        },
    }
}

/// Where the lock time of the transaction `data` ends: behind the version, the
/// inputs, the outputs and the lock time itself.
pub open spec fn after_lock_time(data: Seq<u8>) -> Result<int, ParseFault> {
    match compact_size_at(data, 4) {
        Err(fault) => Err(fault),
        Ok((inputs, inputs_width)) => match after_inputs(data, 4 + inputs_width, inputs as nat) {
            Err(fault) => Err(fault),
            Ok(outputs_at) => match compact_size_at(data, outputs_at) {
                Err(fault) => Err(fault),
                Ok((outputs, outputs_width)) => match after_outputs(
                    data,
                    outputs_at + outputs_width,
                    outputs as nat,
                ) {
                    Err(fault) => Err(fault),
                    Ok(lock_time_at) => Ok(lock_time_at + 4),
                },
            },
        },
    }
}

/// The shielded part of the transaction `data`, if it has one: it is announced
/// by a byte other than zero and follows a value balance of 8 bytes.
pub open spec fn sapling_tx(data: Seq<u8>) -> Result<Option<CompactModel>, ParseFault> {
    match after_lock_time(data) {
        Err(fault) => Err(fault),
        Ok(pos) => if pos >= data.len() || data[pos] == 0 || pos + 9 > data.len() {
            Ok(None)
        } else {
            sapling_descs_at(data, pos + 9)
        },
    }
}

/// The compact data of the transaction `data`; none where the bytes are no
/// transaction or hold nothing shielded.
#[verifier::opaque]
pub open spec fn compact_of(data: Seq<u8>) -> Option<CompactModel> {
    match sapling_tx(data) {
        Ok(found) => found,
        Err(_) => None,
    }
}

/// A raw transaction together with its own compact data.
pub open spec fn parsed_tx(raw: Seq<u8>) -> TxModel {
    TxModel { raw, compact: compact_of(raw) }
}

/// `block` with the compact data of each transaction taken from its raw bytes.
pub open spec fn parsed_block(block: BlockModel) -> BlockModel {
    BlockModel { txs: Seq::new(block.txs.len(), |i: int| parsed_tx(block.txs[i].raw)), ..block }
}

/// Each of `blocks` with its compact data taken from the raw bytes.
pub open spec fn parsed_blocks(blocks: Seq<BlockModel>) -> Seq<BlockModel> {
    Seq::new(blocks.len(), |i: int| parsed_block(blocks[i]))
}

// ---------------------------------------------------------------------------
// The parser
// ---------------------------------------------------------------------------

/// How a parse result answers a specified one: the same value, or the message
/// of the same fault.
pub open spec fn answers(
    result: Result<Option<CompactTx>, String>,
    expected: Result<Option<CompactModel>, ParseFault>,
) -> bool {
    match (result, expected) {
        (Ok(Some(tx)), Ok(Some(model))) => tx@ == model,
        (Ok(None), Ok(None)) => true,
        (Err(message), Err(fault)) => message@ == fault.message(),
        _ => false,
    }
}

/// Read a Bitcoin compact size (varint): its value and the bytes it takes.
pub fn read_compact_size(data: &[u8], pos: usize) -> (r: Result<(usize, usize), String>)
    ensures
        match (r, compact_size_at(data@, pos as int)) {
            (Ok((value, width)), Ok((v, w))) => value == v && width == w && pos + width
                <= data@.len(),
            (Err(message), Err(fault)) => message@ == fault.message(),
            _ => false,
        },
{
    let len: usize = data.len();
    if pos >= len {
        return Err("read past end".to_string());
    }
    let rest: usize = len - pos;
    let tag: u8 = data[pos];
    if tag < 253 {
        Ok((tag as usize, 1))
    } else if tag == 253 {
        if rest < 3 {
            return Err("truncated varint".to_string());
        }
        Ok((bytes::read_u16_le(data, pos + 1) as usize, 3))
    } else if tag == 254 {
        if rest < 5 {
            return Err("truncated varint".to_string());
        }
        Ok((bytes::read_u32_le(data, pos + 1) as usize, 5))
    } else {
        if rest < 9 {
            return Err("truncated varint".to_string());
        }
        Ok((bytes::read_u64_le(data, pos + 1) as usize, 9))
    }
}

/// Copy of the `N` bytes of `data` that start at `pos`.
fn array_at<const N: usize>(data: &[u8], pos: usize) -> (a: [u8; N])
    requires
        pos + N <= data@.len(),
    ensures
        a@ == data@.subrange(pos as int, pos + N),
{
    let mut a: [u8; N] = [0u8; N];
    let mut i: usize = 0;
    assert(data.len() == data@.len());
    while i < N
        invariant
            i <= N,
            pos + N <= data@.len() == data.len(),
            forall|k: int| 0 <= k < i ==> a@[k] == data@[pos + k],
        decreases N - i,
    {
        a[i] = data[pos + i];
        i = i + 1;
    }
    assert(a@ =~= data@.subrange(pos as int, pos + N));
    a
}

/// Parse Sapling spend/output descriptions from the given offset.
pub fn parse_sapling_descs(data: &[u8], start: usize) -> (r: Result<Option<CompactTx>, String>)
    ensures
        answers(r, sapling_descs_at(data@, start as int)),
{
    let (num_spends, width) = match read_compact_size(data, start) {
        Ok(read) => read,
        Err(e) => return Err(e),
    };
    let len: usize = data.len();
    let mut pos: usize = start + width;
    let ghost first_spend: int = pos as int;

    let mut nullifiers: Vec<[u8; 32]> = Vec::new();
    let mut i: usize = 0;
    while i < num_spends
        invariant
            i <= num_spends,
            len == data@.len() == data.len(),
            pos <= len,
            compact_size_at(data@, start as int) == Ok::<(usize, int), ParseFault>(
                (num_spends, first_spend - start),
            ),
            pos == first_spend + SPEND_DESC_SIZE * i,
            nullifiers@.len() == i,
            forall|k: int|
                0 <= k < i ==> (#[trigger] nullifiers@[k])@ == nullifier_at(
                    data@,
                    first_spend + SPEND_DESC_SIZE * k,
                ),
        decreases num_spends - i,
    {
        if len - pos < SPEND_DESC_SIZE {
            return Err("truncated spend".to_string());
        }
        // cv(32) + anchor(32) + nullifier(32) + rk(32) + proof(192) + sig(64)
        nullifiers.push(array_at::<32>(data, pos + 64));
        pos = pos + SPEND_DESC_SIZE;
        i = i + 1;
    }
    let ghost spends_end: int = pos as int;

    let (num_outputs, width) = match read_compact_size(data, pos) {
        Ok(read) => read,
        Err(e) => return Err(e),
    };
    pos = pos + width;
    let ghost first_output: int = pos as int;

    let mut outputs: Vec<CompactOutput> = Vec::new();
    let mut j: usize = 0;
    while j < num_outputs
        invariant
            j <= num_outputs,
            len == data@.len() == data.len(),
            pos <= len,
            spends_end <= len,
            compact_size_at(data@, start as int) == Ok::<(usize, int), ParseFault>(
                (num_spends, first_spend - start),
            ),
            spends_end == first_spend + SPEND_DESC_SIZE * num_spends,
            compact_size_at(data@, spends_end) == Ok::<(usize, int), ParseFault>(
                (num_outputs, first_output - spends_end),
            ),
            pos == first_output + OUTPUT_DESC_SIZE * j,
            outputs@.len() == j,
            forall|k: int|
                0 <= k < j ==> (#[trigger] outputs@[k])@ == output_at(
                    data@,
                    first_output + OUTPUT_DESC_SIZE * k,
                ),
        decreases num_outputs - j,
    {
        if len - pos < OUTPUT_DESC_SIZE {
            return Err("truncated output".to_string());
        }
        // cv(32) + cmu(32) + epk(32) + enc(580) + out(80) + proof(192)
        let output = CompactOutput {
            cv: array_at::<32>(data, pos),
            cmu: array_at::<32>(data, pos + 32),
            epk: array_at::<32>(data, pos + 64),
            enc_ciphertext: array_at::<ENC_CIPHERTEXT_SIZE>(data, pos + 96),
            out_ciphertext: array_at::<OUT_CIPHERTEXT_SIZE>(data, pos + 676),
        };
        outputs.push(output);
        pos = pos + OUTPUT_DESC_SIZE;
        j = j + 1;
    }

    if nullifiers.len() == 0 && outputs.len() == 0 {
        return Ok(None);
    }
    let tx = CompactTx { nullifiers, outputs };
    proof {
        assert(sapling_descs_at(data@, start as int) matches Ok(Some(model)) && tx@ =~= model);
    }
    Ok(Some(tx))
}

/// Skip `count` transparent inputs that start at `start`.
fn skip_inputs(data: &[u8], start: usize, count: usize) -> (r: Result<usize, String>)
    requires
        start <= data@.len(),
    ensures
        match (r, after_inputs(data@, start as int, count as nat)) {
            (Ok(end), Ok(e)) => end == e && end <= data@.len(),
            (Err(message), Err(fault)) => message@ == fault.message(),
            _ => false,
        },
{
    let len: usize = data.len();
    let mut pos: usize = start;
    let mut i: usize = 0;
    while i < count
        invariant
            i <= count,
            len == data@.len() == data.len(),
            pos <= len,
            after_inputs(data@, start as int, count as nat) == after_inputs(
                data@,
                pos as int,
                (count - i) as nat,
            ),
        decreases count - i,
    {
        // prevout (txid + vout)
        if len - pos < 36 {
            return Err("read past end".to_string());
        }
        let script_at: usize = pos + 36;
        let (script_len, width) = match read_compact_size(data, script_at) {
            Ok(read) => read,
            Err(e) => return Err(e),
        };
        let rest: usize = len - script_at - width;
        // scriptSig, then sequence
        if rest < 4 || rest - 4 < script_len {
            return Err("truncated vin".to_string());
        }
        pos = script_at + width + script_len + 4;
        i = i + 1;
    }
    Ok(pos)
}

/// Skip `count` transparent outputs that start at `start`.
fn skip_outputs(data: &[u8], start: usize, count: usize) -> (r: Result<usize, String>)
    requires
        start <= data@.len(),
    ensures
        match (r, after_outputs(data@, start as int, count as nat)) {
            (Ok(end), Ok(e)) => end == e && end <= data@.len(),
            (Err(message), Err(fault)) => message@ == fault.message(),
            _ => false,
        },
{
    let len: usize = data.len();
    let mut pos: usize = start;
    let mut i: usize = 0;
    while i < count
        invariant
            i <= count,
            len == data@.len() == data.len(),
            pos <= len,
            after_outputs(data@, start as int, count as nat) == after_outputs(
                data@,
                pos as int,
                (count - i) as nat,
            ),
        decreases count - i,
    {
        // value
        if len - pos < 8 {
            return Err("read past end".to_string());
        }
        let script_at: usize = pos + 8;
        let (script_len, width) = match read_compact_size(data, script_at) {
            Ok(read) => read,
            Err(e) => return Err(e),
        };
        // scriptPubKey
        if len - script_at - width < script_len {
            return Err("truncated vout".to_string());
        }
        pos = script_at + width + script_len;
        i = i + 1;
    }
    Ok(pos)
}

/// Parse a raw PIVX v3 transaction and extract Sapling data.
///
/// PIVX serialization:
///   nVersion(i16) + nType(i16) + vin + vout + nLockTime(u32)
///   + sapData discriminant(u8: 0x01=present, 0x00=absent)
///   + SaplingTxData { valueBalance(i64) + vShieldedSpend + vShieldedOutput + bindingSig(64) }
///
/// The discriminant is the presence flag of the optional Sapling data.
pub fn parse_sapling_tx(data: &[u8]) -> (r: Result<Option<CompactTx>, String>)
    ensures
        answers(r, sapling_tx(data@)),
{
    let len: usize = data.len();
    let (vin_count, width) = match read_compact_size(data, 4) {
        Ok(read) => read,
        Err(e) => return Err(e),
    };
    let outputs_at: usize = match skip_inputs(data, 4 + width, vin_count) {
        Ok(end) => end,
        Err(e) => return Err(e),
    };
    let (vout_count, width) = match read_compact_size(data, outputs_at) {
        Ok(read) => read,
        Err(e) => return Err(e),
    };
    let lock_time_at: usize = match skip_outputs(data, outputs_at + width, vout_count) {
        Ok(end) => end,
        Err(e) => return Err(e),
    };

    // Nothing behind nLockTime: no Sapling data
    if len - lock_time_at <= 4 {
        return Ok(None);
    }
    let pos: usize = lock_time_at + 4;
    if data[pos] == 0x00 {
        return Ok(None);
    }
    // discriminant (1 byte) + valueBalance (8 bytes)
    if len - pos < 9 {
        return Ok(None);
    }
    parse_sapling_descs(data, pos + 9)
}

// ---------------------------------------------------------------------------
// Errors of a scan
// ---------------------------------------------------------------------------

/// Why a block could not be scanned.
#[derive(Debug)]
pub enum ScanError {
    Rpc(String),
    Parse(String),
}

/// What a `ScanError` says.
#[verifier::ext_equal]
pub enum ScanFault {
    Rpc(Seq<char>),
    Parse(Seq<char>),
}

impl View for ScanError {
    type V = ScanFault;

    open spec fn view(&self) -> ScanFault {
        match self {
            ScanError::Rpc(e) => ScanFault::Rpc(e@),
            ScanError::Parse(e) => ScanFault::Parse(e@),
        }
    }
}

impl ScanError {
    /// The error in words.
    pub fn message(&self) -> (r: String)
        ensures
            r@ == (match self@ {
                ScanFault::Rpc(e) => "scanner RPC error: "@ + e,
                ScanFault::Parse(e) => "scanner parse error: "@ + e,
            }),
    {
        match self {
            ScanError::Rpc(e) => text::join2("scanner RPC error: ", e.as_str()),
            ScanError::Parse(e) => text::join2("scanner parse error: ", e.as_str()),
        }
    }
}

// ---------------------------------------------------------------------------
// The transactions of one block
// ---------------------------------------------------------------------------

/// The transaction that has to be asked for separately: one that the block only
/// names. One with its hex inline needs no asking.
pub open spec fn named_tx(item: JsonModel) -> Option<Seq<char>> {
    match item.text_field("hex"@) {
        Some(_) => None,
        None => item.text(),
    }
}

/// The hex of a transaction: inline, or else as the node replied.
pub open spec fn tx_hex(item: JsonModel, reply: Option<JsonModel>) -> Option<Seq<char>> {
    match item.text_field("hex"@) {
        Some(hex) => Some(hex),
        None => match (item.text(), reply) {
            (Some(_), Some(value)) => value.text(),
            _ => None,
        },
    }
}

/// The shield transaction that raw bytes are: a version 3 transaction with
/// shielded data.
pub open spec fn shield_tx(raw: Seq<u8>) -> Option<TxModel> {
    if raw.len() >= 4 && raw.take(4) == SAPLING_HEADER@ {
        match compact_of(raw) {
            Some(compact) => Some(TxModel { raw, compact: Some(compact) }),
            None => None,
        }
    } else {
        None
    }
}

/// The shield transaction that an item of a block stands for.
pub open spec fn item_tx(item: JsonModel, reply: Option<JsonModel>) -> Option<TxModel> {
    match tx_hex(item, reply) {
        Some(hex) => match hex::decoded_text(hex) {
            Some(raw) => shield_tx(raw),
            None => None,
        },
        None => None,
    }
}

/// The reply to the `k`th transaction, if there is one.
pub open spec fn reply_at(replies: Seq<Option<JsonModel>>, k: int) -> Option<JsonModel> {
    if 0 <= k < replies.len() {
        replies[k]
    } else {
        None
    }
}

/// The shield transactions among the items of a block, in their order.
pub open spec fn shield_txs(items: Seq<JsonModel>, replies: Seq<Option<JsonModel>>) -> Seq<TxModel>
    decreases items.len(),
{
    if items.len() == 0 {
        Seq::empty()
    } else {
        let before = shield_txs(items.drop_last(), replies);
        match item_tx(items.last(), reply_at(replies, items.len() - 1)) {
            Some(tx) => before.push(tx),
            None => before,
        }
    }
}

/// The items of the `tx` array of a block.
pub open spec fn block_items(block: JsonModel) -> Option<Seq<JsonModel>> {
    match block.field("tx"@) {
        Some(tx) => tx.items(),
        None => None,
    }
}

/// What scanning a block yields: an error where it has no list of transactions;
/// otherwise the shield block, if it holds any shield transaction.
pub open spec fn scanned(
    block: JsonModel,
    replies: Seq<Option<JsonModel>>,
    height: u32,
) -> Result<Option<BlockModel>, ScanFault> {
    match block_items(block) {
        None => Err(ScanFault::Parse("missing 'tx' array in block"@)),
        Some(items) => {
            let txs = shield_txs(items, replies);
            if txs.len() == 0 {
                Ok(None)
            } else {
                Ok(
                    Some(
                        BlockModel {
                            height,
                            time: match block.number_field("time"@) {
                                Some(time) => time as u32,
                                None => 0,
                            },
                            txs,
                        },
                    ),
                )
            }
        },
    }
}

/// The models of replies.
pub open spec fn reply_models(replies: Seq<Option<Json>>) -> Seq<Option<JsonModel>> {
    Seq::new(
        replies.len(),
        |k: int|
            match replies[k] {
                Some(value) => Some(value@),
                None => None,
            },
    )
}

/// The model of a scan result.
pub open spec fn result_model(result: Result<Option<ShieldBlock>, ScanError>) -> Result<
    Option<BlockModel>,
    ScanFault,
> {
    match result {
        Ok(Some(block)) => Ok(Some(block@)),
        Ok(None) => Ok(None),
        Err(e) => Err(e@),
    }
}

/// Whether raw bytes start with the header of a Sapling-capable transaction.
fn has_sapling_header(raw: &Vec<u8>) -> (r: bool)
    ensures
        r == (raw@.len() >= 4 && raw@.take(4) == SAPLING_HEADER@),
{
    if raw.len() < 4 {
        return false;
    }
    let header: [u8; 4] = SAPLING_HEADER;
    let r: bool = raw[0] == header[0] && raw[1] == header[1] && raw[2] == header[2] && raw[3]
        == header[3];
    proof {
        let start = raw@.take(4);
        if r {
            assert(start =~= header@);
        } else {
            assert(raw@[0] == start[0] && raw@[1] == start[1] && raw@[2] == start[2] && raw@[3]
                == start[3]);
        }
    }
    r
}

/// The shield transaction that an item of a block stands for.
fn scan_item(item: &Json, reply: &Option<Json>) -> (r: Option<ShieldTx>)
    ensures
        match (
            r,
            item_tx(
                item@,
                match reply {
                    Some(value) => Some(value@),
                    None => None,
                },
            ),
        ) {
            (Some(tx), Some(expected)) => tx@ == expected,
            (None, None) => true,
            _ => false,
        },
{
    // Verbosity 2: the item is an object with its hex inline
    // Verbosity 1: the item is a txid string, and the node was asked for it
    let raw = match item.text_field("hex") {
        Some(hex) => hex::hex_decode(hex),
        None => match (item.as_str(), reply) {
            (Some(_), Some(value)) => match value.as_str() {
                Some(hex) => hex::hex_decode(hex),
                None => None,
            },
            _ => None,
        },
    };
    match raw {
        Some(raw) => {
            if has_sapling_header(&raw) {
                proof {
                    reveal(compact_of);
                }
                match parse_sapling_tx(raw.as_slice()) {
                    Ok(Some(compact)) => Some(ShieldTx { raw, compact: Some(compact) }),
                    _ => None,
                }
            } else {
                None
            }
        },
        None => None,
    }
}

/// Scan a block for Sapling transactions. `replies` holds what the node replied
/// for each transaction that the block only names, and nothing for the others.
pub fn scan_block_inner(block_json: &Json, replies: &Vec<Option<Json>>, height: u32) -> (r: Result<
    Option<ShieldBlock>,
    ScanError,
>)
    ensures
        result_model(r) == scanned(block_json@, reply_models(replies@), height),
{
    let items = match block_json.get("tx") {
        Some(tx) => tx.as_array(),
        None => None,
    };
    let items = match items {
        Some(items) => items,
        None => return Err(ScanError::Parse("missing 'tx' array in block".to_string())),
    };
    let time: u32 = match block_json.number_field("time") {
        Some(time) => time as u32,
        None => 0,
    };
    let ghost all = json::item_models(items@);
    let ghost models = reply_models(replies@);
    proof {
        json::lemma_item_models(items@);
    }
    let mut txs: Vec<ShieldTx> = Vec::new();
    let mut k: usize = 0;
    assert(all.take(0) =~= Seq::empty());
    assert(tx_models(txs@) =~= shield_txs(all.take(0), models));
    while k < items.len()
        invariant
            k <= items@.len() == all.len(),
            forall|j: int| 0 <= j < items@.len() ==> #[trigger] all[j] == items@[j]@,
            models == reply_models(replies@),
            tx_models(txs@) == shield_txs(all.take(k as int), models),
        decreases items@.len() - k,
    {
        let none: Option<Json> = None;
        let reply = if k < replies.len() {
            &replies[k]
        } else {
            &none
        };
        proof {
            assert(all.take(k + 1).drop_last() =~= all.take(k as int));
            assert(all.take(k + 1).last() == items@[k as int]@);
        }
        let ghost before = txs@;
        if let Some(tx) = scan_item(&items[k], reply) {
            txs.push(tx);
            assert(tx_models(txs@) =~= tx_models(before).push(tx@));
        }
        k = k + 1;
    }
    assert(all.take(k as int) =~= all);
    if txs.len() == 0 {
        Ok(None)
    } else {
        Ok(Some(ShieldBlock { height, time, txs }))
    }
}

/// The models of transactions.
pub open spec fn tx_models(txs: Seq<ShieldTx>) -> Seq<TxModel> {
    Seq::new(txs.len(), |k: int| txs[k]@)
}

/// For each item of a block the transaction to ask the node for.
pub open spec fn named_txs(items: Seq<JsonModel>) -> Seq<Option<Seq<char>>> {
    Seq::new(items.len(), |k: int| named_tx(items[k]))
}

/// The text of a string, if there is one.
pub open spec fn text_of(s: Option<String>) -> Option<Seq<char>> {
    match s {
        Some(s) => Some(s@),
        None => None,
    }
}

/// The texts of ids.
pub open spec fn id_models(ids: Seq<Option<String>>) -> Seq<Option<Seq<char>>> {
    Seq::new(ids.len(), |k: int| text_of(ids[k]))
}

/// For each transaction of a block the id to ask the node for, if the block only
/// names it. A block without a list of transactions names none.
pub fn raw_txs_to_ask(block_json: &Json) -> (r: Vec<Option<String>>)
    ensures
        id_models(r@) == (match block_items(block_json@) {
            Some(items) => named_txs(items),
            None => Seq::empty(),
        }),
{
    let mut ids: Vec<Option<String>> = Vec::new();
    let items = match block_json.get("tx") {
        Some(tx) => tx.as_array(),
        None => None,
    };
    if let Some(items) = items {
        let ghost all = json::item_models(items@);
        proof {
            json::lemma_item_models(items@);
        }
        let mut k: usize = 0;
        while k < items.len()
            invariant
                k <= items@.len() == all.len(),
                forall|j: int| 0 <= j < items@.len() ==> #[trigger] all[j] == items@[j]@,
                id_models(ids@) =~= named_txs(all).take(k as int),
            decreases items@.len() - k,
        {
            let id: Option<String> = match items[k].text_field("hex") {
                Some(_) => None,
                None => match items[k].as_str() {
                    Some(id) => Some(id.to_owned()),
                    None => None,
                },
            };
            let ghost before = ids@;
            ids.push(id);
            assert(text_of(id) == named_tx(all[k as int]));
            assert(id_models(ids@) =~= id_models(before).push(text_of(id)));
            assert(named_txs(all).take(k + 1) =~= named_txs(all).take(k as int).push(
                named_tx(all[k as int]),
            ));
            k = k + 1;
        }
        assert(id_models(ids@) =~= named_txs(all));
    } else {
        assert(id_models(ids@) =~= Seq::empty());
    }
    ids
}

// ---------------------------------------------------------------------------
// Laws
// ---------------------------------------------------------------------------

/// Whether `positions` are those of the shield transactions among the items: they
/// ascend, every shield transaction is at one of them, and nothing else is.
pub open spec fn shielded_positions(
    positions: Seq<int>,
    items: Seq<JsonModel>,
    replies: Seq<Option<JsonModel>>,
) -> bool {
    &&& forall|j: int, k: int|
        0 <= j < k < positions.len() ==> #[trigger] positions[j] < #[trigger] positions[k]
    &&& forall|k: int| 0 <= k < positions.len() ==> 0 <= #[trigger] positions[k] < items.len()
    &&& forall|i: int|
        0 <= i < items.len() ==> (item_tx(#[trigger] items[i], reply_at(replies, i)) is Some
            <==> positions.contains(i))
}

/// The positions of the shield transactions.
proof fn lemma_shielded_positions(items: Seq<JsonModel>, replies: Seq<Option<JsonModel>>) -> (p: Seq<
    int,
>)
    ensures
        shielded_positions(p, items, replies),
        p.len() == shield_txs(items, replies).len(),
        forall|k: int|
            0 <= k < p.len() ==> item_tx(items[p[k]], reply_at(replies, #[trigger] p[k])) == Some(
                shield_txs(items, replies)[k],
            ),
    decreases items.len(),
{
    if items.len() == 0 {
        Seq::empty()
    } else {
        let init = items.drop_last();
        let n = init.len() as int;
        let q = lemma_shielded_positions(init, replies);
        let p = if item_tx(items.last(), reply_at(replies, n)) is Some {
            q.push(n)
        } else {
            q
        };
        assert forall|k: int| 0 <= k < p.len() implies 0 <= #[trigger] p[k] < items.len()
            && item_tx(items[p[k]], reply_at(replies, p[k])) == Some(
            shield_txs(items, replies)[k],
        ) by {
            if k < q.len() {
                assert(p[k] == q[k]);
                assert(items[q[k]] == init[q[k]]);
            }
        }
        assert forall|i: int| 0 <= i < items.len() implies (item_tx(
            #[trigger] items[i],
            reply_at(replies, i),
        ) is Some <==> p.contains(i)) by {
            if i < n {
                assert(items[i] == init[i]);
                if q.contains(i) {
                    let k = choose|k: int| 0 <= k < q.len() && q[k] == i;
                    assert(p[k] == i);
                }
                if p.contains(i) {
                    let k = choose|k: int| 0 <= k < p.len() && p[k] == i;
                    assert(q[k] == i);
                }
            } else {
                if p.contains(n) {
                    let k = choose|k: int| 0 <= k < p.len() && p[k] == n;
                    if k < q.len() {
                        assert(q[k] < n);
                    }
                }
                if item_tx(items.last(), reply_at(replies, n)) is Some {
                    assert(p[q.len() as int] == n);
                }
            }
        }
        p
    }
}

/// What scanning a block yields. Without a list of transactions it fails. Otherwise
/// there is a shield block exactly where one of the items is a shield transaction. It
/// has the height that was asked for and the time of the block, and its transactions
/// are those of the items, each once and in the order of the list.
pub proof fn law_scanned_block_keeps_the_order(
    block: JsonModel,
    replies: Seq<Option<JsonModel>>,
    height: u32,
)
    ensures
        match scanned(block, replies, height) {
            Err(_) => block.field("tx"@) is None || block.field("tx"@)->0 !is Array,
            Ok(None) => block.field("tx"@) matches Some(JsonModel::Array(items)) && forall|i: int|
                0 <= i < items.len() ==> item_tx(#[trigger] items[i], reply_at(replies, i)) is None,
            Ok(Some(found)) => {
                &&& found.height == height
                &&& block.number_field("time"@) matches Some(time) ==> found.time == time as u32
                &&& block.number_field("time"@) is None ==> found.time == 0
                &&& block.field("tx"@) matches Some(JsonModel::Array(items)) && exists|p: Seq<int>|
                    {
                        &&& #[trigger] shielded_positions(p, items, replies)
                        &&& 0 < p.len() == found.txs.len()
                        &&& forall|k: int|
                            0 <= k < p.len() ==> item_tx(
                                items[p[k]],
                                reply_at(replies, #[trigger] p[k]),
                            ) == Some(found.txs[k])
                    }
            },
        },
{
    if let Some(items) = block_items(block) {
        let p = lemma_shielded_positions(items, replies);
        if p.len() == 0 {
            assert forall|i: int| 0 <= i < items.len() implies item_tx(
                #[trigger] items[i],
                reply_at(replies, i),
            ) is None by {
                assert(!p.contains(i));
            }
        }
    }
}

/// Which shield transaction an item of a block is. The bytes are those that its own
/// hex spells, whatever the node replied; one that is only named has the bytes that
/// the reply spells, and without a reply it is none. Anything else is none either.
pub proof fn law_item_is_the_transaction_that_its_hex_spells(
    item: JsonModel,
    reply: Option<JsonModel>,
    raw: Seq<u8>,
)
    ensures
        item.field("hex"@) == Some(JsonModel::Text(hex::spelled(raw))) ==> item_tx(item, reply)
            == shield_tx(raw),
        item is Text && reply == Some(JsonModel::Text(hex::spelled(raw))) ==> item_tx(item, reply)
            == shield_tx(raw),
        item is Text && (reply is None || reply->0 !is Text) ==> item_tx(item, reply) is None,
        item !is Text && (item.field("hex"@) is None || item.field("hex"@)->0 !is Text)
            ==> item_tx(item, reply) is None,
        named_tx(item) == (match item {
            JsonModel::Text(id) => Some(id),
            _ => None,
        }),
{
    hex::law_hex_reads_back(raw);
}

/// A shield transaction starts with version 3 and type 0 and has shielded data. It
/// keeps its raw bytes and that data.
pub proof fn law_shield_transaction(raw: Seq<u8>)
    ensures
        shield_tx(raw) is Some <==> raw.len() >= 4 && raw[0] == 3 && raw[1] == 0 && raw[2] == 0
            && raw[3] == 0 && (sapling_tx(raw) matches Ok(Some(_))),
        shield_tx(raw) matches Some(tx) ==> tx.raw == raw && (sapling_tx(raw) matches Ok(Some(found))
            && tx.compact == Some(found)),
{
    reveal(compact_of);
    if raw.len() >= 4 {
        let start = raw.take(4);
        let header: [u8; 4] = SAPLING_HEADER;
        assert(header@.len() == 4);
        assert(header@[0] == 3 && header@[1] == 0 && header@[2] == 0 && header@[3] == 0);
        if raw[0] == 3 && raw[1] == 0 && raw[2] == 0 && raw[3] == 0 {
            assert(start =~= header@);
        } else {
            assert(start[0] == raw[0] && start[1] == raw[1] && start[2] == raw[2] && start[3]
                == raw[3]);
        }
    }
}

/// The reply to a transaction is the one in its place; where the replies end earlier,
/// there is none.
pub proof fn law_replies_go_by_place(replies: Seq<Option<JsonModel>>, k: int)
    requires
        0 <= k,
    ensures
        k < replies.len() ==> reply_at(replies, k) == replies[k],
        k >= replies.len() ==> reply_at(replies, k) is None,
{
}

/// A raw transaction goes with the compact data that is read out of it, and blocks keep
/// their heights, their times and the order of their raw transactions.
pub proof fn law_parsed_block_keeps_its_transactions(block: BlockModel, k: int)
    requires
        0 <= k < block.txs.len(),
    ensures
        parsed_block(block).height == block.height,
        parsed_block(block).time == block.time,
        parsed_block(block).txs.len() == block.txs.len(),
        parsed_block(block).txs[k].raw == block.txs[k].raw,
        parsed_block(block).txs[k].compact == (match sapling_tx(block.txs[k].raw) {
            Ok(Some(found)) => Some(found),
            _ => None,
        }),
{
    reveal(compact_of);
}

} // verus!

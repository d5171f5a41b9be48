//! How a shielded transaction is written: its parts by name, and their order. What a
//! scan takes out of the bytes is what was put into them.

use vstd::prelude::*;
use crate::bytes;
use crate::scanner;
use crate::stream;

verus! {

// ---------------------------------------------------------------------------
// The parts
// ---------------------------------------------------------------------------

/// A transparent input.
pub struct TxInput {
    /// The output that is spent: 36 bytes.
    pub outpoint: Seq<u8>,
    /// The script that unlocks it.
    pub script: Seq<u8>,
    /// The sequence number: 4 bytes.
    pub sequence: Seq<u8>,
}

/// A transparent output.
pub struct TxOutput {
    /// The amount: 8 bytes.
    pub value: Seq<u8>,
    /// The script that locks it.
    pub script: Seq<u8>,
}

/// A shielded spend.
pub struct SpendDescription {
    pub cv: Seq<u8>,
    pub anchor: Seq<u8>,
    pub nullifier: Seq<u8>,
    pub rk: Seq<u8>,
    pub proof_bytes: Seq<u8>,
    pub signature: Seq<u8>,
}

/// A shielded output.
pub struct OutputDescription {
    pub cv: Seq<u8>,
    pub cmu: Seq<u8>,
    pub epk: Seq<u8>,
    pub enc_ciphertext: Seq<u8>,
    pub out_ciphertext: Seq<u8>,
    pub proof_bytes: Seq<u8>,
}

/// A transaction.
pub struct Transaction {
    /// Version and type: 4 bytes.
    pub version: Seq<u8>,
    pub inputs: Seq<TxInput>,
    pub outputs: Seq<TxOutput>,
    /// 4 bytes.
    pub lock_time: Seq<u8>,
    /// 8 bytes.
    pub value_balance: Seq<u8>,
    pub spends: Seq<SpendDescription>,
    pub shielded_outputs: Seq<OutputDescription>,
    pub binding_signature: Seq<u8>,
}

// ---------------------------------------------------------------------------
// Their bytes
// ---------------------------------------------------------------------------

/// A count or a length, as it is written in front of what it counts.
pub open spec fn size_prefix(n: nat) -> Seq<u8> {
    if n < 253 {
        seq![n as u8]
    } else if n < 65536 {
        seq![253u8, (n % 256) as u8, (n / 256) as u8]
    } else if n < 4294967296 {
        seq![
            254u8,
            (n % 256) as u8,
            (n / 256 % 256) as u8,
            (n / 65536 % 256) as u8,
            (n / 16777216) as u8,
        ]
    } else {
        seq![
            255u8,
            (n % 256) as u8,
            (n / 256 % 256) as u8,
            (n / 65536 % 256) as u8,
            (n / 16777216 % 256) as u8,
            (n / 4294967296 % 256) as u8,
            (n / 1099511627776 % 256) as u8,
            (n / 281474976710656 % 256) as u8,
            (n / 72057594037927936 % 256) as u8,
        ]
    }
}

/// Parts, one behind the other.
pub open spec fn in_a_row(parts: Seq<Seq<u8>>) -> Seq<u8>
    decreases parts.len(),
{
    if parts.len() == 0 {
        Seq::empty()
    } else {
        parts[0] + in_a_row(parts.drop_first())
    }
}

impl TxInput {
    pub open spec fn sized(self) -> bool {
        self.outpoint.len() == 36 && self.sequence.len() == 4
    }

    pub open spec fn written(self) -> Seq<u8> {
        self.outpoint + size_prefix(self.script.len()) + self.script + self.sequence
    }
}

impl TxOutput {
    pub open spec fn sized(self) -> bool {
        self.value.len() == 8
    }

    pub open spec fn written(self) -> Seq<u8> {
        self.value + size_prefix(self.script.len()) + self.script
    }
}

impl SpendDescription {
    pub open spec fn sized(self) -> bool {
        &&& self.cv.len() == 32
        &&& self.anchor.len() == 32
        &&& self.nullifier.len() == 32
        &&& self.rk.len() == 32
        &&& self.proof_bytes.len() == 192
        &&& self.signature.len() == 64
    }

    pub open spec fn written(self) -> Seq<u8> {
        self.cv + self.anchor + self.nullifier + self.rk + self.proof_bytes + self.signature
    }
}

impl OutputDescription {
    pub open spec fn sized(self) -> bool {
        &&& self.cv.len() == 32
        &&& self.cmu.len() == 32
        &&& self.epk.len() == 32
        &&& self.enc_ciphertext.len() == 580
        &&& self.out_ciphertext.len() == 80
        &&& self.proof_bytes.len() == 192
    }

    pub open spec fn written(self) -> Seq<u8> {
        self.cv + self.cmu + self.epk + self.enc_ciphertext + self.out_ciphertext
            + self.proof_bytes
    }
}

/// Each input as its bytes.
pub open spec fn input_parts(inputs: Seq<TxInput>) -> Seq<Seq<u8>> {
    Seq::new(inputs.len(), |k: int| inputs[k].written())
}

/// Each output as its bytes.
pub open spec fn output_parts(outputs: Seq<TxOutput>) -> Seq<Seq<u8>> {
    Seq::new(outputs.len(), |k: int| outputs[k].written())
}

/// Each shielded spend as its bytes.
pub open spec fn spend_parts(spends: Seq<SpendDescription>) -> Seq<Seq<u8>> {
    Seq::new(spends.len(), |k: int| spends[k].written())
}

/// Each shielded output as its bytes.
pub open spec fn shielded_parts(outputs: Seq<OutputDescription>) -> Seq<Seq<u8>> {
    Seq::new(outputs.len(), |k: int| outputs[k].written())
}

impl Transaction {
    /// Whether every part has the size that it has on the chain.
    pub open spec fn sized(self) -> bool {
        &&& self.version.len() == 4
        &&& self.lock_time.len() == 4
        &&& self.value_balance.len() == 8
        &&& forall|k: int| 0 <= k < self.inputs.len() ==> (#[trigger] self.inputs[k]).sized()
        &&& forall|k: int| 0 <= k < self.outputs.len() ==> (#[trigger] self.outputs[k]).sized()
        &&& forall|k: int| 0 <= k < self.spends.len() ==> (#[trigger] self.spends[k]).sized()
        &&& forall|k: int|
            0 <= k < self.shielded_outputs.len() ==> (
            #[trigger] self.shielded_outputs[k]).sized()
    }

    /// The transparent part: version, inputs, outputs and lock time.
    pub open spec fn transparent(self) -> Seq<u8> {
        self.version + size_prefix(self.inputs.len()) + in_a_row(input_parts(self.inputs))
            + size_prefix(self.outputs.len()) + in_a_row(output_parts(self.outputs))
            + self.lock_time
    }

    /// The shielded part behind the value balance: spends and outputs.
    pub open spec fn descriptions(self) -> Seq<u8> {
        size_prefix(self.spends.len()) + in_a_row(spend_parts(self.spends)) + size_prefix(
            self.shielded_outputs.len(),
        ) + in_a_row(shielded_parts(self.shielded_outputs))
    }

    /// The whole transaction. A byte says that a shielded part follows.
    pub open spec fn written(self) -> Seq<u8> {
        self.transparent() + seq![1u8] + self.value_balance + self.descriptions()
            + self.binding_signature
    }
}

// ---------------------------------------------------------------------------
// Lemmas
// ---------------------------------------------------------------------------

/// A number in little-endian bytes, each worked out.
proof fn lemma_le_bytes(n: nat)
    ensures
        n < 65536 ==> bytes::le_bytes(n, 2) == seq![(n % 256) as u8, (n / 256) as u8],
        n < 4294967296 ==> bytes::le_bytes(n, 4) == seq![
            (n % 256) as u8,
            (n / 256 % 256) as u8,
            (n / 65536 % 256) as u8,
            (n / 16777216) as u8,
        ],
        bytes::le_bytes(n, 8) == seq![
            (n % 256) as u8,
            (n / 256 % 256) as u8,
            (n / 65536 % 256) as u8,
            (n / 16777216 % 256) as u8,
            (n / 4294967296 % 256) as u8,
            (n / 1099511627776 % 256) as u8,
            (n / 281474976710656 % 256) as u8,
            (n / 72057594037927936 % 256) as u8,
        ],
{
    reveal_with_fuel(bytes::le_bytes, 9);
    let n1 = n / 256;
    let n2 = n1 / 256;
    let n3 = n2 / 256;
    let n4 = n3 / 256;
    let n5 = n4 / 256;
    let n6 = n5 / 256;
    let n7 = n6 / 256;
    assert(n2 == n / 65536);
    assert(n3 == n / 16777216);
    assert(n4 == n / 4294967296);
    assert(n5 == n / 1099511627776);
    assert(n6 == n / 281474976710656);
    assert(n7 == n / 72057594037927936);
    if n < 65536 {
        assert(n1 % 256 == n1);
        assert(bytes::le_bytes(n, 2) =~= seq![(n % 256) as u8, (n / 256) as u8]);
    }
    if n < 4294967296 {
        assert(n3 % 256 == n3);
        assert(bytes::le_bytes(n, 4) =~= seq![
            (n % 256) as u8,
            (n1 % 256) as u8,
            (n2 % 256) as u8,
            (n3 % 256) as u8,
        ]);
    }
    assert(bytes::le_bytes(n, 8) =~= seq![
        (n % 256) as u8,
        (n1 % 256) as u8,
        (n2 % 256) as u8,
        (n3 % 256) as u8,
        (n4 % 256) as u8,
        (n5 % 256) as u8,
        (n6 % 256) as u8,
        (n7 % 256) as u8,
    ]);
}

/// A compact size is written as its bytes are worked out: one byte below 253;
/// otherwise a byte that tells the width, and then two, four or eight bytes with the
/// least significant first.
pub proof fn law_compact_size_is_its_bytes(n: nat)
    ensures
        stream::compact_size(n) == size_prefix(n),
{
    lemma_le_bytes(n);
    assert(stream::compact_size(n) =~= size_prefix(n));
}

/// A length that is written reads back, wherever it stands and whatever follows.
proof fn lemma_prefix_reads_back(before: Seq<u8>, n: nat, after: Seq<u8>)
    requires
        n <= usize::MAX,
    ensures
        scanner::compact_size_at(before + size_prefix(n) + after, before.len() as int) == Ok::<
            (usize, int),
            scanner::ParseFault,
        >((n as usize, size_prefix(n).len() as int)),
{
    law_compact_size_is_its_bytes(n);
    stream::law_compact_size_round_trip(before, n as usize, after);
}

/// Whether the `k`th stretch of `size` bytes of `row` is `part`.
spec fn stands_at(row: Seq<u8>, size: int, k: int, part: Seq<u8>) -> bool {
    &&& 0 <= size * k
    &&& size * k + size <= row.len()
    &&& row.subrange(size * k, size * k + size) == part
}

/// Parts of one size in a row: each stands where its number says.
proof fn lemma_equal_parts(parts: Seq<Seq<u8>>, size: int)
    requires
        size >= 0,
        forall|k: int| 0 <= k < parts.len() ==> (#[trigger] parts[k]).len() == size,
    ensures
        in_a_row(parts).len() == size * parts.len(),
        forall|k: int|
            0 <= k < parts.len() ==> stands_at(in_a_row(parts), size, k, #[trigger] parts[k]),
    decreases parts.len(),
{
    if parts.len() == 0 {
        assert(size * 0 == 0) by (nonlinear_arith);
    } else {
        let rest = parts.drop_first();
        let n = parts.len() as int;
        assert forall|k: int| 0 <= k < rest.len() implies (#[trigger] rest[k]).len() == size by {
            assert(rest[k] == parts[k + 1]);
        }
        lemma_equal_parts(rest, size);
        let row = in_a_row(parts);
        let tail = in_a_row(rest);
        assert(parts[0].len() == size);
        assert(size * n == size + size * (n - 1)) by (nonlinear_arith);
        assert forall|k: int| 0 <= k < parts.len() implies stands_at(
            row,
            size,
            k,
            #[trigger] parts[k],
        ) by {
            if k == 0 {
                assert(size * 0 == 0) by (nonlinear_arith);
                assert(size <= size * n) by (nonlinear_arith)
                    requires
                        size >= 0,
                        n >= 1,
                ;
                assert(row.subrange(0, size) =~= parts[0]);
            } else {
                assert(stands_at(tail, size, k - 1, rest[k - 1]));
                assert(rest[k - 1] == parts[k]);
                assert(size * k == size + size * (k - 1)) by (nonlinear_arith);
                assert(row.subrange(size * k, size * k + size) =~= tail.subrange(
                    size * (k - 1),
                    size * (k - 1) + size,
                ));
            }
        }
    }
}

/// Inputs that are written are skipped as a whole.
proof fn lemma_inputs_skipped(before: Seq<u8>, inputs: Seq<TxInput>, after: Seq<u8>)
    requires
        forall|k: int| 0 <= k < inputs.len() ==> (#[trigger] inputs[k]).sized(),
        (before + in_a_row(input_parts(inputs)) + after).len() <= usize::MAX,
    ensures
        scanner::after_inputs(
            before + in_a_row(input_parts(inputs)) + after,
            before.len() as int,
            inputs.len(),
        ) == Ok::<int, scanner::ParseFault>(
            before.len() + in_a_row(input_parts(inputs)).len() as int,
        ),
    decreases inputs.len(),
{
    let data = before + in_a_row(input_parts(inputs)) + after;
    if inputs.len() > 0 {
        let first = inputs[0];
        let rest = inputs.drop_first();
        assert(input_parts(inputs).drop_first() =~= input_parts(rest));
        assert forall|k: int| 0 <= k < rest.len() implies (#[trigger] rest[k]).sized() by {
            assert(rest[k] == inputs[k + 1]);
        }
        assert(first.sized());
        let tail = in_a_row(input_parts(rest));
        let n = first.script.len();
        let behind = first.script + first.sequence + tail + after;
        assert(data =~= (before + first.outpoint) + size_prefix(n) + behind);
        lemma_prefix_reads_back(before + first.outpoint, n, behind);
        let done = before + first.written();
        assert(data =~= done + tail + after);
        lemma_inputs_skipped(done, rest, after);
    }
}

/// Outputs that are written are skipped as a whole.
proof fn lemma_outputs_skipped(before: Seq<u8>, outputs: Seq<TxOutput>, after: Seq<u8>)
    requires
        forall|k: int| 0 <= k < outputs.len() ==> (#[trigger] outputs[k]).sized(),
        (before + in_a_row(output_parts(outputs)) + after).len() <= usize::MAX,
    ensures
        scanner::after_outputs(
            before + in_a_row(output_parts(outputs)) + after,
            before.len() as int,
            outputs.len(),
        ) == Ok::<int, scanner::ParseFault>(
            before.len() + in_a_row(output_parts(outputs)).len() as int,
        ),
    decreases outputs.len(),
{
    let data = before + in_a_row(output_parts(outputs)) + after;
    if outputs.len() > 0 {
        let first = outputs[0];
        let rest = outputs.drop_first();
        assert(output_parts(outputs).drop_first() =~= output_parts(rest));
        assert forall|k: int| 0 <= k < rest.len() implies (#[trigger] rest[k]).sized() by {
            assert(rest[k] == outputs[k + 1]);
        }
        assert(first.sized());
        let tail = in_a_row(output_parts(rest));
        let n = first.script.len();
        let behind = first.script + tail + after;
        assert(data =~= (before + first.value) + size_prefix(n) + behind);
        lemma_prefix_reads_back(before + first.value, n, behind);
        let done = before + first.written();
        assert(data =~= done + tail + after);
        lemma_outputs_skipped(done, rest, after);
    }
}

/// Where the transparent part that is written ends.
proof fn lemma_transparent(tx: Transaction, after: Seq<u8>)
    requires
        tx.sized(),
        (tx.transparent() + after).len() <= usize::MAX,
    ensures
        scanner::after_lock_time(tx.transparent() + after) == Ok::<int, scanner::ParseFault>(
            tx.transparent().len() as int,
        ),
{
    let data = tx.transparent() + after;
    let inputs = in_a_row(input_parts(tx.inputs));
    let outputs = in_a_row(output_parts(tx.outputs));
    let n = tx.inputs.len();
    let m = tx.outputs.len();
    lemma_equal_or_more(input_parts(tx.inputs));
    lemma_equal_or_more(output_parts(tx.outputs));
    let behind_outputs = tx.lock_time + after;
    let behind_inputs = size_prefix(m) + outputs + behind_outputs;
    let head = tx.version + size_prefix(n);
    assert(data =~= tx.version + size_prefix(n) + (inputs + behind_inputs));
    lemma_prefix_reads_back(tx.version, n, inputs + behind_inputs);
    assert(data =~= head + inputs + behind_inputs);
    lemma_inputs_skipped(head, tx.inputs, behind_inputs);
    let passed = head + inputs;
    assert(data =~= passed + size_prefix(m) + (outputs + behind_outputs));
    lemma_prefix_reads_back(passed, m, outputs + behind_outputs);
    assert(data =~= (passed + size_prefix(m)) + outputs + behind_outputs);
    lemma_outputs_skipped(passed + size_prefix(m), tx.outputs, behind_outputs);
}

/// Parts that are not empty take at least a byte each.
proof fn lemma_equal_or_more(parts: Seq<Seq<u8>>)
    requires
        forall|k: int| 0 <= k < parts.len() ==> (#[trigger] parts[k]).len() > 0,
    ensures
        in_a_row(parts).len() >= parts.len(),
    decreases parts.len(),
{
    if parts.len() > 0 {
        let rest = parts.drop_first();
        assert forall|k: int| 0 <= k < rest.len() implies (#[trigger] rest[k]).len() > 0 by {
            assert(rest[k] == parts[k + 1]);
        }
        lemma_equal_or_more(rest);
        assert(parts[0].len() > 0);
    }
}

// ---------------------------------------------------------------------------
// Laws
// ---------------------------------------------------------------------------

/// Whether the fields of an output that were found are those of its description.
pub open spec fn reads(output: OutputDescription, found: scanner::OutputModel) -> bool {
    &&& found.cv == output.cv
    &&& found.cmu == output.cmu
    &&& found.epk == output.epk
    &&& found.enc_ciphertext == output.enc_ciphertext
    &&& found.out_ciphertext == output.out_ciphertext
}

/// Whether what was found is what the transaction holds: the nullifier of each spend
/// and the fields of each output, in their order.
pub open spec fn holds(tx: Transaction, found: scanner::CompactModel) -> bool {
    &&& found.nullifiers.len() == tx.spends.len()
    &&& forall|k: int|
        0 <= k < tx.spends.len() ==> #[trigger] found.nullifiers[k] == tx.spends[k].nullifier
    &&& found.outputs.len() == tx.shielded_outputs.len()
    &&& forall|k: int|
        0 <= k < tx.shielded_outputs.len() ==> reads(
            tx.shielded_outputs[k],
            #[trigger] found.outputs[k],
        )
}

/// A spend description that stands among others has its nullifier there.
proof fn lemma_spend_at(
    before: Seq<u8>,
    row: Seq<u8>,
    after: Seq<u8>,
    k: int,
    spend: SpendDescription,
)
    requires
        spend.sized(),
        stands_at(row, 384, k, spend.written()),
    ensures
        scanner::nullifier_at(before + row + after, before.len() + 384 * k) == spend.nullifier,
{
    let data = before + row + after;
    let at = before.len() + 384 * k;
    let written = spend.written();
    assert(data.subrange(at + 64, at + 96) =~= row.subrange(384 * k, 384 * k + 384).subrange(
        64,
        96,
    ));
    assert(written.subrange(64, 96) =~= spend.nullifier);
}

/// An output description that stands among others has its fields there.
proof fn lemma_output_at(
    before: Seq<u8>,
    row: Seq<u8>,
    after: Seq<u8>,
    k: int,
    output: OutputDescription,
)
    requires
        output.sized(),
        stands_at(row, 948, k, output.written()),
    ensures
        reads(output, scanner::output_at(before + row + after, before.len() + 948 * k)),
{
    let data = before + row + after;
    let at = before.len() + 948 * k;
    let written = row.subrange(948 * k, 948 * k + 948);
    assert(data.subrange(at, at + 32) =~= written.subrange(0, 32));
    assert(data.subrange(at + 32, at + 64) =~= written.subrange(32, 64));
    assert(data.subrange(at + 64, at + 96) =~= written.subrange(64, 96));
    assert(data.subrange(at + 96, at + 676) =~= written.subrange(96, 676));
    assert(data.subrange(at + 676, at + 756) =~= written.subrange(676, 756));
    assert(written.subrange(0, 32) =~= output.cv);
    assert(written.subrange(32, 64) =~= output.cmu);
    assert(written.subrange(64, 96) =~= output.epk);
    assert(written.subrange(96, 676) =~= output.enc_ciphertext);
    assert(written.subrange(676, 756) =~= output.out_ciphertext);
}

/// The descriptions of a transaction read back wherever they stand.
#[verifier::spinoff_prover]
#[verifier::rlimit(30)]
pub proof fn law_descriptions_read_back(before: Seq<u8>, tx: Transaction, after: Seq<u8>)
    requires
        tx.sized(),
        (before + tx.descriptions() + after).len() <= usize::MAX,
    ensures
        match scanner::sapling_descs_at(
            before + tx.descriptions() + after,
            before.len() as int,
        ) {
            Ok(Some(found)) => tx.spends.len() + tx.shielded_outputs.len() > 0 && holds(tx, found),
            Ok(None) => tx.spends.len() + tx.shielded_outputs.len() == 0,
            Err(_) => false,
        },
{
    let data = before + tx.descriptions() + after;
    let spends = in_a_row(spend_parts(tx.spends));
    let outputs = in_a_row(shielded_parts(tx.shielded_outputs));
    let n = tx.spends.len();
    let m = tx.shielded_outputs.len();
    assert forall|k: int| 0 <= k < n implies (#[trigger] spend_parts(tx.spends)[k]).len() == 384 by {
        assert(tx.spends[k].sized());
    }
    lemma_equal_parts(spend_parts(tx.spends), 384);
    assert forall|k: int| 0 <= k < m implies (#[trigger] shielded_parts(
        tx.shielded_outputs,
    )[k]).len() == 948 by {
        assert(tx.shielded_outputs[k].sized());
    }
    lemma_equal_parts(shielded_parts(tx.shielded_outputs), 948);
    let behind_spends = size_prefix(m) + outputs + after;
    assert(data =~= before + size_prefix(n) + (spends + behind_spends));
    lemma_prefix_reads_back(before, n, spends + behind_spends);
    let first_spend = before.len() + size_prefix(n).len() as int;
    let passed = before + size_prefix(n) + spends;
    assert(data =~= passed + size_prefix(m) + (outputs + after));
    lemma_prefix_reads_back(passed, m, outputs + after);
    let first_output = passed.len() + size_prefix(m).len() as int;
    assert(first_output + 948 * m <= data.len());
    if n + m > 0 {
        let found = scanner::sapling_descs_at(data, before.len() as int)->Ok_0->0;
        let passed_counts = passed + size_prefix(m);
        assert(data =~= (before + size_prefix(n)) + spends + behind_spends);
        assert(data =~= passed_counts + outputs + after);
        assert forall|k: int| 0 <= k < n implies #[trigger] found.nullifiers[k]
            == tx.spends[k].nullifier by {
            assert(stands_at(spends, 384, k, spend_parts(tx.spends)[k]));
            lemma_spend_at(before + size_prefix(n), spends, behind_spends, k, tx.spends[k]);
        }
        assert forall|k: int| 0 <= k < m implies reads(
            tx.shielded_outputs[k],
            #[trigger] found.outputs[k],
        ) by {
            assert(stands_at(outputs, 948, k, shielded_parts(tx.shielded_outputs)[k]));
            lemma_output_at(passed_counts, outputs, after, k, tx.shielded_outputs[k]);
        }
    }
}

/// A transaction that is written reads back, whatever follows it: for any numbers of
/// inputs, outputs, spends and shielded outputs, its shielded data is the nullifier of
/// each spend and the fields of each output. Without any there is none.
pub proof fn law_transaction_reads_back(tx: Transaction, rest: Seq<u8>)
    requires
        tx.sized(),
        (tx.written() + rest).len() <= usize::MAX,
    ensures
        match scanner::sapling_tx(tx.written() + rest) {
            Ok(Some(found)) => tx.spends.len() + tx.shielded_outputs.len() > 0 && holds(tx, found),
            Ok(None) => tx.spends.len() + tx.shielded_outputs.len() == 0,
            Err(_) => false,
        },
{
    let data = tx.written() + rest;
    let after = seq![1u8] + tx.value_balance + tx.descriptions() + tx.binding_signature + rest;
    assert(data =~= tx.transparent() + after);
    lemma_transparent(tx, after);
    let pos = tx.transparent().len() as int;
    let before = tx.transparent() + seq![1u8] + tx.value_balance;
    let behind = tx.binding_signature + rest;
    assert(data[pos] == 1u8);
    assert(data =~= before + tx.descriptions() + behind);
    law_descriptions_read_back(before, tx, behind);
}

/// A transaction that ends with its transparent part, or says by a zero that nothing
/// shielded follows, has no shielded data, whatever stands behind the zero.
pub proof fn law_transparent_transaction_has_none(tx: Transaction, rest: Seq<u8>)
    requires
        tx.sized(),
        (tx.transparent() + rest).len() <= usize::MAX,
        rest.len() > 0 ==> rest[0] == 0,
    ensures
        scanner::sapling_tx(tx.transparent() + rest) == Ok::<
            Option<scanner::CompactModel>,
            scanner::ParseFault,
        >(None),
{
    lemma_transparent(tx, rest);
}

/// Shielded data comes out of bytes that are there: for every spend and every output
/// its whole description.
pub proof fn law_shielded_data_is_there(data: Seq<u8>)
    ensures
        scanner::sapling_tx(data) matches Ok(Some(found)) ==> 384 * found.nullifiers.len() + 948
            * found.outputs.len() < data.len(),
{
    if let Ok(pos) = scanner::after_lock_time(data) {
        if let Ok((inputs, width)) = scanner::compact_size_at(data, 4) {
            lemma_skips_forward(data, 4 + width, inputs as nat);
            if let Ok(at) = scanner::after_inputs(data, 4 + width, inputs as nat) {
                if let Ok((outputs, wide)) = scanner::compact_size_at(data, at) {
                    lemma_skips_outputs_forward(data, at + wide, outputs as nat);
                }
            }
        }
    }
}

/// Skipping inputs goes forward.
proof fn lemma_skips_forward(data: Seq<u8>, pos: int, n: nat)
    ensures
        scanner::after_inputs(data, pos, n) matches Ok(end) ==> end >= pos,
    decreases n,
{
    if n > 0 {
        if let Ok((script, width)) = scanner::compact_size_at(data, pos + 36) {
            lemma_skips_forward(data, pos + 36 + width + script + 4, (n - 1) as nat);
        }
    }
}

/// Skipping outputs goes forward.
proof fn lemma_skips_outputs_forward(data: Seq<u8>, pos: int, n: nat)
    ensures
        scanner::after_outputs(data, pos, n) matches Ok(end) ==> end >= pos,
    decreases n,
{
    if n > 0 {
        if let Ok((script, width)) = scanner::compact_size_at(data, pos + 8) {
            lemma_skips_outputs_forward(data, pos + 8 + width + script, (n - 1) as nat);
        }
    }
}

/// What reads as a length reads the same where more bytes follow.
proof fn lemma_size_in_front(data: Seq<u8>, n: int, pos: int)
    requires
        0 <= n <= data.len(),
        0 <= pos,
    ensures
        scanner::compact_size_at(data.take(n), pos) matches Ok((value, width)) ==> {
            &&& scanner::compact_size_at(data, pos) == Ok::<(usize, int), scanner::ParseFault>(
                (value, width),
            )
            &&& 0 < width
            &&& pos + width <= n
        },
{
    let front = data.take(n);
    if let Ok((value, width)) = scanner::compact_size_at(front, pos) {
        assert(front[pos] == data[pos]);
        assert(front.subrange(pos + 1, pos + width) =~= data.subrange(pos + 1, pos + width));
    }
}

/// Inputs that are skipped are skipped the same where more bytes follow.
proof fn lemma_inputs_in_front(data: Seq<u8>, n: int, pos: int, count: nat)
    requires
        0 <= pos <= n <= data.len(),
    ensures
        scanner::after_inputs(data.take(n), pos, count) matches Ok(end) ==> {
            &&& scanner::after_inputs(data, pos, count) == Ok::<int, scanner::ParseFault>(end)
            &&& pos <= end <= n
        },
    decreases count,
{
    if count > 0 {
        lemma_size_in_front(data, n, pos + 36);
        if let Ok((script, width)) = scanner::compact_size_at(data.take(n), pos + 36) {
            let end = pos + 36 + width + script + 4;
            if end <= n {
                lemma_inputs_in_front(data, n, end, (count - 1) as nat);
            }
        }
    }
}

/// Outputs that are skipped are skipped the same where more bytes follow.
proof fn lemma_outputs_in_front(data: Seq<u8>, n: int, pos: int, count: nat)
    requires
        0 <= pos <= n <= data.len(),
    ensures
        scanner::after_outputs(data.take(n), pos, count) matches Ok(end) ==> {
            &&& scanner::after_outputs(data, pos, count) == Ok::<int, scanner::ParseFault>(end)
            &&& pos <= end <= n
        },
    decreases count,
{
    if count > 0 {
        lemma_size_in_front(data, n, pos + 8);
        if let Ok((script, width)) = scanner::compact_size_at(data.take(n), pos + 8) {
            let end = pos + 8 + width + script;
            if end <= n {
                lemma_outputs_in_front(data, n, end, (count - 1) as nat);
            }
        }
    }
}

/// A lock time that is reached is reached the same where more bytes follow.
proof fn lemma_lock_time_in_front(data: Seq<u8>, n: int)
    requires
        0 <= n <= data.len(),
    ensures
        scanner::after_lock_time(data.take(n)) matches Ok(pos) ==> {
            &&& scanner::after_lock_time(data) == Ok::<int, scanner::ParseFault>(pos)
            &&& 4 < pos <= n + 4
        },
{
    let front = data.take(n);
    lemma_size_in_front(data, n, 4);
    if let Ok((inputs, width)) = scanner::compact_size_at(front, 4) {
        lemma_inputs_in_front(data, n, 4 + width, inputs as nat);
        if let Ok(at) = scanner::after_inputs(front, 4 + width, inputs as nat) {
            lemma_size_in_front(data, n, at);
            if let Ok((outputs, wide)) = scanner::compact_size_at(front, at) {
                lemma_outputs_in_front(data, n, at + wide, outputs as nat);
            }
        }
    }
}

/// Where the counts of the spends and of the outputs stand, and where the descriptions
/// end behind them.
#[verifier::spinoff_prover]
proof fn lemma_counts(before: Seq<u8>, tx: Transaction, after: Seq<u8>) -> (outputs_at: int)
    requires
        tx.sized(),
        (before + tx.descriptions() + after).len() <= usize::MAX,
    ensures
        ({
            let data = before + tx.descriptions() + after;
            let p = tx.spends.len();
            let q = tx.shielded_outputs.len();
            &&& scanner::compact_size_at(data, before.len() as int) == Ok::<
                (usize, int),
                scanner::ParseFault,
            >((p as usize, size_prefix(p).len() as int))
            &&& outputs_at == before.len() + size_prefix(p).len() + 384 * p
            &&& scanner::compact_size_at(data, outputs_at) == Ok::<
                (usize, int),
                scanner::ParseFault,
            >((q as usize, size_prefix(q).len() as int))
            &&& outputs_at + size_prefix(q).len() + 948 * q == before.len()
                + tx.descriptions().len()
            &&& p <= usize::MAX && q <= usize::MAX
        }),
{
    let data = before + tx.descriptions() + after;
    let spends = in_a_row(spend_parts(tx.spends));
    let outputs = in_a_row(shielded_parts(tx.shielded_outputs));
    let p = tx.spends.len();
    let q = tx.shielded_outputs.len();
    assert forall|k: int| 0 <= k < p implies (#[trigger] spend_parts(tx.spends)[k]).len() == 384 by {
        assert(tx.spends[k].sized());
    }
    lemma_equal_parts(spend_parts(tx.spends), 384);
    assert forall|k: int| 0 <= k < q implies (#[trigger] shielded_parts(
        tx.shielded_outputs,
    )[k]).len() == 948 by {
        assert(tx.shielded_outputs[k].sized());
    }
    lemma_equal_parts(shielded_parts(tx.shielded_outputs), 948);
    let behind_spends = size_prefix(q) + outputs + after;
    assert(data =~= before + size_prefix(p) + (spends + behind_spends));
    lemma_prefix_reads_back(before, p, spends + behind_spends);
    let passed = before + size_prefix(p) + spends;
    assert(data =~= passed + size_prefix(q) + (outputs + after));
    lemma_prefix_reads_back(passed, q, outputs + after);
    passed.len() as int
}

/// A transaction that is cut off is refused: anywhere before its lock time, and
/// anywhere between its value balance and the end of its descriptions.
pub proof fn law_cut_transaction_is_refused(tx: Transaction, n: int)
    requires
        tx.sized(),
        tx.written().len() <= usize::MAX,
        ({
            let end = tx.transparent().len();
            ||| 0 <= n < end - 4
            ||| end + 9 <= n < end + 9 + tx.descriptions().len()
        }),
    ensures
        scanner::sapling_tx(tx.written().take(n)) is Err,
{
    let data = tx.written();
    let front = data.take(n);
    let end = tx.transparent().len() as int;
    let after = seq![1u8] + tx.value_balance + tx.descriptions() + tx.binding_signature;
    assert(data =~= tx.transparent() + after);
    lemma_transparent(tx, after);
    lemma_lock_time_in_front(data, n);
    if n >= end {
        assert(front =~= tx.transparent() + after.take(n - end));
        lemma_transparent(tx, after.take(n - end));
        assert(front[end] == 1u8);
        let before = tx.transparent() + seq![1u8] + tx.value_balance;
        assert(data =~= before + tx.descriptions() + tx.binding_signature);
        let outputs_at = lemma_counts(before, tx, tx.binding_signature);
        lemma_size_in_front(data, n, before.len() as int);
        lemma_size_in_front(data, n, outputs_at);
    }
}

/// The shielded data of a transaction does not depend on what follows it.
pub proof fn law_shielded_data_stands_alone(data: Seq<u8>, rest: Seq<u8>)
    ensures
        scanner::sapling_tx(data) matches Ok(Some(found)) ==> scanner::sapling_tx(data + rest) == Ok::<
            Option<scanner::CompactModel>,
            scanner::ParseFault,
        >(Some(found)),
{
    let all = data + rest;
    let n = data.len() as int;
    assert(all.take(n) =~= data);
    lemma_lock_time_in_front(all, n);
    if let Ok(Some(found)) = scanner::sapling_tx(data) {
        let pos = scanner::after_lock_time(data)->Ok_0;
        assert(all[pos] == data[pos]);
        lemma_size_in_front(all, n, pos + 9);
        let (spends, width) = scanner::compact_size_at(data, pos + 9)->Ok_0;
        let first_spend = pos + 9 + width;
        let spends_end = first_spend + 384 * spends;
        lemma_size_in_front(all, n, spends_end);
        let (outputs, wide) = scanner::compact_size_at(data, spends_end)->Ok_0;
        let first_output = spends_end + wide;
        let again = scanner::sapling_tx(all)->Ok_0->0;
        assert forall|k: int| 0 <= k < spends implies #[trigger] found.nullifiers[k]
            == again.nullifiers[k] by {
            let at = first_spend + 384 * k;
            assert(all.subrange(at + 64, at + 96) =~= data.subrange(at + 64, at + 96));
        }
        assert forall|k: int| 0 <= k < outputs implies #[trigger] found.outputs[k]
            == again.outputs[k] by {
            let at = first_output + 948 * k;
            assert(all.subrange(at, at + 32) =~= data.subrange(at, at + 32));
            assert(all.subrange(at + 32, at + 64) =~= data.subrange(at + 32, at + 64));
            assert(all.subrange(at + 64, at + 96) =~= data.subrange(at + 64, at + 96));
            assert(all.subrange(at + 96, at + 676) =~= data.subrange(at + 96, at + 676));
            assert(all.subrange(at + 676, at + 756) =~= data.subrange(at + 676, at + 756));
        }
        assert(again.nullifiers =~= found.nullifiers);
        assert(again.outputs =~= found.outputs);
    }
}

/// Where descriptions are cut off, the fault names them: the spends where the cut is among
/// them, and the outputs where it is among those.
pub proof fn law_cut_descriptions_are_named(before: Seq<u8>, tx: Transaction, n: int)
    requires
        tx.sized(),
        (before + tx.descriptions()).len() <= usize::MAX,
    ensures
        ({
            let all = before + tx.descriptions();
            let found = scanner::sapling_descs_at(all.take(n), before.len() as int);
            let spends_at = before.len() + size_prefix(tx.spends.len()).len();
            let spends_end = spends_at + 384 * tx.spends.len();
            let outputs_at = spends_end + size_prefix(tx.shielded_outputs.len()).len();
            &&& spends_at <= n < spends_end ==> found == Err::<
                Option<scanner::CompactModel>,
                scanner::ParseFault,
            >(scanner::ParseFault::TruncatedSpend)
            &&& outputs_at <= n < all.len() ==> found == Err::<
                Option<scanner::CompactModel>,
                scanner::ParseFault,
            >(scanner::ParseFault::TruncatedOutput)
        }),
{
    let all = before + tx.descriptions();
    assert(all =~= before + tx.descriptions() + Seq::empty());
    let spends_end = lemma_counts(before, tx, Seq::empty());
    if before.len() + size_prefix(tx.spends.len()).len() <= n < all.len() {
        lemma_size_stays(all, n, before.len() as int);
        if spends_end + size_prefix(tx.shielded_outputs.len()).len() <= n {
            lemma_size_stays(all, n, spends_end);
        }
    }
}

/// A length that lies before a cut is read as if there were none.
proof fn lemma_size_stays(data: Seq<u8>, n: int, pos: int)
    requires
        0 <= pos,
        0 <= n <= data.len(),
        scanner::compact_size_at(data, pos) matches Ok((_, width)) && pos + width <= n,
    ensures
        scanner::compact_size_at(data.take(n), pos) == scanner::compact_size_at(data, pos),
{
    let front = data.take(n);
    let width = scanner::compact_size_at(data, pos)->Ok_0.1;
    assert(front[pos] == data[pos]);
    assert(front.subrange(pos + 1, pos + width) =~= data.subrange(pos + 1, pos + width));
}

} // verus!

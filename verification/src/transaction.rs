//! The boundary record the circuit outputs feed into: a transaction with a
//! bit-exact little-endian wire format, an identifier that is a fixed 256-bit
//! hash over its serial numbers, commitments and memorandum alone, and an
//! equality that ignores the proof-carrying fields.
use vstd::prelude::*;
use blake2::Digest;
use crate::errors::{RecordField, TransactionError};

verus! {

/// The number of bytes of a record's memorandum.
pub const MEMORANDUM_SIZE: usize = 32;

/// The sizes a concrete deployment fixes: how many records a transaction
/// spends and creates, and how many bytes each component serializes to.
#[derive(Clone, Copy, PartialEq, Eq, Structural, Debug)]
pub struct Components {
    pub num_input_records: usize,
    pub num_output_records: usize,
    pub serial_number_size: usize,
    pub commitment_size: usize,
    pub digest_size: usize,
    pub inner_circuit_id_size: usize,
    pub proof_size: usize,
    pub program_commitment_size: usize,
    pub local_data_root_size: usize,
    pub signature_size: usize,
    pub encrypted_record_size: usize,
}

/// A transaction record. Components whose internals belong to the proving
/// system are carried as sized byte strings.
#[derive(Debug)]
pub struct Transaction {
    /// The network this transaction is included in.
    pub network: u8,
    /// The root of the ledger commitment tree.
    pub ledger_digest: Vec<u8>,
    /// The serial numbers of the records being spent.
    pub old_serial_numbers: Vec<Vec<u8>>,
    /// The commitments of the new records.
    pub new_commitments: Vec<Vec<u8>>,
    /// The commitment to the record birth and death programs.
    pub program_commitment: Vec<u8>,
    /// The root of the local data tree.
    pub local_data_root: Vec<u8>,
    /// The difference between input and output record balances.
    pub value_balance: i64,
    /// Randomized signatures authorizing delegated generation.
    pub signatures: Vec<Vec<u8>>,
    /// Encrypted records of the new outputs.
    pub encrypted_records: Vec<Vec<u8>>,
    /// The zero-knowledge proof attesting to the transaction's validity.
    pub transaction_proof: Vec<u8>,
    /// Public data unique among all transactions.
    pub memorandum: Vec<u8>,
    /// The identifier of the inner circuit being used.
    pub inner_circuit_id: Vec<u8>,
}

pub open spec fn sn_base(c: Components) -> int {
    0
}

pub open spec fn cm_base(c: Components) -> int {
    sn_base(c) + c.num_input_records * c.serial_number_size
}

pub open spec fn memo_base(c: Components) -> int {
    cm_base(c) + c.num_output_records * c.commitment_size
}

pub open spec fn digest_base(c: Components) -> int {
    memo_base(c) + 32
}

pub open spec fn inner_base(c: Components) -> int {
    digest_base(c) + c.digest_size
}

pub open spec fn proof_base(c: Components) -> int {
    inner_base(c) + c.inner_circuit_id_size
}

pub open spec fn prog_base(c: Components) -> int {
    proof_base(c) + c.proof_size
}

pub open spec fn local_base(c: Components) -> int {
    prog_base(c) + c.program_commitment_size
}

pub open spec fn vb_base(c: Components) -> int {
    local_base(c) + c.local_data_root_size
}

pub open spec fn net_base(c: Components) -> int {
    vb_base(c) + 8
}

pub open spec fn sig_base(c: Components) -> int {
    net_base(c) + 1
}

pub open spec fn enc_base(c: Components) -> int {
    sig_base(c) + c.num_input_records * c.signature_size
}

/// How many bytes a record serializes to.
pub open spec fn total_size(c: Components) -> int {
    enc_base(c) + c.num_output_records * c.encrypted_record_size
}

/// The little-endian bytes of a 64-bit value.
pub open spec fn u64_le_bytes(x: u64) -> Seq<u8> {
    seq![
        (x & 0xff) as u8,
        ((x >> 8) & 0xff) as u8,
        ((x >> 16) & 0xff) as u8,
        ((x >> 24) & 0xff) as u8,
        ((x >> 32) & 0xff) as u8,
        ((x >> 40) & 0xff) as u8,
        ((x >> 48) & 0xff) as u8,
        ((x >> 56) & 0xff) as u8,
    ]
}

/// A record whose field sizes agree with the deployment's components.
pub open spec fn well_formed(c: Components, t: Transaction) -> bool {
    &&& t.old_serial_numbers@.len() == c.num_input_records
    &&& forall|i: int|
        0 <= i < c.num_input_records ==> (#[trigger] t.old_serial_numbers@[i])@.len()
            == c.serial_number_size
    &&& t.new_commitments@.len() == c.num_output_records
    &&& forall|i: int|
        0 <= i < c.num_output_records ==> (#[trigger] t.new_commitments@[i])@.len()
            == c.commitment_size
    &&& t.memorandum@.len() == 32
    &&& t.ledger_digest@.len() == c.digest_size
    &&& t.inner_circuit_id@.len() == c.inner_circuit_id_size
    &&& t.transaction_proof@.len() == c.proof_size
    &&& t.program_commitment@.len() == c.program_commitment_size
    &&& t.local_data_root@.len() == c.local_data_root_size
    &&& t.signatures@.len() == c.num_input_records
    &&& forall|i: int|
        0 <= i < c.num_input_records ==> (#[trigger] t.signatures@[i])@.len() == c.signature_size
    &&& t.encrypted_records@.len() == c.num_output_records
    &&& forall|i: int|
        0 <= i < c.num_output_records ==> (#[trigger] t.encrypted_records@[i])@.len()
            == c.encrypted_record_size
}

/// The wire format: `b` is the little-endian concatenation, in order, of the
/// serial numbers, the new commitments, the memorandum, the ledger digest,
/// the inner circuit id, the proof, the program commitment, the local data
/// root, the 8-byte signed value balance, the 1-byte network id, the
/// signatures, and the encrypted records.
pub open spec fn serialized_as(c: Components, t: Transaction, b: Seq<u8>) -> bool {
    &&& b.len() == total_size(c)
    &&& forall|i: int|
        0 <= i < c.num_input_records ==> (#[trigger] t.old_serial_numbers@[i])@ == b.subrange(
            sn_base(c) + i * c.serial_number_size,
            sn_base(c) + i * c.serial_number_size + c.serial_number_size,
        )
    &&& forall|i: int|
        0 <= i < c.num_output_records ==> (#[trigger] t.new_commitments@[i])@ == b.subrange(
            cm_base(c) + i * c.commitment_size,
            cm_base(c) + i * c.commitment_size + c.commitment_size,
        )
    &&& t.memorandum@ == b.subrange(memo_base(c), memo_base(c) + 32)
    &&& t.ledger_digest@ == b.subrange(digest_base(c), digest_base(c) + c.digest_size)
    &&& t.inner_circuit_id@ == b.subrange(
        inner_base(c),
        inner_base(c) + c.inner_circuit_id_size,
    )
    &&& t.transaction_proof@ == b.subrange(proof_base(c), proof_base(c) + c.proof_size)
    &&& t.program_commitment@ == b.subrange(
        prog_base(c),
        prog_base(c) + c.program_commitment_size,
    )
    &&& t.local_data_root@ == b.subrange(local_base(c), local_base(c) + c.local_data_root_size)
    &&& u64_le_bytes(t.value_balance as u64) == b.subrange(vb_base(c), vb_base(c) + 8)
    &&& t.network == b[net_base(c)]
    &&& forall|i: int|
        0 <= i < c.num_input_records ==> (#[trigger] t.signatures@[i])@ == b.subrange(
            sig_base(c) + i * c.signature_size,
            sig_base(c) + i * c.signature_size + c.signature_size,
        )
    &&& forall|i: int|
        0 <= i < c.num_output_records ==> (#[trigger] t.encrypted_records@[i])@ == b.subrange(
            enc_base(c) + i * c.encrypted_record_size,
            enc_base(c) + i * c.encrypted_record_size + c.encrypted_record_size,
        )
}

/// Appending bytes leaves every subrange of the existing prefix in place,
/// and the appended bytes stand at the end.
proof fn lemma_append_subrange(a: Seq<u8>, b: Seq<u8>)
    ensures
        forall|x: int, y: int|
            0 <= x <= y <= a.len() ==> #[trigger] (a + b).subrange(x, y) == a.subrange(x, y),
        (a + b).subrange(a.len() as int, (a.len() + b.len()) as int) == b,
{
    assert forall|x: int, y: int|
        0 <= x <= y <= a.len() implies #[trigger] (a + b).subrange(x, y) == a.subrange(x, y) by {
        assert((a + b).subrange(x, y) =~= a.subrange(x, y));
    }
    assert((a + b).subrange(a.len() as int, (a.len() + b.len()) as int) =~= b);
}

/// Appends a copy of `src` to `dst`.
#[verifier::loop_isolation(false)]
fn append_bytes(dst: &mut Vec<u8>, src: &Vec<u8>)
    ensures
        final(dst)@ == old(dst)@ + src@,
{
    let mut i: usize = 0;
    while i < src.len()
        invariant
            i <= src@.len(),
            dst@ == old(dst)@ + src@.take(i as int),
        decreases src@.len() - i,
    {
        dst.push(src[i]);
        proof {
            assert(old(dst)@ + src@.take(i as int) + seq![src@[i as int]] =~= old(dst)@
                + src@.take(i + 1));
        }
        i += 1;
    }
    proof {
        assert(src@.take(src@.len() as int) =~= src@);
    }
}

/// Copies `size` bytes of `bytes` starting at `offset`.
#[verifier::loop_isolation(false)]
fn read_chunk(bytes: &Vec<u8>, offset: usize, size: usize) -> (r: Vec<u8>)
    requires
        offset + size <= bytes@.len(),
    ensures
        r@ == bytes@.subrange(offset as int, offset + size),
{
    let n = bytes.len();
    let mut out: Vec<u8> = Vec::new();
    let mut i: usize = 0;
    while i < size
        invariant
            i <= size,
            n == bytes@.len(),
            out@ == bytes@.subrange(offset as int, offset + i),
        decreases size - i,
    {
        out.push(bytes[offset + i]);
        proof {
            assert(bytes@.subrange(offset as int, offset + i) + seq![bytes@[offset + i]]
                =~= bytes@.subrange(offset as int, offset + i + 1));
        }
        i += 1;
    }
    out
}


/// One sequence is a prefix of another; subranges of the prefix agree.
proof fn lemma_prefix_chunk(all: Seq<u8>, part: Seq<u8>, x: int, y: int)
    requires
        part.len() <= all.len(),
        all.subrange(0, part.len() as int) == part,
        0 <= x <= y <= part.len(),
    ensures
        all.subrange(x, y) == part.subrange(x, y),
{
    assert(all.subrange(x, y) =~= part.subrange(x, y));
}

/// Prefix extension is transitive.
proof fn lemma_prefix_trans(a: Seq<u8>, b: Seq<u8>, c: Seq<u8>)
    requires
        a.len() <= b.len() <= c.len(),
        b.subrange(0, a.len() as int) == a,
        c.subrange(0, b.len() as int) == b,
    ensures
        c.subrange(0, a.len() as int) == a,
{
    assert(c.subrange(0, a.len() as int) =~= a);
}

/// Appends equally sized chunks to `dst`, each recoverable at its offset.
#[verifier::loop_isolation(false)]
fn append_chunks(dst: &mut Vec<u8>, chunks: &Vec<Vec<u8>>, size: usize)
    requires
        forall|i: int| 0 <= i < chunks@.len() ==> (#[trigger] chunks@[i])@.len() == size,
    ensures
        final(dst)@.len() == old(dst)@.len() + chunks@.len() * size,
        final(dst)@.subrange(0, old(dst)@.len() as int) == old(dst)@,
        forall|i: int|
            0 <= i < chunks@.len() ==> (#[trigger] chunks@[i])@ == final(dst)@.subrange(
                old(dst)@.len() + i * size,
                old(dst)@.len() + i * size + size,
            ),
{
    let mut i: usize = 0;
    while i < chunks.len()
        invariant
            i <= chunks@.len(),
            dst@.len() == old(dst)@.len() + i * size,
            dst@.subrange(0, old(dst)@.len() as int) == old(dst)@,
            forall|k: int|
                0 <= k < i ==> (#[trigger] chunks@[k])@ == dst@.subrange(
                    old(dst)@.len() + k * size,
                    old(dst)@.len() + k * size + size,
                ),
        decreases chunks@.len() - i,
    {
        let ghost pre = dst@;
        append_bytes(dst, &chunks[i]);
        proof {
            lemma_append_subrange(pre, chunks@[i as int]@);
            assert((i + 1) * size == i * size + size) by (nonlinear_arith);
            assert(dst@.subrange(0, old(dst)@.len() as int) =~= old(dst)@);
            assert forall|k: int|
                0 <= k < i + 1 implies (#[trigger] chunks@[k])@ == dst@.subrange(
                old(dst)@.len() + k * size,
                old(dst)@.len() + k * size + size,
            ) by {
                if k < i {
                    assert(k * size + size <= i * size) by (nonlinear_arith)
                        requires
                            0 <= k < i,
                            size >= 0,
                    ;
                    assert(k * size >= 0) by (nonlinear_arith)
                        requires
                            k >= 0,
                            size >= 0,
                    ;
                    assert(dst@.subrange(
                        old(dst)@.len() + k * size,
                        old(dst)@.len() + k * size + size,
                    ) == pre.subrange(
                        old(dst)@.len() + k * size,
                        old(dst)@.len() + k * size + size,
                    ));
                } else {
                    assert(dst@.subrange(pre.len() as int, (pre.len()
                        + chunks@[i as int]@.len()) as int) == chunks@[i as int]@);
                }
            }
        }
        i += 1;
    }
    proof {
        assert(dst@.subrange(0, old(dst)@.len() as int) =~= old(dst)@);
    }
}

/// The identifier's preimage: the concatenation of the chunk sequence.
pub open spec fn cat_chunks(s: Seq<Seq<u8>>) -> Seq<u8>
    decreases s.len(),
{
    if s.len() == 0 {
        Seq::empty()
    } else {
        cat_chunks(s.drop_last()) + s.last()
    }
}

/// What the record identifier hashes: every serial number, then every new
/// commitment, then the memorandum. The proof, the signatures, the program
/// commitment and the local data root are excluded.
pub open spec fn id_preimage(t: Transaction) -> Seq<u8> {
    cat_chunks(t.old_serial_numbers.deep_view()) + cat_chunks(t.new_commitments.deep_view())
        + t.memorandum@
}

pub uninterp spec fn blake2s_of(input: Seq<u8>) -> Seq<u8>;

/// Relies on blake2::Blake2s256: a fixed 256-bit digest that is a
/// deterministic function of the input bytes alone.
#[verifier::external_body]
fn blake2s_digest(input: &Vec<u8>) -> (r: Vec<u8>)
    ensures
        r@ == blake2s_of(input@),
        r@.len() == 32,
{
    let mut hasher = blake2::Blake2s256::new();
    Digest::update(&mut hasher, input.as_slice());
    let out = Digest::finalize(hasher);
    out.as_slice().to_vec()
}

/// Appends every chunk of `chunks` to `dst`, in order.
#[verifier::loop_isolation(false)]
fn append_all_chunks(dst: &mut Vec<u8>, chunks: &Vec<Vec<u8>>)
    ensures
        final(dst)@ == old(dst)@ + cat_chunks(chunks.deep_view()),
{
    let mut i: usize = 0;
    while i < chunks.len()
        invariant
            i <= chunks@.len(),
            dst@ == old(dst)@ + cat_chunks(chunks.deep_view().take(i as int)),
        decreases chunks@.len() - i,
    {
        append_bytes(dst, &chunks[i]);
        proof {
            assert(chunks.deep_view().take(i + 1).drop_last() =~= chunks.deep_view().take(
                i as int,
            ));
            assert(chunks.deep_view().take(i + 1).last() == chunks@[i as int]@);
            assert(cat_chunks(chunks.deep_view().take(i + 1)) == cat_chunks(
                chunks.deep_view().take(i as int),
            ) + chunks@[i as int]@);
        }
        i += 1;
    }
    proof {
        assert(chunks.deep_view().take(chunks@.len() as int) =~= chunks.deep_view());
    }
}

impl Transaction {
    /// Builds a record from its parts. The record counts must match the
    /// deployment's components.
    pub fn new(
        c: &Components,
        old_serial_numbers: Vec<Vec<u8>>,
        new_commitments: Vec<Vec<u8>>,
        memorandum: Vec<u8>,
        ledger_digest: Vec<u8>,
        inner_circuit_id: Vec<u8>,
        transaction_proof: Vec<u8>,
        program_commitment: Vec<u8>,
        local_data_root: Vec<u8>,
        value_balance: i64,
        network: u8,
        signatures: Vec<Vec<u8>>,
        encrypted_records: Vec<Vec<u8>>,
    ) -> (r: Transaction)
        requires
            old_serial_numbers@.len() == c.num_input_records,
            new_commitments@.len() == c.num_output_records,
            signatures@.len() == c.num_input_records,
            encrypted_records@.len() == c.num_output_records,
        ensures
            r == (Transaction {
                network,
                ledger_digest,
                old_serial_numbers,
                new_commitments,
                program_commitment,
                local_data_root,
                value_balance,
                signatures,
                encrypted_records,
                transaction_proof,
                memorandum,
                inner_circuit_id,
            }),
    {
        Transaction {
            network,
            ledger_digest,
            old_serial_numbers,
            new_commitments,
            program_commitment,
            local_data_root,
            value_balance,
            signatures,
            encrypted_records,
            transaction_proof,
            memorandum,
            inner_circuit_id,
        }
    }

    /// The record identifier: the 256-bit hash of the serial numbers, the
    /// commitments and the memorandum, in that order and nothing else.
    pub fn transaction_id(&self) -> (r: Result<Vec<u8>, TransactionError>)
        ensures
            r matches Ok(id) && id@ == blake2s_of(id_preimage(*self)) && id@.len() == 32,
    {
        let mut pre_image_bytes: Vec<u8> = Vec::new();
        append_all_chunks(&mut pre_image_bytes, &self.old_serial_numbers);
        append_all_chunks(&mut pre_image_bytes, &self.new_commitments);
        append_bytes(&mut pre_image_bytes, &self.memorandum);
        let id = blake2s_digest(&pre_image_bytes);
        Ok(id)
    }

    /// The identifier of the network this record belongs to.
    pub fn network_id(&self) -> (r: u8)
        ensures
            r == self.network,
    {
        self.network
    }

    /// The root of the ledger commitment tree.
    pub fn ledger_digest(&self) -> (r: &Vec<u8>)
        ensures
            r == &self.ledger_digest,
    {
        &self.ledger_digest
    }

    /// The identifier of the inner circuit.
    pub fn inner_circuit_id(&self) -> (r: &Vec<u8>)
        ensures
            r == &self.inner_circuit_id,
    {
        &self.inner_circuit_id
    }

    /// The serial numbers of the spent records.
    pub fn old_serial_numbers(&self) -> (r: &Vec<Vec<u8>>)
        ensures
            r == &self.old_serial_numbers,
    {
        &self.old_serial_numbers
    }

    /// The commitments of the created records.
    pub fn new_commitments(&self) -> (r: &Vec<Vec<u8>>)
        ensures
            r == &self.new_commitments,
    {
        &self.new_commitments
    }

    /// The record's public memorandum.
    pub fn memorandum(&self) -> (r: &Vec<u8>)
        ensures
            r == &self.memorandum,
    {
        &self.memorandum
    }

    /// The commitment to the record programs.
    pub fn program_commitment(&self) -> (r: &Vec<u8>)
        ensures
            r == &self.program_commitment,
    {
        &self.program_commitment
    }

    /// The root of the local data tree.
    pub fn local_data_root(&self) -> (r: &Vec<u8>)
        ensures
            r == &self.local_data_root,
    {
        &self.local_data_root
    }

    /// The difference between input and output record balances.
    pub fn value_balance(&self) -> (r: i64)
        ensures
            r == self.value_balance,
    {
        self.value_balance
    }

    /// The delegated-generation signatures.
    pub fn signatures(&self) -> (r: &Vec<Vec<u8>>)
        ensures
            r == &self.signatures,
    {
        &self.signatures
    }

    /// The encrypted output records.
    pub fn encrypted_records(&self) -> (r: &Vec<Vec<u8>>)
        ensures
            r == &self.encrypted_records,
    {
        &self.encrypted_records
    }

    /// How many bytes the record serializes to.
    pub fn size(&self, c: &Components) -> (r: usize)
        requires
            well_formed(*c, *self),
            total_size(*c) <= usize::MAX,
        ensures
            r == total_size(*c),
    {
        let bytes = self.to_bytes_le(c);
        bytes.len()
    }

    /// Serializes the record into its little-endian wire format.
    #[verifier::loop_isolation(false)]
    #[verifier::rlimit(80)]
    pub fn to_bytes_le(&self, c: &Components) -> (r: Vec<u8>)
        requires
            well_formed(*c, *self),
        ensures
            serialized_as(*c, *self, r@),
    {
        let mut out: Vec<u8> = Vec::new();
        append_chunks(&mut out, &self.old_serial_numbers, c.serial_number_size);
        let ghost s1 = out@;
        append_chunks(&mut out, &self.new_commitments, c.commitment_size);
        let ghost s2 = out@;
        append_bytes(&mut out, &self.memorandum);
        let ghost s3 = out@;
        append_bytes(&mut out, &self.ledger_digest);
        let ghost s4 = out@;
        append_bytes(&mut out, &self.inner_circuit_id);
        let ghost s5 = out@;
        append_bytes(&mut out, &self.transaction_proof);
        let ghost s6 = out@;
        append_bytes(&mut out, &self.program_commitment);
        let ghost s7 = out@;
        append_bytes(&mut out, &self.local_data_root);
        let ghost s8 = out@;
        let x: u64 = #[verifier::truncate] (self.value_balance as u64);
        out.push(#[verifier::truncate] ((x & 0xff) as u8));
        out.push(#[verifier::truncate] (((x >> 8) & 0xff) as u8));
        out.push(#[verifier::truncate] (((x >> 16) & 0xff) as u8));
        out.push(#[verifier::truncate] (((x >> 24) & 0xff) as u8));
        out.push(#[verifier::truncate] (((x >> 32) & 0xff) as u8));
        out.push(#[verifier::truncate] (((x >> 40) & 0xff) as u8));
        out.push(#[verifier::truncate] (((x >> 48) & 0xff) as u8));
        out.push(#[verifier::truncate] (((x >> 56) & 0xff) as u8));
        let ghost s9 = out@;
        out.push(self.network);
        let ghost s10 = out@;
        append_chunks(&mut out, &self.signatures, c.signature_size);
        let ghost s11 = out@;
        append_chunks(&mut out, &self.encrypted_records, c.encrypted_record_size);
        proof {
            let b = out@;
            assert(s3.subrange(0, s2.len() as int) =~= s2);
            assert(s4.subrange(0, s3.len() as int) =~= s3);
            assert(s5.subrange(0, s4.len() as int) =~= s4);
            assert(s6.subrange(0, s5.len() as int) =~= s5);
            assert(s7.subrange(0, s6.len() as int) =~= s6);
            assert(s8.subrange(0, s7.len() as int) =~= s7);
            assert(s9 == s8 + u64_le_bytes(x)) by {
                assert(s9 =~= s8 + u64_le_bytes(x));
            }
            assert(s10 == s9 + seq![self.network]) by {
                assert(s10 =~= s9 + seq![self.network]);
            }
            assert(s9.subrange(0, s8.len() as int) =~= s8);
            assert(s10.subrange(0, s9.len() as int) =~= s9);
            // Every intermediate prefix stands unchanged in the result.
            lemma_prefix_trans(s10, s11, b);
            lemma_prefix_trans(s9, s10, b);
            lemma_prefix_trans(s8, s9, b);
            lemma_prefix_trans(s7, s8, b);
            lemma_prefix_trans(s6, s7, b);
            lemma_prefix_trans(s5, s6, b);
            lemma_prefix_trans(s4, s5, b);
            lemma_prefix_trans(s3, s4, b);
            lemma_prefix_trans(s2, s3, b);
            lemma_prefix_trans(s1, s2, b);
            assert(s1.len() == cm_base(*c));
            assert(s2.len() == memo_base(*c));
            assert(s3.len() == digest_base(*c));
            assert(s4.len() == inner_base(*c));
            assert(s5.len() == proof_base(*c));
            assert(s6.len() == prog_base(*c));
            assert(s7.len() == local_base(*c));
            assert(s8.len() == vb_base(*c));
            assert(s9.len() == net_base(*c));
            assert(s10.len() == sig_base(*c));
            assert(s11.len() == enc_base(*c));
            assert forall|i: int|
                0 <= i < c.num_input_records implies (#[trigger] self.old_serial_numbers@[i])@
                == b.subrange(
                sn_base(*c) + i * c.serial_number_size,
                sn_base(*c) + i * c.serial_number_size + c.serial_number_size,
            ) by {
                assert(i * c.serial_number_size + c.serial_number_size <= c.num_input_records
                    * c.serial_number_size) by (nonlinear_arith)
                    requires
                        0 <= i < c.num_input_records,
                        c.serial_number_size >= 0,
                ;
                assert(i * c.serial_number_size >= 0) by (nonlinear_arith)
                    requires
                        i >= 0,
                        c.serial_number_size >= 0,
                ;
                lemma_prefix_chunk(
                    b,
                    s1,
                    i * c.serial_number_size,
                    i * c.serial_number_size + c.serial_number_size,
                );
                assert(s1.subrange(
                    i * c.serial_number_size,
                    i * c.serial_number_size + c.serial_number_size,
                ) == self.old_serial_numbers@[i]@);
            }
            assert forall|i: int|
                0 <= i < c.num_output_records implies (#[trigger] self.new_commitments@[i])@
                == b.subrange(
                cm_base(*c) + i * c.commitment_size,
                cm_base(*c) + i * c.commitment_size + c.commitment_size,
            ) by {
                assert(i * c.commitment_size + c.commitment_size <= c.num_output_records
                    * c.commitment_size) by (nonlinear_arith)
                    requires
                        0 <= i < c.num_output_records,
                        c.commitment_size >= 0,
                ;
                assert(i * c.commitment_size >= 0) by (nonlinear_arith)
                    requires
                        i >= 0,
                        c.commitment_size >= 0,
                ;
                lemma_prefix_chunk(
                    b,
                    s2,
                    cm_base(*c) + i * c.commitment_size,
                    cm_base(*c) + i * c.commitment_size + c.commitment_size,
                );
                assert(s2.subrange(
                    cm_base(*c) + i * c.commitment_size,
                    cm_base(*c) + i * c.commitment_size + c.commitment_size,
                ) == self.new_commitments@[i]@);
            }
            lemma_prefix_chunk(b, s3, memo_base(*c), memo_base(*c) + 32);
            assert(s3.subrange(memo_base(*c), memo_base(*c) + 32) == self.memorandum@) by {
                assert(s3.subrange(s2.len() as int, (s2.len() + self.memorandum@.len()) as int)
                    =~= self.memorandum@);
            }
            lemma_prefix_chunk(b, s4, digest_base(*c), digest_base(*c) + c.digest_size);
            assert(s4.subrange(digest_base(*c), digest_base(*c) + c.digest_size)
                =~= self.ledger_digest@);
            lemma_prefix_chunk(b, s5, inner_base(*c), inner_base(*c) + c.inner_circuit_id_size);
            assert(s5.subrange(inner_base(*c), inner_base(*c) + c.inner_circuit_id_size)
                =~= self.inner_circuit_id@);
            lemma_prefix_chunk(b, s6, proof_base(*c), proof_base(*c) + c.proof_size);
            assert(s6.subrange(proof_base(*c), proof_base(*c) + c.proof_size)
                =~= self.transaction_proof@);
            lemma_prefix_chunk(b, s7, prog_base(*c), prog_base(*c) + c.program_commitment_size);
            assert(s7.subrange(prog_base(*c), prog_base(*c) + c.program_commitment_size)
                =~= self.program_commitment@);
            lemma_prefix_chunk(b, s8, local_base(*c), local_base(*c) + c.local_data_root_size);
            assert(s8.subrange(local_base(*c), local_base(*c) + c.local_data_root_size)
                =~= self.local_data_root@);
            lemma_prefix_chunk(b, s9, vb_base(*c), vb_base(*c) + 8);
            assert(s9.subrange(vb_base(*c), vb_base(*c) + 8) =~= u64_le_bytes(x));
            lemma_prefix_chunk(b, s10, net_base(*c), net_base(*c) + 1);
            assert forall|i: int|
                0 <= i < c.num_input_records implies (#[trigger] self.signatures@[i])@
                == b.subrange(
                sig_base(*c) + i * c.signature_size,
                sig_base(*c) + i * c.signature_size + c.signature_size,
            ) by {
                assert(i * c.signature_size + c.signature_size <= c.num_input_records
                    * c.signature_size) by (nonlinear_arith)
                    requires
                        0 <= i < c.num_input_records,
                        c.signature_size >= 0,
                ;
                assert(i * c.signature_size >= 0) by (nonlinear_arith)
                    requires
                        i >= 0,
                        c.signature_size >= 0,
                ;
                lemma_prefix_chunk(
                    b,
                    s11,
                    sig_base(*c) + i * c.signature_size,
                    sig_base(*c) + i * c.signature_size + c.signature_size,
                );
                assert(s11.subrange(
                    sig_base(*c) + i * c.signature_size,
                    sig_base(*c) + i * c.signature_size + c.signature_size,
                ) == self.signatures@[i]@);
            }
            assert(b[net_base(*c)] == s10.subrange(net_base(*c), net_base(*c) + 1)[0]);
            assert(s10.subrange(net_base(*c), net_base(*c) + 1) =~= seq![self.network]);
        }
        out
    }
}


/// The offsets of the wire format stand in increasing order.
proof fn lemma_base_order(c: Components)
    ensures
        0 <= cm_base(c) <= memo_base(c) <= digest_base(c) <= inner_base(c) <= proof_base(c)
            <= prog_base(c) <= local_base(c) <= vb_base(c) <= net_base(c) <= sig_base(c)
            <= enc_base(c) <= total_size(c),
{
    assert(c.num_input_records * c.serial_number_size >= 0) by (nonlinear_arith);
    assert(c.num_output_records * c.commitment_size >= 0) by (nonlinear_arith);
    assert(c.num_input_records * c.signature_size >= 0) by (nonlinear_arith);
    assert(c.num_output_records * c.encrypted_record_size >= 0) by (nonlinear_arith);
}

/// A subrange within the first `t` bytes reads the same from the whole.
proof fn lemma_take_subrange(b: Seq<u8>, t: int, x: int, y: int)
    requires
        0 <= x <= y <= t <= b.len(),
    ensures
        b.take(t).subrange(x, y) == b.subrange(x, y),
{
    assert(b.take(t).subrange(x, y) =~= b.subrange(x, y));
}

/// The little-endian bytes of the value rebuilt from eight bytes are those
/// eight bytes again.
proof fn lemma_u64_le_roundtrip(b0: u8, b1: u8, b2: u8, b3: u8, b4: u8, b5: u8, b6: u8, b7: u8, x: u64)
    requires
        x == (b0 as u64) | ((b1 as u64) << 8) | ((b2 as u64) << 16) | ((b3 as u64) << 24) | (
        (b4 as u64) << 32) | ((b5 as u64) << 40) | ((b6 as u64) << 48) | ((b7 as u64) << 56),
    ensures
        u64_le_bytes(x) == seq![b0, b1, b2, b3, b4, b5, b6, b7],
{
    assert((x & 0xff) == b0 as u64 && ((x >> 8) & 0xff) == b1 as u64 && ((x >> 16) & 0xff) == b2
        as u64 && ((x >> 24) & 0xff) == b3 as u64 && ((x >> 32) & 0xff) == b4 as u64 && ((x >> 40)
        & 0xff) == b5 as u64 && ((x >> 48) & 0xff) == b6 as u64 && ((x >> 56) & 0xff) == b7
        as u64) by (bit_vector)
        requires
            x == (b0 as u64) | ((b1 as u64) << 8) | ((b2 as u64) << 16) | ((b3 as u64) << 24) | (
            (b4 as u64) << 32) | ((b5 as u64) << 40) | ((b6 as u64) << 48) | ((b7 as u64) << 56),
    ;
    assert(u64_le_bytes(x) =~= seq![b0, b1, b2, b3, b4, b5, b6, b7]);
}

/// The first field that is incomplete when only `len` bytes are available.
pub open spec fn missing_field(c: Components, len: int) -> RecordField {
    if len < cm_base(c) {
        RecordField::SerialNumber
    } else if len < memo_base(c) {
        RecordField::Commitment
    } else if len < digest_base(c) {
        RecordField::Memorandum
    } else if len < inner_base(c) {
        RecordField::LedgerDigest
    } else if len < proof_base(c) {
        RecordField::InnerCircuitId
    } else if len < prog_base(c) {
        RecordField::Proof
    } else if len < local_base(c) {
        RecordField::ProgramCommitment
    } else if len < vb_base(c) {
        RecordField::LocalDataRoot
    } else if len < net_base(c) {
        RecordField::ValueBalance
    } else if len < sig_base(c) {
        RecordField::Network
    } else if len < enc_base(c) {
        RecordField::Signature
    } else {
        RecordField::EncryptedRecord
    }
}

/// Reads `count` chunks of `size` bytes each, or reports that the input is
/// too short for them.
#[verifier::loop_isolation(false)]
fn read_chunks(bytes: &Vec<u8>, offset: usize, count: usize, size: usize) -> (r: Option<
    (Vec<Vec<u8>>, usize),
>)
    requires
        offset <= bytes@.len(),
    ensures
        (r matches Some(_)) <==> offset + count * size <= bytes@.len(),
        (match r {
            Some((v, end)) => {
                &&& end == offset + count * size
                &&& v@.len() == count
                &&& forall|i: int|
                    0 <= i < count ==> (#[trigger] v@[i])@ == bytes@.subrange(
                        offset + i * size,
                        offset + i * size + size,
                    )
                &&& forall|i: int| 0 <= i < count ==> (#[trigger] v@[i])@.len() == size
            },
            None => true,
        }),
{
    let n = bytes.len();
    proof {
        assert(count * size >= 0) by (nonlinear_arith);
    }
    let mut out: Vec<Vec<u8>> = Vec::new();
    let mut i: usize = 0;
    let mut cur: usize = offset;
    while i < count
        invariant
            i <= count,
            n == bytes@.len(),
            cur == offset + i * size,
            cur <= n,
            out@.len() == i,
            forall|k: int|
                0 <= k < i ==> (#[trigger] out@[k])@ == bytes@.subrange(
                    offset + k * size,
                    offset + k * size + size,
                ),
            forall|k: int| 0 <= k < i ==> (#[trigger] out@[k])@.len() == size,
        decreases count - i,
    {
        proof {
            assert((i + 1) * size == i * size + size) by (nonlinear_arith);
        }
        if size > n - cur {
            proof {
                assert((i + 1) * size <= count * size) by (nonlinear_arith)
                    requires
                        i + 1 <= count,
                        size >= 0,
                ;
            }
            return None;
        }
        let chunk = read_chunk(bytes, cur, size);
        out.push(chunk);
        cur += size;
        i += 1;
    }
    Some((out, cur))
}

/// Deserializes a record from its little-endian wire format. Trailing bytes
/// beyond the record are ignored; a short input fails with the first field
/// that is incomplete.
#[verifier::loop_isolation(false)]
#[verifier::rlimit(80)]
pub fn from_bytes_le(c: &Components, bytes: &Vec<u8>) -> (r: Result<Transaction, TransactionError>)
    ensures
        (r matches Ok(_)) <==> bytes@.len() >= total_size(*c),
        (match r {
            Ok(t) => well_formed(*c, t) && serialized_as(*c, t, bytes@.take(total_size(*c))),
            Err(e) => e == TransactionError::UnexpectedEnd(
                missing_field(*c, bytes@.len() as int),
            ),
        }),
{
    proof {
        lemma_base_order(*c);
    }
    let n = bytes.len();
    let (old_serial_numbers, cur1) = match read_chunks(
        bytes,
        0,
        c.num_input_records,
        c.serial_number_size,
    ) {
        Some(p) => p,
        None => {
            return Err(TransactionError::UnexpectedEnd(RecordField::SerialNumber));
        }
    };
    let (new_commitments, cur2) = match read_chunks(
        bytes,
        cur1,
        c.num_output_records,
        c.commitment_size,
    ) {
        Some(p) => p,
        None => {
            return Err(TransactionError::UnexpectedEnd(RecordField::Commitment));
        }
    };
    if 32 > n - cur2 {
        return Err(TransactionError::UnexpectedEnd(RecordField::Memorandum));
    }
    let memorandum = read_chunk(bytes, cur2, 32);
    let cur3 = cur2 + 32;
    if c.digest_size > n - cur3 {
        return Err(TransactionError::UnexpectedEnd(RecordField::LedgerDigest));
    }
    let ledger_digest = read_chunk(bytes, cur3, c.digest_size);
    let cur4 = cur3 + c.digest_size;
    if c.inner_circuit_id_size > n - cur4 {
        return Err(TransactionError::UnexpectedEnd(RecordField::InnerCircuitId));
    }
    let inner_circuit_id = read_chunk(bytes, cur4, c.inner_circuit_id_size);
    let cur5 = cur4 + c.inner_circuit_id_size;
    if c.proof_size > n - cur5 {
        return Err(TransactionError::UnexpectedEnd(RecordField::Proof));
    }
    let transaction_proof = read_chunk(bytes, cur5, c.proof_size);
    let cur6 = cur5 + c.proof_size;
    if c.program_commitment_size > n - cur6 {
        return Err(TransactionError::UnexpectedEnd(RecordField::ProgramCommitment));
    }
    let program_commitment = read_chunk(bytes, cur6, c.program_commitment_size);
    let cur7 = cur6 + c.program_commitment_size;
    if c.local_data_root_size > n - cur7 {
        return Err(TransactionError::UnexpectedEnd(RecordField::LocalDataRoot));
    }
    let local_data_root = read_chunk(bytes, cur7, c.local_data_root_size);
    let cur8 = cur7 + c.local_data_root_size;
    if 8 > n - cur8 {
        return Err(TransactionError::UnexpectedEnd(RecordField::ValueBalance));
    }
    let b0 = bytes[cur8];
    let b1 = bytes[cur8 + 1];
    let b2 = bytes[cur8 + 2];
    let b3 = bytes[cur8 + 3];
    let b4 = bytes[cur8 + 4];
    let b5 = bytes[cur8 + 5];
    let b6 = bytes[cur8 + 6];
    let b7 = bytes[cur8 + 7];
    let x: u64 = (b0 as u64) | ((b1 as u64) << 8) | ((b2 as u64) << 16) | ((b3 as u64) << 24) | (
    (b4 as u64) << 32) | ((b5 as u64) << 40) | ((b6 as u64) << 48) | ((b7 as u64) << 56);
    let value_balance: i64 = #[verifier::truncate] (x as i64);
    let cur9 = cur8 + 8;
    if 1 > n - cur9 {
        return Err(TransactionError::UnexpectedEnd(RecordField::Network));
    }
    let network = bytes[cur9];
    let cur10 = cur9 + 1;
    let (signatures, cur11) = match read_chunks(
        bytes,
        cur10,
        c.num_input_records,
        c.signature_size,
    ) {
        Some(p) => p,
        None => {
            return Err(TransactionError::UnexpectedEnd(RecordField::Signature));
        }
    };
    let (encrypted_records, cur12) = match read_chunks(
        bytes,
        cur11,
        c.num_output_records,
        c.encrypted_record_size,
    ) {
        Some(p) => p,
        None => {
            return Err(TransactionError::UnexpectedEnd(RecordField::EncryptedRecord));
        }
    };
    let t = Transaction {
        network,
        ledger_digest,
        old_serial_numbers,
        new_commitments,
        program_commitment,
        local_data_root,
        value_balance,
        signatures,
        encrypted_records,
        transaction_proof,
        memorandum,
        inner_circuit_id,
    };
    proof {
        let total = total_size(*c);
        let tb = bytes@.take(total);
        assert(cur12 == total);
        lemma_u64_le_roundtrip(b0, b1, b2, b3, b4, b5, b6, b7, x);
        assert(x == value_balance as u64) by (bit_vector)
            requires
                value_balance == x as i64,
        ;
        assert forall|i: int|
            0 <= i < c.num_input_records implies (#[trigger] t.old_serial_numbers@[i])@
            == tb.subrange(
            sn_base(*c) + i * c.serial_number_size,
            sn_base(*c) + i * c.serial_number_size + c.serial_number_size,
        ) by {
            assert(i * c.serial_number_size + c.serial_number_size <= c.num_input_records
                * c.serial_number_size) by (nonlinear_arith)
                requires
                    0 <= i < c.num_input_records,
                    c.serial_number_size >= 0,
            ;
            assert(i * c.serial_number_size >= 0) by (nonlinear_arith)
                requires
                    i >= 0,
                    c.serial_number_size >= 0,
            ;
            lemma_take_subrange(
                bytes@,
                total,
                i * c.serial_number_size,
                i * c.serial_number_size + c.serial_number_size,
            );
        }
        assert forall|i: int|
            0 <= i < c.num_output_records implies (#[trigger] t.new_commitments@[i])@
            == tb.subrange(
            cm_base(*c) + i * c.commitment_size,
            cm_base(*c) + i * c.commitment_size + c.commitment_size,
        ) by {
            assert(i * c.commitment_size + c.commitment_size <= c.num_output_records
                * c.commitment_size) by (nonlinear_arith)
                requires
                    0 <= i < c.num_output_records,
                    c.commitment_size >= 0,
            ;
            assert(i * c.commitment_size >= 0) by (nonlinear_arith)
                requires
                    i >= 0,
                    c.commitment_size >= 0,
            ;
            lemma_take_subrange(
                bytes@,
                total,
                cm_base(*c) + i * c.commitment_size,
                cm_base(*c) + i * c.commitment_size + c.commitment_size,
            );
        }
        lemma_take_subrange(bytes@, total, memo_base(*c), memo_base(*c) + 32);
        lemma_take_subrange(bytes@, total, digest_base(*c), digest_base(*c) + c.digest_size);
        lemma_take_subrange(
            bytes@,
            total,
            inner_base(*c),
            inner_base(*c) + c.inner_circuit_id_size,
        );
        lemma_take_subrange(bytes@, total, proof_base(*c), proof_base(*c) + c.proof_size);
        lemma_take_subrange(
            bytes@,
            total,
            prog_base(*c),
            prog_base(*c) + c.program_commitment_size,
        );
        lemma_take_subrange(
            bytes@,
            total,
            local_base(*c),
            local_base(*c) + c.local_data_root_size,
        );
        lemma_take_subrange(bytes@, total, vb_base(*c), vb_base(*c) + 8);
        assert(tb.subrange(vb_base(*c), vb_base(*c) + 8) =~= seq![b0, b1, b2, b3, b4, b5, b6, b7]);
        assert(tb[net_base(*c)] == t.network);
        assert forall|i: int|
            0 <= i < c.num_input_records implies (#[trigger] t.signatures@[i])@ == tb.subrange(
            sig_base(*c) + i * c.signature_size,
            sig_base(*c) + i * c.signature_size + c.signature_size,
        ) by {
            assert(i * c.signature_size + c.signature_size <= c.num_input_records
                * c.signature_size) by (nonlinear_arith)
                requires
                    0 <= i < c.num_input_records,
                    c.signature_size >= 0,
            ;
            assert(i * c.signature_size >= 0) by (nonlinear_arith)
                requires
                    i >= 0,
                    c.signature_size >= 0,
            ;
            lemma_take_subrange(
                bytes@,
                total,
                sig_base(*c) + i * c.signature_size,
                sig_base(*c) + i * c.signature_size + c.signature_size,
            );
        }
        assert forall|i: int|
            0 <= i < c.num_output_records implies (#[trigger] t.encrypted_records@[i])@
            == tb.subrange(
            enc_base(*c) + i * c.encrypted_record_size,
            enc_base(*c) + i * c.encrypted_record_size + c.encrypted_record_size,
        ) by {
            assert(i * c.encrypted_record_size + c.encrypted_record_size <= c.num_output_records
                * c.encrypted_record_size) by (nonlinear_arith)
                requires
                    0 <= i < c.num_output_records,
                    c.encrypted_record_size >= 0,
            ;
            assert(i * c.encrypted_record_size >= 0) by (nonlinear_arith)
                requires
                    i >= 0,
                    c.encrypted_record_size >= 0,
            ;
            lemma_take_subrange(
                bytes@,
                total,
                enc_base(*c) + i * c.encrypted_record_size,
                enc_base(*c) + i * c.encrypted_record_size + c.encrypted_record_size,
            );
        }
    }
    Ok(t)
}


/// Two byte strings are compared by contents.
#[verifier::loop_isolation(false)]
fn bytes_eq(a: &Vec<u8>, b: &Vec<u8>) -> (r: bool)
    ensures
        r == (a@ == b@),
{
    if a.len() != b.len() {
        return false;
    }
    let mut i: usize = 0;
    while i < a.len()
        invariant
            i <= a@.len(),
            a@.len() == b@.len(),
            forall|k: int| 0 <= k < i ==> a@[k] == b@[k],
        decreases a@.len() - i,
    {
        if a[i] != b[i] {
            return false;
        }
        i += 1;
    }
    proof {
        assert(a@ =~= b@);
    }
    true
}

/// Two chunk lists are compared by contents.
#[verifier::loop_isolation(false)]
fn chunks_eq(a: &Vec<Vec<u8>>, b: &Vec<Vec<u8>>) -> (r: bool)
    ensures
        r == (a.deep_view() == b.deep_view()),
{
    if a.len() != b.len() {
        proof {
            if a.deep_view() == b.deep_view() {
                assert(a.deep_view().len() == b.deep_view().len());
            }
        }
        return false;
    }
    let mut i: usize = 0;
    while i < a.len()
        invariant
            i <= a@.len(),
            a@.len() == b@.len(),
            forall|k: int| 0 <= k < i ==> a@[k]@ == b@[k]@,
        decreases a@.len() - i,
    {
        if !bytes_eq(&a[i], &b[i]) {
            proof {
                assert(a.deep_view()[i as int] == a@[i as int].deep_view());
                assert(b.deep_view()[i as int] == b@[i as int].deep_view());
                assert(a@[i as int].deep_view() == a@[i as int]@);
                assert(b@[i as int].deep_view() == b@[i as int]@);
                if a.deep_view() == b.deep_view() {
                    assert(a.deep_view()[i as int] == b.deep_view()[i as int]);
                }
            }
            return false;
        }
        i += 1;
    }
    proof {
        assert(a.deep_view() =~= b.deep_view());
    }
    true
}

/// What equality of records means: only the semantically load-bearing fields
/// count. The program commitment, the local data root, the signatures and
/// the proof are excluded.
pub open spec fn record_eq(a: Transaction, b: Transaction) -> bool {
    &&& a.network == b.network
    &&& a.ledger_digest@ == b.ledger_digest@
    &&& a.old_serial_numbers.deep_view() == b.old_serial_numbers.deep_view()
    &&& a.new_commitments.deep_view() == b.new_commitments.deep_view()
    &&& a.value_balance == b.value_balance
    &&& a.encrypted_records.deep_view() == b.encrypted_records.deep_view()
    &&& a.memorandum@ == b.memorandum@
    &&& a.inner_circuit_id@ == b.inner_circuit_id@
}

impl PartialEq for Transaction {
    fn eq(&self, other: &Transaction) -> (r: bool) {
        self.network == other.network && bytes_eq(&self.ledger_digest, &other.ledger_digest)
            && chunks_eq(&self.old_serial_numbers, &other.old_serial_numbers) && chunks_eq(
            &self.new_commitments,
            &other.new_commitments,
        ) && self.value_balance == other.value_balance && chunks_eq(
            &self.encrypted_records,
            &other.encrypted_records,
        ) && bytes_eq(&self.memorandum, &other.memorandum) && bytes_eq(
            &self.inner_circuit_id,
            &other.inner_circuit_id,
        )
    }
}

impl vstd::std_specs::cmp::PartialEqSpecImpl for Transaction {
    open spec fn obeys_eq_spec() -> bool {
        true
    }

    open spec fn eq_spec(&self, other: &Transaction) -> bool {
        record_eq(*self, *other)
    }
}

/// Equal little-endian byte strings come from equal values.
proof fn lemma_u64_le_bytes_injective(x: u64, y: u64)
    requires
        u64_le_bytes(x) == u64_le_bytes(y),
    ensures
        x == y,
{
    assert(x & 0xff <= 0xff && (x >> 8) & 0xff <= 0xff && (x >> 16) & 0xff <= 0xff && (x >> 24)
        & 0xff <= 0xff && (x >> 32) & 0xff <= 0xff && (x >> 40) & 0xff <= 0xff && (x >> 48) & 0xff
        <= 0xff && (x >> 56) & 0xff <= 0xff) by (bit_vector);
    assert(y & 0xff <= 0xff && (y >> 8) & 0xff <= 0xff && (y >> 16) & 0xff <= 0xff && (y >> 24)
        & 0xff <= 0xff && (y >> 32) & 0xff <= 0xff && (y >> 40) & 0xff <= 0xff && (y >> 48) & 0xff
        <= 0xff && (y >> 56) & 0xff <= 0xff) by (bit_vector);
    assert(u64_le_bytes(x)[0] == u64_le_bytes(y)[0]);
    assert(u64_le_bytes(x)[1] == u64_le_bytes(y)[1]);
    assert(u64_le_bytes(x)[2] == u64_le_bytes(y)[2]);
    assert(u64_le_bytes(x)[3] == u64_le_bytes(y)[3]);
    assert(u64_le_bytes(x)[4] == u64_le_bytes(y)[4]);
    assert(u64_le_bytes(x)[5] == u64_le_bytes(y)[5]);
    assert(u64_le_bytes(x)[6] == u64_le_bytes(y)[6]);
    assert(u64_le_bytes(x)[7] == u64_le_bytes(y)[7]);
    assert(x == y) by (bit_vector)
        requires
            x & 0xff == y & 0xff,
            (x >> 8) & 0xff == (y >> 8) & 0xff,
            (x >> 16) & 0xff == (y >> 16) & 0xff,
            (x >> 24) & 0xff == (y >> 24) & 0xff,
            (x >> 32) & 0xff == (y >> 32) & 0xff,
            (x >> 40) & 0xff == (y >> 40) & 0xff,
            (x >> 48) & 0xff == (y >> 48) & 0xff,
            (x >> 56) & 0xff == (y >> 56) & 0xff,
    ;
}

/// Serialization is injective, which is the record round trip: two
/// well-formed records with the same wire bytes agree on every field, so
/// deserializing a record's serialization reproduces the record.
pub proof fn lemma_record_round_trip(c: Components, t1: Transaction, t2: Transaction, b: Seq<u8>)
    requires
        well_formed(c, t1),
        well_formed(c, t2),
        serialized_as(c, t1, b),
        serialized_as(c, t2, b),
    ensures
        t1.network == t2.network,
        t1.ledger_digest@ == t2.ledger_digest@,
        t1.old_serial_numbers.deep_view() == t2.old_serial_numbers.deep_view(),
        t1.new_commitments.deep_view() == t2.new_commitments.deep_view(),
        t1.program_commitment@ == t2.program_commitment@,
        t1.local_data_root@ == t2.local_data_root@,
        t1.value_balance == t2.value_balance,
        t1.signatures.deep_view() == t2.signatures.deep_view(),
        t1.encrypted_records.deep_view() == t2.encrypted_records.deep_view(),
        t1.transaction_proof@ == t2.transaction_proof@,
        t1.memorandum@ == t2.memorandum@,
        t1.inner_circuit_id@ == t2.inner_circuit_id@,
        record_eq(t1, t2),
{
    assert forall|i: int|
        0 <= i < c.num_input_records implies t1.old_serial_numbers.deep_view()[i]
        == t2.old_serial_numbers.deep_view()[i] by {
        assert(t1.old_serial_numbers@[i]@ == t2.old_serial_numbers@[i]@);
    }
    assert(t1.old_serial_numbers.deep_view() =~= t2.old_serial_numbers.deep_view());
    assert forall|i: int|
        0 <= i < c.num_output_records implies t1.new_commitments.deep_view()[i]
        == t2.new_commitments.deep_view()[i] by {
        assert(t1.new_commitments@[i]@ == t2.new_commitments@[i]@);
    }
    assert(t1.new_commitments.deep_view() =~= t2.new_commitments.deep_view());
    assert forall|i: int|
        0 <= i < c.num_input_records implies t1.signatures.deep_view()[i]
        == t2.signatures.deep_view()[i] by {
        assert(t1.signatures@[i]@ == t2.signatures@[i]@);
    }
    assert(t1.signatures.deep_view() =~= t2.signatures.deep_view());
    assert forall|i: int|
        0 <= i < c.num_output_records implies t1.encrypted_records.deep_view()[i]
        == t2.encrypted_records.deep_view()[i] by {
        assert(t1.encrypted_records@[i]@ == t2.encrypted_records@[i]@);
    }
    assert(t1.encrypted_records.deep_view() =~= t2.encrypted_records.deep_view());
    let v1 = t1.value_balance;
    let v2 = t2.value_balance;
    let x1 = #[verifier::truncate] (v1 as u64);
    let x2 = #[verifier::truncate] (v2 as u64);
    lemma_u64_le_bytes_injective(x1, x2);
    assert(v1 == v2) by (bit_vector)
        requires
            #[verifier::truncate] (v1 as u64) == #[verifier::truncate] (v2 as u64),
    ;
    assert(t1.network == b[net_base(c)] && t2.network == b[net_base(c)]);
}

/// The record identifier is a function of the serial numbers, the new
/// commitments and the memorandum alone: it is invariant under changes to
/// the proof, the signatures, the program commitment and the local data
/// root.
pub proof fn lemma_transaction_id_ignores_proof_fields(t1: Transaction, t2: Transaction)
    requires
        t1.old_serial_numbers.deep_view() == t2.old_serial_numbers.deep_view(),
        t1.new_commitments.deep_view() == t2.new_commitments.deep_view(),
        t1.memorandum@ == t2.memorandum@,
    ensures
        id_preimage(t1) == id_preimage(t2),
{
}

} // verus!

use zkvm_eval::errors::{RecordField, TransactionError};
use zkvm_eval::transaction::{from_bytes_le, Components, Transaction};

fn small_components() -> Components {
    Components {
        num_input_records: 2,
        num_output_records: 1,
        serial_number_size: 2,
        commitment_size: 3,
        digest_size: 2,
        inner_circuit_id_size: 1,
        proof_size: 2,
        program_commitment_size: 1,
        local_data_root_size: 1,
        signature_size: 2,
        encrypted_record_size: 2,
    }
}

fn sample_transaction(c: &Components) -> Transaction {
    Transaction::new(
        c,
        vec![vec![1, 2], vec![3, 4]],
        vec![vec![5, 6, 7]],
        vec![9; 32],
        vec![10, 11],
        vec![12],
        vec![13, 14],
        vec![15],
        vec![16],
        -5,
        42,
        vec![vec![17, 18], vec![19, 20]],
        vec![vec![21, 22]],
    )
}

fn expected_bytes() -> Vec<u8> {
    let mut e: Vec<u8> = vec![1, 2, 3, 4, 5, 6, 7];
    e.extend(vec![9u8; 32]);
    e.extend(vec![10, 11, 12, 13, 14, 15, 16]);
    // -5 in two's complement, little endian.
    e.extend(vec![0xfb, 0xff, 0xff, 0xff, 0xff, 0xff, 0xff, 0xff]);
    e.push(42);
    e.extend(vec![17, 18, 19, 20, 21, 22]);
    e
}

#[test]
fn serialization_produces_the_exact_wire_bytes() {
    let c = small_components();
    let t = sample_transaction(&c);
    let bytes = t.to_bytes_le(&c);
    assert_eq!(bytes, expected_bytes());
    assert_eq!(t.size(&c), bytes.len());
}

#[test]
fn deserialization_round_trips_every_field() {
    let c = small_components();
    let t = sample_transaction(&c);
    let bytes = t.to_bytes_le(&c);
    let t2 = from_bytes_le(&c, &bytes).unwrap();
    assert!(t2 == t);
    assert_eq!(t2.network_id(), 42);
    assert_eq!(t2.value_balance(), -5);
    assert_eq!(t2.old_serial_numbers(), &vec![vec![1, 2], vec![3, 4]]);
    assert_eq!(t2.new_commitments(), &vec![vec![5, 6, 7]]);
    assert_eq!(t2.memorandum(), &vec![9u8; 32]);
    assert_eq!(t2.ledger_digest(), &vec![10, 11]);
    assert_eq!(t2.inner_circuit_id(), &vec![12]);
    assert_eq!(t2.program_commitment(), &vec![15]);
    assert_eq!(t2.local_data_root(), &vec![16]);
    assert_eq!(t2.signatures(), &vec![vec![17, 18], vec![19, 20]]);
    assert_eq!(t2.encrypted_records(), &vec![vec![21, 22]]);
}

#[test]
fn trailing_bytes_are_ignored() {
    let c = small_components();
    let t = sample_transaction(&c);
    let mut bytes = t.to_bytes_le(&c);
    bytes.push(0xaa);
    let t2 = from_bytes_le(&c, &bytes).unwrap();
    assert!(t2 == t);
}

#[test]
fn short_input_names_the_missing_field() {
    let c = small_components();
    let t = sample_transaction(&c);
    let bytes = t.to_bytes_le(&c);
    let r = from_bytes_le(&c, &bytes[0..3].to_vec());
    assert_eq!(
        r.unwrap_err(),
        TransactionError::UnexpectedEnd(RecordField::SerialNumber)
    );
    let r = from_bytes_le(&c, &bytes[0..5].to_vec());
    assert_eq!(
        r.unwrap_err(),
        TransactionError::UnexpectedEnd(RecordField::Commitment)
    );
    let r = from_bytes_le(&c, &bytes[0..17].to_vec());
    assert_eq!(
        r.unwrap_err(),
        TransactionError::UnexpectedEnd(RecordField::Memorandum)
    );
    let r = from_bytes_le(&c, &bytes[0..bytes.len() - 1].to_vec());
    assert_eq!(
        r.unwrap_err(),
        TransactionError::UnexpectedEnd(RecordField::EncryptedRecord)
    );
}

#[test]
fn equality_ignores_the_proof_carrying_fields() {
    let c = small_components();
    let t = sample_transaction(&c);
    let mut t2 = sample_transaction(&c);
    t2.transaction_proof = vec![99, 98];
    t2.signatures = vec![vec![0, 0], vec![0, 0]];
    t2.program_commitment = vec![77];
    t2.local_data_root = vec![88];
    assert!(t2 == t);
    let mut t3 = sample_transaction(&c);
    t3.memorandum = vec![8; 32];
    assert!(t3 != t);
}

#[test]
fn transaction_id_is_deterministic_and_ignores_proof_fields() {
    let c = small_components();
    let t = sample_transaction(&c);
    let id1 = t.transaction_id().unwrap();
    let id2 = t.transaction_id().unwrap();
    assert_eq!(id1, id2);
    assert_eq!(id1.len(), 32);
    let mut t2 = sample_transaction(&c);
    t2.transaction_proof = vec![99, 98];
    t2.signatures = vec![vec![0, 0], vec![0, 0]];
    t2.program_commitment = vec![77];
    t2.local_data_root = vec![88];
    assert_eq!(t2.transaction_id().unwrap(), id1);
    let mut t3 = sample_transaction(&c);
    t3.memorandum = vec![8; 32];
    assert_ne!(t3.transaction_id().unwrap(), id1);
}

#[test]
fn transaction_id_actually_hashes_its_preimage() {
    // With no records the preimage is the 32-byte memorandum itself, so an
    // identifier equal to the memorandum would mean the hash did nothing.
    let c = Components {
        num_input_records: 0,
        num_output_records: 0,
        serial_number_size: 0,
        commitment_size: 0,
        digest_size: 1,
        inner_circuit_id_size: 1,
        proof_size: 1,
        program_commitment_size: 1,
        local_data_root_size: 1,
        signature_size: 0,
        encrypted_record_size: 0,
    };
    let t = Transaction::new(
        &c,
        vec![],
        vec![],
        vec![0; 32],
        vec![1],
        vec![2],
        vec![3],
        vec![4],
        vec![5],
        0,
        7,
        vec![],
        vec![],
    );
    let id = t.transaction_id().unwrap();
    assert_eq!(id.len(), 32);
    assert_ne!(id, vec![0u8; 32]);
}

#[test]
fn empty_record_serializes_scalar_fields_only() {
    let c = Components {
        num_input_records: 0,
        num_output_records: 0,
        serial_number_size: 0,
        commitment_size: 0,
        digest_size: 1,
        inner_circuit_id_size: 1,
        proof_size: 1,
        program_commitment_size: 1,
        local_data_root_size: 1,
        signature_size: 0,
        encrypted_record_size: 0,
    };
    let t = Transaction::new(
        &c,
        vec![],
        vec![],
        vec![0; 32],
        vec![1],
        vec![2],
        vec![3],
        vec![4],
        vec![5],
        256,
        7,
        vec![],
        vec![],
    );
    let bytes = t.to_bytes_le(&c);
    let mut expected: Vec<u8> = vec![0; 32];
    expected.extend(vec![1, 2, 3, 4, 5]);
    expected.extend(vec![0, 1, 0, 0, 0, 0, 0, 0]);
    expected.push(7);
    assert_eq!(bytes, expected);
    let t2 = from_bytes_le(&c, &bytes).unwrap();
    assert!(t2 == t);
    assert_eq!(t2.value_balance(), 256);
}

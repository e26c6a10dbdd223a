use lib_storage::erasure::{ErasureCoding, ErasureError, GaloisField};

#[test]
fn test_galois_field_operations() {
    let field = GaloisField::new();

    // Test multiplication
    assert_eq!(field.multiply(3, 5), 15);
    assert_eq!(field.multiply(0, 5), 0);

    // Test division
    assert_eq!(field.divide(15, 3).unwrap(), 5);
    assert_eq!(field.divide(0, 5).unwrap(), 0);

    // Test inverse
    let a = 7;
    let inv_a = field.inverse(a).unwrap();
    assert_eq!(field.multiply(a, inv_a), 1);
}

#[test]
fn test_erasure_coding_encode_decode() {
    let ec = ErasureCoding::new(3, 2).unwrap();
    let data = b"Hello, Reed-Solomon!";

    // Encode
    let shards = ec.encode(data).unwrap();
    assert_eq!(shards.data_shards.len(), 3);
    assert_eq!(shards.parity_shards.len(), 2);

    // Decode with all shards
    let all_indices = vec![0, 1, 2, 3, 4];
    let decoded = ec.decode(&shards, &all_indices).unwrap();
    assert_eq!(decoded, data);

    // Decode with missing data shard
    let partial_indices = vec![0, 1, 3, 4]; // Missing data shard 2
    let decoded_partial = ec.decode(&shards, &partial_indices).unwrap();
    assert_eq!(decoded_partial, data);
}

#[test]
fn test_erasure_coding_reconstruction_info() {
    let ec = ErasureCoding::new(4, 2).unwrap();

    let available = vec![0, 1, 2, 3];
    let info = ec.get_reconstruction_info(&available);
    assert!(info.can_reconstruct);
    assert_eq!(info.missing_shards, vec![4, 5]);

    let insufficient = vec![0, 1, 2];
    let info_insufficient = ec.get_reconstruction_info(&insufficient);
    assert!(!info_insufficient.can_reconstruct);
}

#[test]
fn test_integrity_verification() {
    let ec = ErasureCoding::new(3, 2).unwrap();
    let data = b"Test data for integrity check";

    let shards = ec.encode(data).unwrap();
    assert!(ec.verify_integrity(data, &shards).unwrap());

    // Corrupt a shard
    let mut corrupted_shards = shards.clone();
    corrupted_shards.data_shards[0][0] ^= 1; // Flip a bit
    assert!(!ec.verify_integrity(data, &corrupted_shards).unwrap());
}

#[test]
fn field_power_add_and_errors() {
    let field = GaloisField::new();
    assert_eq!(field.power(2, 8), 0x1D);
    assert_eq!(field.power(0, 0), 0);
    assert_eq!(field.power(5, 0), 1);
    assert_eq!(field.add(0x53, 0xCA), 0x99);
    assert_eq!(field.subtract(0x53, 0xCA), 0x99);
    assert_eq!(field.multiply(0x80, 2), 0x1D);
    assert_eq!(field.divide(1, 0), Err(ErasureError::DivisionByZero));
    assert_eq!(field.inverse(0), Err(ErasureError::InverseOfZero));
    for a in 1..=255u8 {
        let inv = field.inverse(a).unwrap();
        assert_eq!(field.multiply(a, inv), 1);
        for b in [1u8, 2, 77, 255] {
            assert_eq!(field.divide(field.multiply(a, b), b).unwrap(), a);
        }
    }
}

#[test]
fn coding_configuration_errors() {
    assert_eq!(ErasureCoding::new(0, 2).err().unwrap(), ErasureError::ZeroShards);
    assert_eq!(ErasureCoding::new(2, 0).err().unwrap(), ErasureError::ZeroShards);
    assert_eq!(ErasureCoding::new(200, 56).err().unwrap(), ErasureError::TooManyShards);
    assert!(ErasureCoding::new(200, 55).is_ok());
    assert_eq!(ErasureCoding::default().get_config(), (4, 2));
}

#[test]
fn encode_layout_and_empty_data() {
    let ec = ErasureCoding::new(4, 2).unwrap();
    assert_eq!(ec.encode(&[]).err().unwrap(), ErasureError::EmptyData);
    let shards = ec.encode(&[1, 2, 3, 4, 5]).unwrap();
    assert_eq!(shards.shard_size, 2);
    assert_eq!(shards.original_size, 5);
    assert_eq!(shards.data_shards, vec![vec![1, 2], vec![3, 4], vec![5, 0], vec![0, 0]]);
    // The first parity row is all ones: the xor of the data shards.
    assert_eq!(shards.parity_shards[0], vec![1 ^ 3 ^ 5, 2 ^ 4]);
}

#[test]
fn decode_errors() {
    let ec = ErasureCoding::new(3, 2).unwrap();
    let shards = ec.encode(b"abcdef").unwrap();
    assert_eq!(ec.decode(&shards, &[0, 1]), Err(ErasureError::InsufficientShards));
    assert_eq!(ec.decode(&shards, &[0, 9, 1, 2]), Err(ErasureError::NotEnoughValidShards));
    assert_eq!(ec.decode(&shards, &[1, 1, 2]), Err(ErasureError::NotInvertible));
}

#[test]
fn decode_from_every_choice_of_three() {
    let ec = ErasureCoding::new(3, 2).unwrap();
    let data = b"Reed-Solomon over GF(2^8)";
    let shards = ec.encode(data).unwrap();
    for a in 0..5usize {
        for b in (a + 1)..5 {
            for c in (b + 1)..5 {
                match ec.decode(&shards, &[a, b, c]) {
                    Ok(v) => assert_eq!(v, data.to_vec()),
                    Err(e) => assert_eq!(e, ErasureError::NotInvertible),
                }
            }
        }
    }
}

#[test]
fn reconstruction_needs_distinct_valid_shards() {
    let ec = ErasureCoding::new(3, 2).unwrap();
    assert!(ec.can_reconstruct(&[0, 1, 2]));
    assert!(!ec.can_reconstruct(&[0, 0, 0]));
    assert!(!ec.can_reconstruct(&[0, 1, 7]));
    assert!(ec.can_reconstruct(&[4, 0, 4, 2]));
    assert!(!ec.get_reconstruction_info(&[1, 1, 1, 1]).can_reconstruct);
}

#[test]
fn integrity_compares_the_shards_only() {
    let ec = ErasureCoding::new(2, 1).unwrap();
    let shards = ec.encode(&[1, 2, 3]).unwrap();
    assert!(ec.verify_integrity(&[1, 2, 3], &shards).unwrap());
    // the zero padding makes the shards of [1, 2, 3, 0] those of [1, 2, 3]
    assert!(ec.verify_integrity(&[1, 2, 3, 0], &shards).unwrap());
    assert!(!ec.verify_integrity(&[1, 2, 3, 1], &shards).unwrap());
    assert!(!ec.verify_integrity(&[1, 2, 3, 0, 0], &shards).unwrap());
}

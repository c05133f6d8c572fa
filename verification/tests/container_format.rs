//! The container format end to end: codecs, redundancy blocks, wrapping
//! and recovery under corruption.

use dataragon::checksum::paranoid_checksum;
use dataragon::codec::{
    deserialize_header, deserialize_secretbox, deserialize_stored_data, serialize_header,
    serialize_secretbox, serialize_stored_data,
};
use dataragon::damage::{copy_times, rs_ecc_len, DamageLevel};
use dataragon::ecc::{copy_n_times, create_ecc, encode_reed_solomon, recover_reed_solomon};
use dataragon::error::ErrorKind;
use dataragon::objects::{CryptoSecretbox, Header, StoredData};
use dataragon::serialization::{
    add_ecc_and_crc, insert_header_in_data_crc, try_to_extract_header, try_to_read_stored_data,
    try_to_recover_data_with_ecc,
};
use dataragon::varint::{decode_varint, encode_varint};
use rand::seq::IndexedRandom;
use sha2::Digest;

#[test]
fn varint_round_trips_across_the_range() {
    for n in [0u64, 1, 5, 127, 128, 300, 16383, 16384, 0xffff_ffff, u64::MAX] {
        let mut out: Vec<u8> = Vec::new();
        encode_varint(&mut out, n);
        assert!(out.len() <= 10);
        let (value, used) = decode_varint(out.as_slice(), 0).unwrap();
        assert_eq!(value, n);
        assert_eq!(used, out.len());
    }
    assert_eq!(decode_varint(&[0x80], 0), None);
    assert_eq!(decode_varint(&[], 0), None);
    assert_eq!(decode_varint(&[0x07], 0), Some((7, 1)));
    let mut two = Vec::new();
    encode_varint(&mut two, 300);
    assert_eq!(two, vec![0xac, 0x02]);
}

#[test]
fn header_codec_round_trips() {
    let h = Header {
        version: 0,
        encryption_algorithm: 0,
        data_len: 10,
        crc_algorithm: 0,
        crc0: 0xab,
        crc1: 0xcd,
    };
    let bytes = serialize_header(&h);
    assert_eq!(bytes, vec![0, 0, 10, 0, 0xab, 0xcd]);
    assert_eq!(deserialize_header(bytes.as_slice()), Some(h));
    assert_eq!(deserialize_header(&[0, 0, 10, 0, 0xab]), None);
}

#[test]
fn stored_data_codec_round_trips() {
    let sd = StoredData {
        data: vec![
            dataragon::objects::ECCData { ecc_algorithm: 1, ecc: vec![7, 8, 9] },
            dataragon::objects::ECCData { ecc_algorithm: 0, ecc: vec![1, 2] },
        ],
    };
    let bytes = serialize_stored_data(&sd);
    assert_eq!(bytes, vec![2, 1, 3, 7, 8, 9, 0, 2, 1, 2]);
    let back = deserialize_stored_data(bytes.as_slice()).unwrap();
    assert_eq!(back.data.len(), 2);
    assert_eq!(back.data[0].ecc_algorithm, 1);
    assert_eq!(back.data[0].ecc, vec![7, 8, 9]);
    assert_eq!(back.data[1].ecc_algorithm, 0);
    assert_eq!(back.data[1].ecc, vec![1, 2]);
    assert!(deserialize_stored_data(&[5, 0]).is_none());
}

#[test]
fn secretbox_codec_round_trips() {
    let sb = CryptoSecretbox { ciphertext: vec![1, 2, 3], tag: vec![9; 16] };
    let bytes = serialize_secretbox(&sb);
    let back = deserialize_secretbox(bytes.as_slice()).unwrap();
    assert_eq!(back.ciphertext, vec![1, 2, 3]);
    assert_eq!(back.tag, vec![9; 16]);
    assert!(deserialize_secretbox(&[3, 1, 2]).is_none());
}

#[test]
fn paranoid_checksum_chains_sha512_and_crc16() {
    let expected =
        crc::Crc::<u16>::new(&crc::CRC_16_USB).checksum(sha2::Sha512::digest(b"abc").as_slice());
    assert_eq!(paranoid_checksum(b"abc"), expected);
    let plain_crc = crc::Crc::<u16>::new(&crc::CRC_16_USB).checksum(b"abc");
    assert_ne!(paranoid_checksum(b"abc"), plain_crc);
    assert_ne!(paranoid_checksum(b"abc"), paranoid_checksum(b"abd"));
}

#[test]
fn copy_n_times_repeats_the_payload() {
    let blocks = copy_n_times(b"xyz", 3);
    assert_eq!(blocks.len(), 3);
    for b in &blocks {
        assert_eq!(b.ecc_algorithm, 0);
        assert_eq!(b.ecc, b"xyz".to_vec());
    }
}

#[test]
fn damage_level_policy_matches_the_rules() {
    // 10 bytes at level 0.5: five whole recoverable bytes, traded down to
    // four copies plus a double-length parity block.
    let half = DamageLevel::from_halves(1);
    assert_eq!(copy_times(10, &half), 4);
    assert_eq!(rs_ecc_len(10, &half), 20);
    // 11 bytes at level 0.5: fractional part present, no trade.
    assert_eq!(copy_times(11, &half), 5);
    assert_eq!(rs_ecc_len(11, &half), 11);
    // Level zero keeps only the baseline copy.
    let zero = DamageLevel::new(0, 1);
    assert_eq!(copy_times(10, &zero), 0);
    assert_eq!(rs_ecc_len(10, &zero), 0);
}

#[test]
fn create_ecc_emits_parity_copies_and_baseline() {
    let data = b"1234567890";
    let blocks = create_ecc(data, &DamageLevel::from_halves(1));
    assert_eq!(blocks.len(), 6);
    assert_eq!(blocks[0].ecc_algorithm, 1);
    assert_eq!(blocks[0].ecc.len(), 20);
    for b in &blocks[1..] {
        assert_eq!(b.ecc_algorithm, 0);
        assert_eq!(b.ecc, data.to_vec());
    }
    // The parity block is skipped where it would exceed the codeword
    // limit: 200 bytes at level 0.5 ask for 200 parity bytes.
    let long = vec![7u8; 200];
    let blocks = create_ecc(long.as_slice(), &DamageLevel::from_halves(1));
    assert!(blocks.iter().all(|b| b.ecc_algorithm == 0));
}

#[test]
fn insert_header_interleaves_and_pads_with_headers() {
    let stream = insert_header_in_data_crc(&[1, 2, 3], &[9, 9], 0);
    assert_eq!(stream, vec![2, 9, 9, 2, 1, 2, 2, 9, 9, 1, 3]);
    let stream = insert_header_in_data_crc(&[], &[9, 9], 1);
    assert_eq!(stream, vec![2, 9, 9, 2, 9, 9, 2, 9, 9]);
}

#[test]
fn extract_header_elects_the_majority_header() {
    let data = b"1234567890";
    let encoded = add_ecc_and_crc(data, &DamageLevel::from_halves(2)).unwrap();
    let (header, payload) = try_to_extract_header(encoded.as_slice()).unwrap();
    assert_eq!(header.version, 0);
    assert_eq!(header.data_len, 10);
    let expected = paranoid_checksum(data).to_be_bytes();
    assert_eq!([header.crc0, header.crc1], expected);
    let pack = deserialize_stored_data(payload.as_slice()).unwrap();
    assert!(pack.data.iter().any(|b| b.ecc_algorithm == 0 && b.ecc == data.to_vec()));
}

#[test]
fn container_round_trips_for_all_small_payloads_and_levels() {
    for len in 1usize..=20 {
        let payload: Vec<u8> = (0..len as u8).map(|b| b.wrapping_mul(37).wrapping_add(11)).collect();
        for halves in 1u64..=17 {
            let lvl = DamageLevel::from_halves(halves);
            let encoded = add_ecc_and_crc(payload.as_slice(), &lvl).unwrap();
            let recovered = try_to_read_stored_data(encoded.as_slice()).unwrap();
            assert_eq!(recovered, payload);
        }
    }
    // At level zero the stream keeps only the baseline copy; short
    // payloads still round-trip as long as no pack chunk collides with
    // the header length.
    for len in [1usize, 2, 5, 7, 12, 20] {
        let payload: Vec<u8> = (0..len as u8).collect();
        let lvl = DamageLevel::new(0, 1);
        let encoded = add_ecc_and_crc(payload.as_slice(), &lvl).unwrap();
        assert_eq!(try_to_read_stored_data(encoded.as_slice()).unwrap(), payload);
    }
}

#[test]
fn container_round_trips_for_large_payloads() {
    // Payloads past 127 bytes take a seven-byte header; the recovery walk
    // accepts any record that parses as a valid header, so they round-trip
    // like the short ones.
    for len in [128usize, 200, 300, 1000] {
        let payload: Vec<u8> = (0..len).map(|b| (b % 251) as u8).collect();
        for halves in [0u64, 1, 2, 5] {
            let lvl = DamageLevel::from_halves(halves);
            if let Ok(encoded) = add_ecc_and_crc(payload.as_slice(), &lvl) {
                let recovered = try_to_read_stored_data(encoded.as_slice()).unwrap();
                assert_eq!(recovered, payload);
            }
        }
    }
    // The transported secret box of a large secret takes the same path;
    // a fractional level keeps its copy count inside the pack budget.
    let secret = vec![0xa5u8; 200];
    let lvl = DamageLevel::new(1, 100);
    let key = vec![3u8; 32];
    let boxed = dataragon::shamir::aead_wrap(key.as_slice(), secret.as_slice()).unwrap();
    let box_bytes = serialize_secretbox(&boxed);
    let wrapped = add_ecc_and_crc(box_bytes.as_slice(), &lvl).unwrap();
    let recovered = try_to_read_stored_data(wrapped.as_slice()).unwrap();
    let back = deserialize_secretbox(recovered.as_slice()).unwrap();
    assert_eq!(back.ciphertext, boxed.ciphertext);
    assert_eq!(back.tag, boxed.tag);
    assert_eq!(
        dataragon::shamir::aead_unwrap(key.as_slice(), &back).unwrap(),
        secret
    );
}

#[test]
fn recovery_is_deterministic_across_runs() {
    let data = b"determinism";
    let encoded = add_ecc_and_crc(data, &DamageLevel::from_halves(3)).unwrap();
    let first = try_to_read_stored_data(encoded.as_slice()).unwrap();
    let second = try_to_read_stored_data(encoded.as_slice()).unwrap();
    assert_eq!(first, second);
    assert_eq!(first, data.to_vec());
}

#[test]
fn combine_works_with_corrupted_data_from_the_end() {
    let data = "1234567890".as_bytes();
    // only works until 18 because of ECC size (and the 255-byte codeword
    // limit in the end)
    for allowed_data_damage_level_step in 1..18 {
        let allowed_data_damage_level = allowed_data_damage_level_step as f32 * 0.5;

        // Encode data
        let lvl = DamageLevel::from_halves(allowed_data_damage_level_step as u64);
        let encoded = add_ecc_and_crc(data, &lvl).unwrap();

        // Simulate some transmission errors
        let mut corrupted = encoded.clone();

        let corrupt_bytes = (data.len() as f32 * allowed_data_damage_level - 1.0) as usize;
        for i in encoded.len() - corrupt_bytes..encoded.len() {
            corrupted[i] = 1;
        }

        // Try to recover data
        let recovered = try_to_read_stored_data(corrupted.as_slice());
        let result = recovered.unwrap();

        assert_eq!(data, result.as_slice());
    }
}

#[test]
fn recover_survives_tail_zeroing_at_level_two_and_a_half() {
    let data = "1234567890".as_bytes();
    let encoded = add_ecc_and_crc(data, &DamageLevel::from_halves(5)).unwrap();
    let mut corrupted = encoded.clone();
    let n = corrupted.len();
    corrupted[n - 2] = 0;
    corrupted[n - 1] = 0;
    assert_eq!(try_to_read_stored_data(corrupted.as_slice()).unwrap(), data.to_vec());
}

#[test]
fn recover_survives_header_checksum_and_chunk_corruption() {
    // Level 8.5: the first header copy's checksum bytes sit at offsets 5
    // and 6; offset 28 holds a parity content byte of the first chunks.
    let data = "1234567890".as_bytes();
    let encoded = add_ecc_and_crc(data, &DamageLevel::from_halves(17)).unwrap();
    let mut corrupted = encoded.clone();
    corrupted[5] = 0;
    corrupted[6] = 0;
    corrupted[28] = 0;
    assert_eq!(try_to_read_stored_data(corrupted.as_slice()).unwrap(), data.to_vec());
}

#[test]
fn recover_survives_zeroing_the_trailing_header_copies() {
    // At level 2.5 the stream ends in dozens of bare header copies;
    // zeroing a hundred tail bytes erases only out-voted replicas.
    let data = b"1234567890";
    let encoded = add_ecc_and_crc(data, &DamageLevel::from_halves(5)).unwrap();
    let mut corrupted = encoded.clone();
    let n = corrupted.len();
    for i in n - 100..n {
        corrupted[i] = 0;
    }
    assert_eq!(try_to_read_stored_data(corrupted.as_slice()).unwrap(), data.to_vec());
}

#[test]
fn recover_survives_zeroing_the_first_three_stream_bytes() {
    // The damaged stream prefix turns the first header copy into junk
    // records; a later replica still validates, and dropping the junk
    // segments resynchronizes the pack.
    let data = b"abc";
    let encoded = add_ecc_and_crc(data, &DamageLevel::new(1, 1)).unwrap();
    let mut corrupted = encoded.clone();
    corrupted[0] = 0;
    corrupted[1] = 0;
    corrupted[2] = 0;
    assert_eq!(try_to_read_stored_data(corrupted.as_slice()).unwrap(), data.to_vec());
}

#[test]
fn recover_survives_rewriting_the_first_header_checksum() {
    // The first header copy's checksum bytes sit at stream offsets five
    // and six; the untouched copies out-vote the rewritten one.
    for halves in 1u64..=17 {
        let data = b"1234567890";
        let encoded = add_ecc_and_crc(data, &DamageLevel::from_halves(halves)).unwrap();
        let mut corrupted = encoded.clone();
        corrupted[5] = corrupted[5].wrapping_add(1);
        corrupted[6] = 0;
        assert_eq!(try_to_read_stored_data(corrupted.as_slice()).unwrap(), data.to_vec());
    }
}

#[test]
fn recover_never_returns_a_wrong_payload() {
    // Wreck every copy of the payload: recovery must error, not guess.
    let data = b"abc";
    let encoded = add_ecc_and_crc(data, &DamageLevel::new(0, 1)).unwrap();
    let mut corrupted = encoded.clone();
    let n = corrupted.len();
    // The single baseline copy sits in the payload chunks at the stream's
    // tail half; zero everything after the first header record.
    for i in 7..n {
        corrupted[i] = 0;
    }
    match try_to_read_stored_data(corrupted.as_slice()) {
        Ok(v) => panic!("recovered {:?} from a destroyed container", v),
        Err(e) => {
            assert!(
                e == ErrorKind::ECCRecoveryError || e == ErrorKind::StoredDataDeserializationError
            );
        },
    }
}

#[test]
fn wrap_rejects_empty_and_oversized_payloads() {
    assert_eq!(add_ecc_and_crc(&[], &DamageLevel::from_halves(2)), Err(ErrorKind::EmptyData));
    let big = vec![1u8; 17000];
    assert_eq!(
        add_ecc_and_crc(big.as_slice(), &DamageLevel::new(0, 1)),
        Err(ErrorKind::StoredDataSerializationError)
    );
    // A modest payload at a huge level overflows the pack budget too.
    assert_eq!(
        add_ecc_and_crc(b"1234567890", &DamageLevel::new(10000, 1)),
        Err(ErrorKind::StoredDataSerializationError)
    );
}

#[test]
fn corrupted_length_recovery_sweeps_window_lengths() {
    // With the stored length corrupted to zero, recovery slides windows of
    // every length over the copy blocks and returns the checksummed one.
    let payload = b"window";
    let crc = paranoid_checksum(payload).to_be_bytes();
    let header = Header {
        version: 0,
        encryption_algorithm: 0,
        data_len: 0,
        crc_algorithm: 0,
        crc0: crc[0],
        crc1: crc[1],
    };
    let mut embedded = b"xx".to_vec();
    embedded.extend_from_slice(payload);
    embedded.push(b'y');
    let blocks = vec![dataragon::objects::ECCData { ecc_algorithm: 0, ecc: embedded }];
    let found = try_to_recover_data_with_ecc(&[], &header, &blocks).unwrap();
    assert_eq!(found, payload.to_vec());
}

#[test]
fn corrupted_length_recovery_corrects_against_zero_filled_codeword() {
    // With the stored length corrupted to zero, the parity block is
    // corrected against a zero-filled data part and the leading zeros are
    // stripped off the result.
    let ecc_len = 8usize;
    let mut data_part = vec![0u8; 255 - ecc_len - 3];
    data_part.extend_from_slice(&[9, 9, 9]);
    let codeword = encode_reed_solomon(data_part.as_slice(), ecc_len);
    let parity = codeword[data_part.len()..].to_vec();
    let crc = paranoid_checksum(&[9, 9, 9]).to_be_bytes();
    let header = Header {
        version: 0,
        encryption_algorithm: 0,
        data_len: 0,
        crc_algorithm: 0,
        crc0: crc[0],
        crc1: crc[1],
    };
    let blocks = vec![dataragon::objects::ECCData { ecc_algorithm: 1, ecc: parity }];
    let found = try_to_recover_data_with_ecc(&[], &header, &blocks).unwrap();
    assert_eq!(found, vec![9, 9, 9]);
}

#[test]
fn recover_skips_oversized_parity_blocks() {
    // A crafted container can declare a parity block longer than the
    // decoder's safe range; recovery must skip it and answer, not die.
    let crc = paranoid_checksum(&[9]).to_be_bytes();
    let header = Header {
        version: 0,
        encryption_algorithm: 0,
        data_len: 1,
        crc_algorithm: 0,
        crc0: !crc[0],
        crc1: !crc[1],
    };
    let hbytes = serialize_header(&header);
    let sd = StoredData {
        data: vec![
            dataragon::objects::ECCData { ecc_algorithm: 0, ecc: vec![7] },
            dataragon::objects::ECCData { ecc_algorithm: 1, ecc: vec![0; 254] },
        ],
    };
    let pack = serialize_stored_data(&sd);
    let stream = insert_header_in_data_crc(pack.as_slice(), hbytes.as_slice(), 0);
    assert_eq!(
        try_to_read_stored_data(stream.as_slice()),
        Err(ErrorKind::ECCRecoveryError)
    );
}

#[test]
fn recover_rejects_an_empty_stream() {
    assert_eq!(
        try_to_read_stored_data(&[]),
        Err(ErrorKind::StoredDataDeserializationError)
    );
}

#[test]
fn ecc_ecc_works_with_sequential_data_and_ecc_corruption() {
    let data = "1234567890".as_bytes();
    for allowed_data_damage_level_step in 1..=5 {
        let allowed_data_damage_level = allowed_data_damage_level_step as f32 * 0.5;
        let ecc_len = data.len() * (2 as f32 * allowed_data_damage_level) as usize;

        // Encode data
        let encoded = encode_reed_solomon(data, ecc_len);

        // Simulate some transmission errors
        let mut corrupted = encoded.clone();
        let corrupt_bytes = (data.len() as f32 * allowed_data_damage_level) as usize;
        for i in 0..corrupt_bytes {
            corrupted[i] = 0x0;
        }

        // Try to recover data
        let recovered = recover_reed_solomon(corrupted.as_slice(), ecc_len).unwrap();

        assert_eq!(data, recovered.as_slice());
    }
}

#[test]
fn ecc_works_with_errors_in_any_sequential_data_parts() {
    let data = "1234567890".as_bytes();

    let allowed_data_damage_level = 0.5;
    let ecc_len = data.len() * (2 as f32 * allowed_data_damage_level) as usize;

    // Encode data
    let encoded = encode_reed_solomon(data, ecc_len);

    let corrupt_bytes = (data.len() as f32 * allowed_data_damage_level) as usize;

    let sl: Vec<_> = (0..data.len()).collect();
    for idx in sl.windows(corrupt_bytes) {
        // Simulate some transmission errors
        let mut corrupted = encoded.clone();
        for i in *idx.first().unwrap()..*idx.last().unwrap() {
            corrupted[i] = 0x0;
        }

        // Try to recover data
        let recovered = recover_reed_solomon(corrupted.as_slice(), ecc_len).unwrap();

        assert_eq!(data, recovered.as_slice());
    }
}

#[test]
fn ecc_works_with_errors_in_random_data_parts() {
    let data = "1234567890".as_bytes();

    let allowed_data_damage_level = 0.5;
    let ecc_len = data.len() * (2 as f32 * allowed_data_damage_level) as usize;

    // Encode data
    let encoded = encode_reed_solomon(data, ecc_len);

    let corrupt_bytes = (data.len() as f32 * allowed_data_damage_level) as usize;

    for _ in 0..100 {
        let mut rng = rand::rng();
        let sl: Vec<_> = (0..data.len()).collect();

        // Simulate some transmission errors
        let mut corrupted = encoded.clone();
        for i in sl.choose_multiple(&mut rng, corrupt_bytes) {
            corrupted[*i] = 0x0;
        }
        // Try to recover data
        let recovered = recover_reed_solomon(corrupted.as_slice(), ecc_len).unwrap();

        assert_eq!(data, recovered.as_slice());
    }
}

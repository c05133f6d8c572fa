//! Splitting a secret into wrapped shares and combining them back,
//! together with the sealing primitives they build on.

use dataragon::damage::DamageLevel;
use dataragon::dataragon::{combine, split};
use dataragon::ecc::{encode_with_ecc, recover_with_ecc};
use dataragon::shamir::{aead_unwrap, aead_wrap, combine_data_shares, restore_data_shared};
use itertools::Itertools;
use shamirsecretsharing::hazmat::{combine_keyshares, create_keyshares};

#[test]
fn ecc_works_with_sequential_data_and_ecc_corruption() {
    let data = "abc".as_bytes();
    for allowed_data_damage_level_step in 1..=5 {
        let allowed_data_damage_level = allowed_data_damage_level_step as f32 * 0.5;
        let ecc_len = data.len() * (2 as f32 * allowed_data_damage_level) as usize;

        // Encode data
        let encoded = encode_with_ecc(data, ecc_len);

        // Simulate some transmission errors
        let mut corrupted = encoded.clone();
        let corrupt_bytes = (data.len() as f32 * allowed_data_damage_level) as usize;
        for i in 0..corrupt_bytes {
            corrupted[i] = 0x0;
        }

        // Try to recover data
        let recovered = recover_with_ecc(corrupted.as_slice(), ecc_len).unwrap();

        assert_eq!(data, recovered.as_slice());
    }
}

#[test]
fn sss_sharing_and_combining_works() {
    let text = "abc".as_bytes();
    let count = 10;
    let threshold = 5;

    let (boxed, keyshares) = {
        // Generate an ephemeral key
        let ref key = rand::random::<[u8; 32]>();

        // Encrypt the text using the key
        let boxed = aead_wrap(key, text).unwrap();

        // Share the key using `create_keyshares`
        let keyshares = create_keyshares(key, count, threshold).unwrap();

        (boxed, keyshares)
    };

    let combined = {
        // Recover the key using `combine_keyshares`
        let key = combine_keyshares(&keyshares).unwrap();

        // Decrypt the secret message using the restored key
        aead_unwrap(&key, &boxed).unwrap()
    };

    assert_eq!(combined, text);
}

#[test]
fn split_and_combine_works_with_any_n_and_more_of_m_shards() {
    let shared_secret = "supersecret";
    for m in 1..=5 {
        for n in 1..=m {
            let lvl = DamageLevel::new(1, 1);
            let (shards, secretbox) = split(shared_secret.as_bytes(), &lvl, m, n).unwrap();
            for i in 1..=n {
                for shards_by_n in shards.as_slice().to_vec().into_iter().combinations(i as usize)
                {
                    let result = combine(shards_by_n, &secretbox);
                    assert_eq!(result.is_ok(), i >= n);
                    if result.is_ok() {
                        let combined_string = String::from_utf8(result.unwrap()).unwrap();
                        assert_eq!(shared_secret, combined_string);
                    }
                }
            }
        }
    }
}

#[test]
fn any_three_of_five_shares_recover_the_secret() {
    let secret = "supersecret";
    let lvl = DamageLevel::new(1, 1);
    let (shares, secret_box) = split(secret.as_bytes(), &lvl, 5, 3).unwrap();
    assert_eq!(shares.len(), 5);
    for subset in shares.as_slice().to_vec().into_iter().combinations(3) {
        let result = combine(subset.clone(), &secret_box).unwrap();
        assert_eq!(result, secret.as_bytes().to_vec());
        // The order the shares arrive in does not matter.
        let mut reversed = subset;
        reversed.reverse();
        let result = combine(reversed, &secret_box).unwrap();
        assert_eq!(result, secret.as_bytes().to_vec());
    }
}

#[test]
fn four_tail_corrupted_shares_of_ten_still_combine() {
    let secret: Vec<u8> = rand::random::<[u8; 32]>().to_vec();
    let lvl = DamageLevel::new(1, 1);
    let (shares, secret_box) = split(secret.as_slice(), &lvl, 10, 4).unwrap();
    assert_eq!(shares.len(), 10);
    let mut picked: Vec<Vec<u8>> = shares[3..7].to_vec();
    for share in picked.iter_mut() {
        let n = share.len();
        share[n - 3] = 0;
        share[n - 2] = 0;
        share[n - 1] = 0;
    }
    let result = combine(picked, &secret_box).unwrap();
    assert_eq!(result, secret);
}

#[test]
fn two_of_two_shares_round_trip_and_one_alone_fails() {
    let lvl = DamageLevel::new(0, 1);
    let (shares, secret_box) = split(b"x", &lvl, 2, 2).unwrap();
    assert_eq!(shares.len(), 2);
    let result = combine(shares.clone(), &secret_box).unwrap();
    assert_eq!(result, b"x".to_vec());
    for share in shares {
        assert!(combine(vec![share], &secret_box).is_err());
    }
}

#[test]
fn combine_ignores_unrecoverable_extra_blobs() {
    let secret = "supersecret";
    let lvl = DamageLevel::new(1, 1);
    let (shares, secret_box) = split(secret.as_bytes(), &lvl, 3, 2).unwrap();
    let mut with_junk = shares.clone();
    with_junk.push(vec![0u8; 40]);
    with_junk.push(b"not a container".to_vec());
    let result = combine(with_junk, &secret_box).unwrap();
    assert_eq!(result, secret.as_bytes().to_vec());
}

#[test]
fn aead_round_trips_and_rejects_tampering() {
    let key = vec![7u8; 32];
    let boxed = aead_wrap(key.as_slice(), b"hello").unwrap();
    assert_eq!(boxed.tag.len(), 16);
    assert_eq!(boxed.ciphertext.len(), 5);
    assert_ne!(boxed.ciphertext, b"hello".to_vec());
    assert_eq!(aead_unwrap(key.as_slice(), &boxed).unwrap(), b"hello".to_vec());
    // A wrong key is rejected.
    let other = vec![8u8; 32];
    assert_eq!(
        aead_unwrap(other.as_slice(), &boxed),
        Err(dataragon::error::ErrorKind::AEADDecryptionError)
    );
    // A flipped ciphertext byte is rejected.
    let mut tampered = boxed.clone();
    tampered.ciphertext[0] ^= 1;
    assert_eq!(
        aead_unwrap(key.as_slice(), &tampered),
        Err(dataragon::error::ErrorKind::AEADDecryptionError)
    );
}

#[test]
fn combining_malformed_shares_reports_the_shamir_error() {
    let key = vec![1u8; 32];
    let boxed = aead_wrap(key.as_slice(), b"s").unwrap();
    let shares = vec![vec![1u8; 5]];
    assert_eq!(
        combine_data_shares(&shares, &boxed),
        Err(dataragon::error::ErrorKind::ShamirsSecretSharingDecryptionError)
    );
    assert_eq!(
        restore_data_shared(&shares, boxed),
        Err(dataragon::error::ErrorKind::ShamirsSecretSharingDecryptionError)
    );
}

#[test]
fn split_rejects_a_threshold_above_the_count() {
    let lvl = DamageLevel::new(1, 1);
    assert!(matches!(
        split(b"secret", &lvl, 2, 3),
        Err(dataragon::error::ErrorKind::ShamirsSecretSharingEncryptionError)
    ));
    assert!(matches!(
        split(b"secret", &lvl, 0, 0),
        Err(dataragon::error::ErrorKind::ShamirsSecretSharingEncryptionError)
    ));
}

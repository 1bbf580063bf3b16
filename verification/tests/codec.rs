use rustfl::error::FlError;
use rustfl::secure_dp_utils::{
    contribution_from_plaintexts, decrypt_share, encrypt_share, fed_avg_encrypted,
    generate_fernet_key, open_update, opened, seal_share, MIN_TOKEN_LENGTH,
};
use rustfl::client::seal_update;

#[test]
fn test_encrypt_share() {
    let share = "share_data";
    let key = generate_fernet_key();

    match encrypt_share(share, &key) {
        Ok(encrypted_share) => {
            assert!(!encrypted_share.is_empty());
        }
        Err(_) => panic!("Encryption failed"),
    }
}

#[test]
fn tokens_and_keys_are_ascii_text_of_known_length() {
    let key = generate_fernet_key();
    assert!(key.is_ascii());
    assert_eq!(key.chars().count(), 44);
    // an empty share fills one cipher block: 73 bytes, 100 characters
    let shortest = encrypt_share("", &key).unwrap();
    assert_eq!(shortest.len(), MIN_TOKEN_LENGTH);
    assert!(shortest.is_ascii());
    // sixteen bytes need a second block: 89 bytes, 120 characters
    let longer = seal_share("0123456789abcdef", &key).unwrap();
    assert_eq!(longer.len(), 120);
    assert!(longer.is_ascii());
}

#[test]
fn test_generate_fernet_key() {
    let key = generate_fernet_key();
    assert_eq!(key.len(), 44);
}

#[test]
fn generated_keys_differ() {
    assert_ne!(generate_fernet_key(), generate_fernet_key());
}

#[test]
fn decryption_undoes_encryption() {
    let key = generate_fernet_key();
    for share in ["", "share_data", "80000000000000000000000000000001"] {
        let token = String::from_utf8(encrypt_share(share, &key).unwrap()).unwrap();
        assert_ne!(token, share);
        assert_eq!(decrypt_share(&token, &key), Ok(share.as_bytes().to_vec()));
        let sealed = seal_share(share, &key).unwrap();
        assert_eq!(decrypt_share(&sealed, &key), Ok(share.as_bytes().to_vec()));
    }
}

#[test]
fn encryption_uses_a_fresh_nonce() {
    let key = generate_fernet_key();
    assert_ne!(seal_share("share_data", &key), seal_share("share_data", &key));
}

#[test]
fn a_wrong_key_fails_to_decrypt() {
    let key = generate_fernet_key();
    let other = generate_fernet_key();
    let token = seal_share("share_data", &key).unwrap();
    assert_eq!(decrypt_share(&token, &other), Err(FlError::DecryptionFailed));
}

#[test]
fn a_tampered_token_fails_to_decrypt() {
    let key = generate_fernet_key();
    let token = seal_share("share_data", &key).unwrap();
    let mut bytes = token.into_bytes();
    let middle = bytes.len() / 2;
    bytes[middle] = if bytes[middle] == b'A' { b'B' } else { b'A' };
    let tampered = String::from_utf8(bytes).unwrap();
    assert_eq!(decrypt_share(&tampered, &key), Err(FlError::DecryptionFailed));
    assert_eq!(decrypt_share("not a token", &key), Err(FlError::DecryptionFailed));
    assert_eq!(decrypt_share("", &key), Err(FlError::DecryptionFailed));
}

#[test]
fn a_malformed_key_is_an_invalid_key() {
    assert_eq!(encrypt_share("share_data", "secret_key"), Err(FlError::InvalidKey));
    assert_eq!(seal_share("share_data", ""), Err(FlError::InvalidKey));
    let token = seal_share("share_data", &generate_fernet_key()).unwrap();
    assert_eq!(decrypt_share(&token, "secret_key"), Err(FlError::InvalidKey));
}

#[test]
fn outcomes_of_decryption_read_as_errors() {
    assert_eq!(opened(None), Err(FlError::InvalidKey));
    assert_eq!(opened(Some(Ok(vec![1, 2, 3]))), Ok(vec![1, 2, 3]));
    assert_eq!(opened(Some(Err(fernet::DecryptionError))), Err(FlError::DecryptionFailed));
}

#[test]
fn plaintexts_decode_into_weights() {
    // two share sets of the weights 3 and -4, on the lines 3 + 2x and -4 + x
    let first = b"800000000000000000000000000000057ffffffffffffffffffffffffffffffd".to_vec();
    let second = b"800000000000000000000000000000077ffffffffffffffffffffffffffffffe".to_vec();
    assert_eq!(contribution_from_plaintexts(&vec![first.clone(), second.clone()]), Ok(vec![3, -4]));
    assert_eq!(contribution_from_plaintexts(&vec![second.clone()]), Ok(vec![7, -2]));
    assert_eq!(contribution_from_plaintexts(&vec![]), Err(FlError::MalformedUpdate));
    assert_eq!(
        contribution_from_plaintexts(&vec![first, b"xyz".to_vec()]),
        Err(FlError::MalformedUpdate)
    );
}

#[test]
fn an_update_opens_into_the_weights_it_was_sealed_from() {
    let key = generate_fernet_key();
    let weights = vec![1_500_000, -2_250_000, 0, i64::MAX, i64::MIN];
    let update = seal_update(weights.clone(), 10, 200_000, 0, &key, 3, 2).unwrap();
    assert_eq!(update.model_weights.len(), 3);
    assert_eq!(update.num_samples, 10);
    assert_eq!(update.loss, 200_000);
    assert_eq!(update.model_version, 0);
    assert_eq!(open_update(&update.model_weights, &key), Ok(weights.clone()));
    // a quorum of the tokens is enough
    let quorum = update.model_weights[..2].to_vec();
    assert_eq!(open_update(&quorum, &key), Ok(weights));
    assert_eq!(
        open_update(&update.model_weights, &generate_fernet_key()),
        Err(FlError::DecryptionFailed)
    );
    assert_eq!(open_update(&update.model_weights, "secret_key"), Err(FlError::InvalidKey));
    assert_eq!(open_update(&vec![], &key), Err(FlError::MalformedUpdate));
    // without a token no key is looked at
    assert_eq!(open_update(&vec![], "secret_key"), Err(FlError::MalformedUpdate));
    assert_eq!(open_update(&vec!["a".to_string()], "secret_key"), Err(FlError::InvalidKey));
}

#[test]
fn sealing_reports_its_errors() {
    let key = generate_fernet_key();
    assert_eq!(seal_update(vec![1], 1, 0, 0, &key, 2, 3).err(), Some(FlError::ShareCountError));
    assert_eq!(seal_update(vec![1], 1, 0, 0, &key, 2, 0).err(), Some(FlError::ShareCountError));
    assert_eq!(
        seal_update(vec![1], 1, 0, 0, "secret_key", 3, 2).err(),
        Some(FlError::InvalidKey)
    );
    assert_eq!(
        seal_update(vec![1], 1, 0, 0, "secret_key", 2, 3).err(),
        Some(FlError::ShareCountError)
    );
    let empty = seal_update(vec![1], 1, 0, 0, "secret_key", 0, 0).unwrap();
    assert!(empty.model_weights.is_empty());
}

#[test]
fn test_fed_avg_encrypted() {
    let key = generate_fernet_key();

    // Text that is no ciphertext is rejected, not aggregated.
    let client_updates = vec![
        vec!["a".to_string(), "b".to_string(), "c".to_string()],
        vec!["d".to_string(), "e".to_string(), "f".to_string()],
    ];
    assert_eq!(
        fed_avg_encrypted(client_updates, vec![1, 1], &key),
        Err(FlError::DecryptionFailed)
    );

    // Two clients with three weights each.
    let first = seal_update(vec![1_000_000, 2_000_000, 3_000_000], 1, 0, 0, &key, 3, 2).unwrap();
    let second = seal_update(vec![3_000_000, 6_000_000, -9_000_000], 3, 0, 0, &key, 3, 2).unwrap();
    let client_updates = vec![first.model_weights, second.model_weights];

    let aggregated_weights = fed_avg_encrypted(client_updates, vec![1, 3], &key).unwrap();

    assert_eq!(aggregated_weights.len(), 3);
    assert_eq!(aggregated_weights, vec![2_500_000, 5_000_000, -6_000_000]);
}

#[test]
fn encrypted_averaging_rejects_a_round_that_has_no_average() {
    let key = generate_fernet_key();
    let update = seal_update(vec![1, 2], 1, 0, 0, &key, 3, 2).unwrap();
    let other = seal_update(vec![1, 2, 3], 1, 0, 0, &key, 3, 2).unwrap();
    assert_eq!(fed_avg_encrypted(vec![], vec![], &key), Err(FlError::MalformedUpdate));
    assert_eq!(fed_avg_encrypted(vec![], vec![1], &key), Err(FlError::MalformedUpdate));
    assert_eq!(fed_avg_encrypted(vec![], vec![1], "secret_key"), Err(FlError::MalformedUpdate));
    assert_eq!(
        fed_avg_encrypted(vec![update.model_weights.clone()], vec![1, 2], "secret_key"),
        Err(FlError::MalformedUpdate)
    );
    assert_eq!(
        fed_avg_encrypted(vec![vec![], update.model_weights.clone()], vec![1, 2], "secret_key"),
        Err(FlError::MalformedUpdate)
    );
    assert_eq!(
        fed_avg_encrypted(vec![vec![], update.model_weights.clone()], vec![1, 2], &key),
        Err(FlError::MalformedUpdate)
    );
    assert_eq!(
        fed_avg_encrypted(vec![update.model_weights.clone()], vec![], &key),
        Err(FlError::MalformedUpdate)
    );
    assert_eq!(
        fed_avg_encrypted(vec![update.model_weights.clone()], vec![0], &key),
        Err(FlError::MalformedUpdate)
    );
    assert_eq!(
        fed_avg_encrypted(vec![update.model_weights.clone(), other.model_weights], vec![1, 1], &key),
        Err(FlError::MalformedUpdate)
    );
    assert_eq!(
        fed_avg_encrypted(vec![update.model_weights.clone()], vec![5], "secret_key"),
        Err(FlError::InvalidKey)
    );
    assert_eq!(fed_avg_encrypted(vec![update.model_weights], vec![5], &key), Ok(vec![1, 2]));
}

use encnotes::{
    decode_envelope, decrypt_vault, encode_envelope, encrypt_vault, parse_vault, serialize_vault,
    EncryptedContent, Note, Vault, VaultError,
};

fn b(s: &str) -> Vec<u8> {
    s.as_bytes().to_vec()
}

fn framed_field(tag: u8, value: &[u8]) -> Vec<u8> {
    let mut out = vec![tag];
    out.extend_from_slice(format!("{:020}\n", value.len()).as_bytes());
    out.extend_from_slice(value);
    out.push(b'\n');
    out
}

#[test]
fn envelope_codec_round_trips_arbitrary_bytes() {
    let cases: Vec<(Vec<u8>, Vec<u8>, Vec<u8>)> = vec![
        (b("cipher bytes"), b("salted"), b("nonced")),
        (vec![], b("s"), b("n")),
        (vec![0, 10, 99, 115, 110, 255], vec![10, 10, 10], vec![]),
        (vec![], vec![], vec![]),
    ];
    for (c, s, n) in cases {
        let ec = EncryptedContent {
            cipher_text_b64: c.clone(),
            salt_b64: s.clone(),
            nonce_b64: n.clone(),
        };
        let blob = encode_envelope(&ec);
        let back = decode_envelope(&blob).unwrap();
        assert_eq!(back.cipher_text_b64, c);
        assert_eq!(back.salt_b64, s);
        assert_eq!(back.nonce_b64, n);
    }
}

#[test]
fn envelope_read_is_order_independent() {
    let mut blob = framed_field(b's', b"SALTTEXT");
    blob.extend_from_slice(&framed_field(b'n', b"NONCETEXT"));
    blob.extend_from_slice(&framed_field(b'c', b"CIPHERTEXT"));
    let ec = decode_envelope(&blob).unwrap();
    assert_eq!(ec.cipher_text_b64, b("CIPHERTEXT"));
    assert_eq!(ec.salt_b64, b("SALTTEXT"));
    assert_eq!(ec.nonce_b64, b("NONCETEXT"));
}

#[test]
fn envelope_rejects_duplicate_and_missing_fields() {
    let mut twice = framed_field(b's', b"one");
    twice.extend_from_slice(&framed_field(b's', b"two"));
    twice.extend_from_slice(&framed_field(b'c', b"ct"));
    assert_eq!(decode_envelope(&twice).unwrap_err(), VaultError::FormatError);

    let mut short = framed_field(b's', b"one");
    short.extend_from_slice(&framed_field(b'c', b"ct"));
    assert_eq!(decode_envelope(&short).unwrap_err(), VaultError::FormatError);
}

#[test]
fn envelope_rejects_trailing_bytes_and_unknown_tags() {
    let ec = EncryptedContent {
        cipher_text_b64: b("c"),
        salt_b64: b("s"),
        nonce_b64: b("n"),
    };
    let mut blob = encode_envelope(&ec);
    blob.push(b'x');
    assert_eq!(decode_envelope(&blob).unwrap_err(), VaultError::FormatError);

    let mut bad_tag = framed_field(b'z', b"value");
    bad_tag.extend_from_slice(&framed_field(b's', b"s"));
    bad_tag.extend_from_slice(&framed_field(b'n', b"n"));
    assert_eq!(decode_envelope(&bad_tag).unwrap_err(), VaultError::FormatError);
}

#[test]
fn empty_vault_serializes_to_a_zero_count_line() {
    let v = Vault { notes: vec![] };
    let bytes = serialize_vault(&v);
    assert_eq!(bytes, b("00000000000000000000\n"));
    assert!(parse_vault(&bytes).unwrap().notes.is_empty());
}

#[test]
fn one_note_vault_serializes_to_its_exact_canonical_form() {
    let v = Vault {
        notes: vec![Note {
            id: b("ab"),
            title: b("t"),
            description: b(""),
            created_at: 5,
            modified_at: 7,
        }],
    };
    let mut expected = b("00000000000000000001\n");
    expected.extend_from_slice(b"00000000000000000002\nab\n");
    expected.extend_from_slice(b"00000000000000000001\nt\n");
    expected.extend_from_slice(b"00000000000000000000\n\n");
    expected.extend_from_slice(b"00000000000000000005\n");
    expected.extend_from_slice(b"00000000000000000007\n");
    assert_eq!(serialize_vault(&v), expected);
    let back = parse_vault(&expected).unwrap();
    assert_eq!(back.notes.len(), 1);
    assert_eq!(back.notes[0].id, b("ab"));
    assert_eq!(back.notes[0].created_at, 5);
    assert_eq!(back.notes[0].modified_at, 7);
}

#[test]
fn vault_parser_rejects_malformed_plaintext() {
    assert_eq!(
        parse_vault(&b("not a count")).unwrap_err(),
        VaultError::FormatError
    );
    assert_eq!(
        parse_vault(&b("00000000000000000001\n")).unwrap_err(),
        VaultError::FormatError
    );
    let mut trailing = serialize_vault(&Vault { notes: vec![] });
    trailing.push(b'!');
    assert_eq!(parse_vault(&trailing).unwrap_err(), VaultError::FormatError);
}

#[test]
fn encrypt_produces_base64_text_of_the_right_lengths() {
    let ec = encrypt_vault(&b("hi"), "pw").unwrap();
    // 16-byte salt -> 24 base64 chars; 24-byte nonce -> 32; 2 + 16 tag bytes -> 24.
    assert_eq!(ec.salt_b64.len(), 24);
    assert_eq!(ec.nonce_b64.len(), 32);
    assert_eq!(ec.cipher_text_b64.len(), 24);
    assert!(ec.salt_b64.iter().all(|c| c.is_ascii()));
}

#[test]
fn decrypt_is_deterministic_for_one_envelope() {
    let ec = encrypt_vault(&b("same plaintext"), "pw").unwrap();
    let a = decrypt_vault(&ec, "pw").unwrap();
    let c = decrypt_vault(&ec, "pw").unwrap();
    assert_eq!(a, c);
    assert_eq!(a, b("same plaintext"));
}

#[test]
fn two_encryptions_of_one_plaintext_differ() {
    let e1 = encrypt_vault(&b("payload"), "pw").unwrap();
    let e2 = encrypt_vault(&b("payload"), "pw").unwrap();
    assert_ne!(e1.salt_b64, e2.salt_b64);
    assert_ne!(e1.nonce_b64, e2.nonce_b64);
    assert_ne!(e1.cipher_text_b64, e2.cipher_text_b64);
}

#[test]
fn tampered_ciphertext_fails_authentication() {
    let ec = encrypt_vault(&b("payload"), "pw").unwrap();
    let mut ct = ec.cipher_text_b64.clone();
    let k = ct.len() / 2;
    ct[k] = if ct[k] == b'A' { b'B' } else { b'A' };
    let bad = EncryptedContent {
        cipher_text_b64: ct,
        salt_b64: ec.salt_b64.clone(),
        nonce_b64: ec.nonce_b64.clone(),
    };
    let r = decrypt_vault(&bad, "pw");
    assert!(matches!(
        r.unwrap_err(),
        VaultError::FormatError | VaultError::AuthenticationFailure
    ));
}

#[test]
fn corrupt_base64_in_the_envelope_is_a_format_error() {
    let ec = encrypt_vault(&b("payload"), "pw").unwrap();
    let bad = EncryptedContent {
        cipher_text_b64: ec.cipher_text_b64.clone(),
        salt_b64: b("!!! not base64 !!!"),
        nonce_b64: ec.nonce_b64.clone(),
    };
    assert_eq!(decrypt_vault(&bad, "pw").unwrap_err(), VaultError::FormatError);
}

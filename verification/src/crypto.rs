use vstd::prelude::*;

use argon2::Argon2;
use base64::Engine;
use chacha20poly1305::aead::{Aead, KeyInit};
use chacha20poly1305::{XChaCha20Poly1305, XNonce};

use crate::errors::VaultError;

verus! {

/// The 32-byte key that the password hash derives from a password and a salt.
pub uninterp spec fn key_of(password: Seq<char>, salt: Seq<u8>) -> Seq<u8>;

/// The ciphertext, authentication tag appended, that the AEAD cipher produces
/// from a key, a nonce and a plaintext.
pub uninterp spec fn seal_of(key: Seq<u8>, nonce: Seq<u8>, plaintext: Seq<u8>) -> Seq<u8>;

/// The standard base64 text of a byte string.
pub uninterp spec fn b64_of(data: Seq<u8>) -> Seq<u8>;

/// Password lengths the key derivation accepts without truncation: the hash
/// takes at most 2^32 - 1 password bytes, and a character is at most four.
pub open spec fn password_ok(p: Seq<char>) -> bool {
    p.len() <= 0x3FFF_FFFF
}

/// Relies on argon2's `Argon2::hash_password_into` with the crate's default
/// parameters: the derived key is a function of the password and the salt
/// alone. With a 16-byte salt, a 32-byte output and a password under 2^32
/// bytes it fails only if its working memory cannot be allocated, which is
/// treated as fatal, as an allocation failure elsewhere would be.
#[verifier::external_body]
fn derive_key(password: &str, salt: &Vec<u8>) -> (r: Vec<u8>)
    requires
        salt@.len() == 16,
        password_ok(password@),
    ensures
        r@ == key_of(password@, salt@),
        r@.len() == 32,
{
    let mut key = [0u8; 32];
    Argon2::default()
        .hash_password_into(password.as_bytes(), salt.as_slice(), &mut key)
        .expect("key derivation needs its working memory");
    key.to_vec()
}

/// Relies on rand's `fill`, which fills the buffer from the thread's
/// OS-seeded generator; nothing is assumed of the values drawn.
#[verifier::external_body]
fn random_bytes(n: usize) -> (r: Vec<u8>)
    ensures
        r@.len() == n,
{
    let mut buf = vec![0u8; n];
    rand::fill(&mut buf[..]);
    buf
}

/// Relies on chacha20poly1305's XChaCha20Poly1305 `encrypt`: the result is a
/// function of key, nonce and plaintext; it appends a 16-byte tag; by its
/// source it fails exactly when the plaintext reaches 64 * (2^32 - 1) bytes.
#[verifier::external_body]
fn aead_seal(key: &Vec<u8>, nonce: &Vec<u8>, plaintext: &Vec<u8>) -> (r: Result<
    Vec<u8>,
    VaultError,
>)
    requires
        key@.len() == 32,
        nonce@.len() == 24,
    ensures
        r matches Ok(c) ==> c@ == seal_of(key@, nonce@, plaintext@) && c@.len() == plaintext@.len()
            + 16 && plaintext@.len() < 0x3F_FFFF_FFC0,
        plaintext@.len() < 0x3F_FFFF_FFC0 ==> r is Ok,
        r matches Err(e) ==> e == VaultError::FormatError,
{
    let cipher = XChaCha20Poly1305::new_from_slice(key.as_slice()).expect("32-byte key");
    let xnonce = XNonce::try_from(nonce.as_slice()).expect("24-byte nonce");
    cipher.encrypt(&xnonce, plaintext.as_slice()).map_err(|_| VaultError::FormatError)
}

/// Relies on XChaCha20Poly1305 `decrypt`: it succeeds on the encryption of a
/// plaintext under the same key and nonce and returns that plaintext; any
/// output it accepts is exactly the plaintext whose encryption the input is,
/// since the keystream is applied twice and the tag is recomputed from the
/// ciphertext.
#[verifier::external_body]
fn aead_open(key: &Vec<u8>, nonce: &Vec<u8>, ciphertext: &Vec<u8>) -> (r: Result<
    Vec<u8>,
    VaultError,
>)
    requires
        key@.len() == 32,
        nonce@.len() == 24,
    ensures
        r is Err ==> forall|p: Seq<u8>|
            !(ciphertext@ == #[trigger] seal_of(key@, nonce@, p) && p.len() < 0x3F_FFFF_FFC0),
        r matches Ok(q) ==> forall|p: Seq<u8>|
            ciphertext@ == #[trigger] seal_of(key@, nonce@, p) ==> q@ == p,
        r matches Ok(q) ==> ciphertext@ == seal_of(key@, nonce@, q@) && ciphertext@.len() == q@.len()
            + 16,
        r matches Err(e) ==> e == VaultError::AuthenticationFailure,
{
    let cipher = XChaCha20Poly1305::new_from_slice(key.as_slice()).expect("32-byte key");
    let xnonce = XNonce::try_from(nonce.as_slice()).expect("24-byte nonce");
    cipher.decrypt(&xnonce, ciphertext.as_slice()).map_err(|_| VaultError::AuthenticationFailure)
}

/// Relies on base64's STANDARD engine `encode`: standard alphabet with
/// padding; the text is a function of the input bytes alone.
#[verifier::external_body]
fn b64_encode(data: &Vec<u8>) -> (r: Vec<u8>)
    requires
        data@.len() < 0x1000_0000_0000_0000,
    ensures
        r@ == b64_of(data@),
{
    base64::engine::general_purpose::STANDARD.encode(data.as_slice()).into_bytes()
}

/// Relies on base64's STANDARD engine `decode`, whose configuration requires
/// canonical padding and rejects set trailing bits: it accepts exactly the
/// texts that `encode` produces, and inverts it on them.
#[verifier::external_body]
fn b64_decode(text: &Vec<u8>) -> (r: Option<Vec<u8>>)
    ensures
        r is None ==> forall|d: Seq<u8>| text@ != #[trigger] b64_of(d),
        r matches Some(q) ==> text@ == b64_of(q@) && (forall|d: Seq<u8>|
            text@ == #[trigger] b64_of(d) ==> q@ == d),
{
    match base64::engine::general_purpose::STANDARD.decode(text.as_slice()) {
        Ok(v) => Some(v),
        Err(_) => None,
    }
}

/// The three transport-encoded fields of the on-disk envelope.
#[derive(Debug)]
pub struct EncryptedContent {
    pub cipher_text_b64: Vec<u8>,
    pub salt_b64: Vec<u8>,
    pub nonce_b64: Vec<u8>,
}

/// The three texts are the base64 forms of an encryption of `plaintext`
/// under `password` with some well-formed salt and nonce.
pub open spec fn is_sealed(
    ct_b64: Seq<u8>,
    salt_b64: Seq<u8>,
    nonce_b64: Seq<u8>,
    plaintext: Seq<u8>,
    password: Seq<char>,
) -> bool {
    exists|salt: Seq<u8>, nonce: Seq<u8>|
        salt.len() == 16 && nonce.len() == 24 && ct_b64 == b64_of(
            #[trigger] seal_of(key_of(password, salt), nonce, plaintext),
        ) && salt_b64 == b64_of(salt) && nonce_b64 == b64_of(nonce)
}

/// The three texts are well-formed transport encodings: each is the base64
/// form of some bytes, the salt of 16 and the nonce of 24. Decryption fails
/// with `FormatError` exactly when this does not hold.
pub open spec fn fields_well_formed(ct_b64: Seq<u8>, salt_b64: Seq<u8>, nonce_b64: Seq<u8>) -> bool {
    exists|c: Seq<u8>, s: Seq<u8>, n: Seq<u8>|
        #![trigger b64_of(c), b64_of(s), b64_of(n)]
        ct_b64 == b64_of(c) && salt_b64 == b64_of(s) && nonce_b64 == b64_of(n) && s.len() == 16
            && n.len() == 24
}

/// Sealed fields are well-formed transport text.
pub proof fn lemma_sealed_fields_wf(
    ct_b64: Seq<u8>,
    salt_b64: Seq<u8>,
    nonce_b64: Seq<u8>,
    plaintext: Seq<u8>,
    password: Seq<char>,
)
    requires
        is_sealed(ct_b64, salt_b64, nonce_b64, plaintext, password),
    ensures
        fields_well_formed(ct_b64, salt_b64, nonce_b64),
{
    let (salt, nonce) = choose|salt: Seq<u8>, nonce: Seq<u8>|
        salt.len() == 16 && nonce.len() == 24 && ct_b64 == b64_of(
            #[trigger] seal_of(key_of(password, salt), nonce, plaintext),
        ) && salt_b64 == b64_of(salt) && nonce_b64 == b64_of(nonce);
    assert(ct_b64 == b64_of(seal_of(key_of(password, salt), nonce, plaintext)));
}

/// Key determinism: deriving a key twice from the same password and the same
/// salt yields the same key.
pub proof fn lemma_key_deterministic(pw_a: Seq<char>, salt_a: Seq<u8>, pw_b: Seq<char>, salt_b: Seq<u8>)
    requires
        pw_a == pw_b,
        salt_a == salt_b,
    ensures
        key_of(pw_a, salt_a) == key_of(pw_b, salt_b),
{
}

/// Encrypts a plaintext under a password with a freshly drawn salt and nonce.
/// Success holds exactly for the plaintext lengths the cipher accepts, and
/// the ciphertext field carries the plaintext plus the 16-byte tag.
pub fn encrypt_vault(plaintext: &Vec<u8>, password: &str) -> (r: Result<
    EncryptedContent,
    VaultError,
>)
    requires
        password_ok(password@),
    ensures
        r matches Ok(ec) ==> is_sealed(
            ec.cipher_text_b64@,
            ec.salt_b64@,
            ec.nonce_b64@,
            plaintext@,
            password@,
        ),
        r matches Ok(ec) ==> exists|ct: Seq<u8>|
            ec.cipher_text_b64@ == #[trigger] b64_of(ct) && ct.len() == plaintext@.len() + 16,
        r is Ok <==> plaintext@.len() < 0x3F_FFFF_FFC0,
        r matches Err(e) ==> e == VaultError::FormatError,
{
    let salt = random_bytes(16);
    let nonce = random_bytes(24);
    let key = derive_key(password, &salt);
    let ct = match aead_seal(&key, &nonce, plaintext) {
        Ok(c) => c,
        Err(e) => {
            return Err(e);
        },
    };
    let cipher_text_b64 = b64_encode(&ct);
    let salt_b64 = b64_encode(&salt);
    let nonce_b64 = b64_encode(&nonce);
    Ok(EncryptedContent { cipher_text_b64, salt_b64, nonce_b64 })
}

/// Decrypts an envelope's fields under a password. Malformed transport text
/// is a `FormatError`, if and only if; a tag mismatch on well-formed fields
/// means a wrong password or a corrupt vault, and is never told apart
/// further.
pub fn decrypt_vault(content: &EncryptedContent, password: &str) -> (r: Result<Vec<u8>, VaultError>)
    requires
        password_ok(password@),
    ensures
        forall|pt: Seq<u8>|
            #[trigger] is_sealed(
                content.cipher_text_b64@,
                content.salt_b64@,
                content.nonce_b64@,
                pt,
                password@,
            ) && pt.len() < 0x3F_FFFF_FFC0 ==> (r matches Ok(q) && q@ == pt),
        r matches Ok(q) ==> is_sealed(
            content.cipher_text_b64@,
            content.salt_b64@,
            content.nonce_b64@,
            q@,
            password@,
        ),
        r == Err::<Vec<u8>, VaultError>(VaultError::FormatError) <==> !fields_well_formed(
            content.cipher_text_b64@,
            content.salt_b64@,
            content.nonce_b64@,
        ),
        r matches Err(e) ==> e == VaultError::FormatError || e == VaultError::AuthenticationFailure,
{
    let salt = match b64_decode(&content.salt_b64) {
        Some(v) => v,
        None => {
            proof {
                refute_wf_and_sealed(content, password@);
            }
            return Err(VaultError::FormatError);
        },
    };
    if salt.len() != 16 {
        proof {
            refute_wf_and_sealed(content, password@);
        }
        return Err(VaultError::FormatError);
    }
    let nonce = match b64_decode(&content.nonce_b64) {
        Some(v) => v,
        None => {
            proof {
                refute_wf_and_sealed(content, password@);
            }
            return Err(VaultError::FormatError);
        },
    };
    if nonce.len() != 24 {
        proof {
            refute_wf_and_sealed(content, password@);
        }
        return Err(VaultError::FormatError);
    }
    let ct = match b64_decode(&content.cipher_text_b64) {
        Some(v) => v,
        None => {
            proof {
                refute_wf_and_sealed(content, password@);
            }
            return Err(VaultError::FormatError);
        },
    };
    proof {
        assert(content.cipher_text_b64@ == b64_of(ct@));
        assert(content.salt_b64@ == b64_of(salt@));
        assert(content.nonce_b64@ == b64_of(nonce@));
        assert(fields_well_formed(content.cipher_text_b64@, content.salt_b64@, content.nonce_b64@));
    }
    let key = derive_key(password, &salt);
    match aead_open(&key, &nonce, &ct) {
        Ok(q) => {
            proof {
                assert(is_sealed(
                    content.cipher_text_b64@,
                    content.salt_b64@,
                    content.nonce_b64@,
                    q@,
                    password@,
                ));
            }
            Ok(q)
        },
        Err(e) => {
            proof {
                assert forall|pt: Seq<u8>|
                    is_sealed(
                        content.cipher_text_b64@,
                        content.salt_b64@,
                        content.nonce_b64@,
                        pt,
                        password@,
                    ) && pt.len() < 0x3F_FFFF_FFC0 implies false by {}
            }
            Err(e)
        },
    }
}

/// In an arm where a transport field failed to decode or had the wrong
/// length, the fields are not well formed and nothing is sealed in them.
proof fn refute_wf_and_sealed(content: &EncryptedContent, password: Seq<char>)
    requires
        !fields_well_formed(content.cipher_text_b64@, content.salt_b64@, content.nonce_b64@),
    ensures
        !fields_well_formed(content.cipher_text_b64@, content.salt_b64@, content.nonce_b64@),
        forall|pt: Seq<u8>|
            !(#[trigger] is_sealed(
                content.cipher_text_b64@,
                content.salt_b64@,
                content.nonce_b64@,
                pt,
                password,
            )),
{
    assert forall|pt: Seq<u8>|
        !(#[trigger] is_sealed(
            content.cipher_text_b64@,
            content.salt_b64@,
            content.nonce_b64@,
            pt,
            password,
        )) by {
        if is_sealed(
            content.cipher_text_b64@,
            content.salt_b64@,
            content.nonce_b64@,
            pt,
            password,
        ) {
            lemma_sealed_fields_wf(
                content.cipher_text_b64@,
                content.salt_b64@,
                content.nonce_b64@,
                pt,
                password,
            );
        }
    }
}

} // verus!

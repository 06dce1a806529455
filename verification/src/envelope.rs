use vstd::prelude::*;

use crate::codec::{
    enc_field, fits, lemma_dec_digits_len, lemma_fits_concat, lemma_fits_join, parse_field,
    write_field,
};
use crate::crypto::EncryptedContent;
use crate::errors::VaultError;

verus! {

/// One tagged field of the envelope document: a one-letter tag, then the
/// framed field text.
pub open spec fn env_field(tag: u8, v: Seq<u8>) -> Seq<u8> {
    seq![tag] + enc_field(v)
}

/// The canonical envelope: ciphertext (tag 'c'), salt ('s'), nonce ('n').
pub open spec fn env_enc(c: Seq<u8>, s: Seq<u8>, n: Seq<u8>) -> Seq<u8> {
    env_field(99, c) + env_field(115, s) + env_field(110, n)
}

/// The envelope's three fields in any of the six orders: reading is
/// order-independent, so this is what a successful decode guarantees.
pub open spec fn is_envelope(b: Seq<u8>, c: Seq<u8>, s: Seq<u8>, n: Seq<u8>) -> bool {
    let fc = env_field(99, c);
    let fs = env_field(115, s);
    let fe = env_field(110, n);
    b == fc + fs + fe || b == fc + fe + fs || b == fs + fc + fe || b == fs + fe + fc || b == fe + fc
        + fs || b == fe + fs + fc
}

/// Serializes an envelope to its on-disk text, fields in canonical order.
pub fn encode_envelope(ec: &EncryptedContent) -> (r: Vec<u8>)
    ensures
        r@ == env_enc(ec.cipher_text_b64@, ec.salt_b64@, ec.nonce_b64@),
{
    let mut out: Vec<u8> = Vec::new();
    out.push(99u8);
    write_field(&mut out, &ec.cipher_text_b64);
    out.push(115u8);
    write_field(&mut out, &ec.salt_b64);
    out.push(110u8);
    write_field(&mut out, &ec.nonce_b64);
    proof {
        assert(out@ =~= env_enc(ec.cipher_text_b64@, ec.salt_b64@, ec.nonce_b64@));
    }
    out
}

/// `b` is exactly the three given tagged fields in this order, and each
/// field occurs at its offset.
pub open spec fn laid_out(
    b: Seq<u8>,
    t1: u8,
    v1: Seq<u8>,
    t2: u8,
    v2: Seq<u8>,
    t3: u8,
    v3: Seq<u8>,
) -> bool {
    b == env_field(t1, v1) + env_field(t2, v2) + env_field(t3, v3) && fits(b, 0, env_field(t1, v1))
        && fits(b, env_field(t1, v1).len() as int, env_field(t2, v2)) && fits(
        b,
        env_field(t1, v1).len() + env_field(t2, v2).len() as int,
        env_field(t3, v3),
    )
}

proof fn lemma_layout(b: Seq<u8>, t1: u8, v1: Seq<u8>, t2: u8, v2: Seq<u8>, t3: u8, v3: Seq<u8>)
    requires
        b == env_field(t1, v1) + env_field(t2, v2) + env_field(t3, v3),
    ensures
        laid_out(b, t1, v1, t2, v2, t3, v3),
{
    assert(b.subrange(0, b.len() as int) =~= b);
    assert(b =~= env_field(t1, v1) + (env_field(t2, v2) + env_field(t3, v3)));
    assert(fits(b, 0, env_field(t1, v1) + (env_field(t2, v2) + env_field(t3, v3))));
    lemma_fits_concat(b, 0, env_field(t1, v1), env_field(t2, v2) + env_field(t3, v3));
    lemma_fits_concat(b, env_field(t1, v1).len() as int, env_field(t2, v2), env_field(t3, v3));
}

/// An envelope is one of the six orders, each laid out field by field.
proof fn lemma_envelope_layouts(b: Seq<u8>, c: Seq<u8>, s: Seq<u8>, n: Seq<u8>)
    requires
        is_envelope(b, c, s, n),
    ensures
        laid_out(b, 99, c, 115, s, 110, n) || laid_out(b, 99, c, 110, n, 115, s) || laid_out(
            b,
            115,
            s,
            99,
            c,
            110,
            n,
        ) || laid_out(b, 115, s, 110, n, 99, c) || laid_out(b, 110, n, 99, c, 115, s) || laid_out(
            b,
            110,
            n,
            115,
            s,
            99,
            c,
        ),
{
    let fc = env_field(99, c);
    let fs = env_field(115, s);
    let fe = env_field(110, n);
    if b == fc + fs + fe {
        lemma_layout(b, 99, c, 115, s, 110, n);
    } else if b == fc + fe + fs {
        lemma_layout(b, 99, c, 110, n, 115, s);
    } else if b == fs + fc + fe {
        lemma_layout(b, 115, s, 99, c, 110, n);
    } else if b == fs + fe + fc {
        lemma_layout(b, 115, s, 110, n, 99, c);
    } else if b == fe + fc + fs {
        lemma_layout(b, 110, n, 99, c, 115, s);
    } else {
        lemma_layout(b, 110, n, 115, s, 99, c);
    }
}

/// Parses one tagged field at offset `i` of `b`.
fn parse_env_field(b: &Vec<u8>, i: usize) -> (r: Result<(u8, Vec<u8>, usize), VaultError>)
    requires
        i <= b@.len(),
    ensures
        r matches Ok(t) ==> i < t.2 && t.2 <= b@.len() && (t.0 == 99 || t.0 == 115 || t.0 == 110)
            && t.2 == i + env_field(t.0, t.1@).len() && b@.subrange(i as int, t.2 as int)
            == env_field(t.0, t.1@),
        forall|tag: u8, v: Seq<u8>|
            (tag == 99 || tag == 115 || tag == 110) && #[trigger] fits(
                b@,
                i as int,
                env_field(tag, v),
            ) ==> (r matches Ok(t) && t.0 == tag && t.1@ == v && t.2 == i + env_field(
                tag,
                v,
            ).len()),
{
    broadcast use lemma_dec_digits_len;

    proof {
        assert forall|tag: u8, v: Seq<u8>|
            (tag == 99 || tag == 115 || tag == 110) && #[trigger] fits(
                b@,
                i as int,
                env_field(tag, v),
            ) implies i < b@.len() && b@[i as int] == tag && fits(b@, i + 1, enc_field(v)) by {
            lemma_fits_concat(b@, i as int, seq![tag], enc_field(v));
            assert(b@.subrange(i as int, i + 1)[0] == tag);
        }
    }
    if i >= b.len() {
        return Err(VaultError::FormatError);
    }
    let tg = b[i];
    if !(tg == 99 || tg == 115 || tg == 110) {
        return Err(VaultError::FormatError);
    }
    match parse_field(b, i + 1) {
        Ok(p) => {
            proof {
                assert(b@.subrange(i as int, p.1 as int) =~= seq![tg] + b@.subrange(
                    i + 1,
                    p.1 as int,
                ));
            }
            Ok((tg, p.0, p.1))
        },
        Err(e) => {
            return Err(e);
        },
    }
}

/// Parses the on-disk envelope text; the three tagged fields may come in any
/// order, each exactly once, and nothing may follow them.
pub fn decode_envelope(b: &Vec<u8>) -> (r: Result<EncryptedContent, VaultError>)
    ensures
        r matches Ok(ec) ==> is_envelope(b@, ec.cipher_text_b64@, ec.salt_b64@, ec.nonce_b64@),
        forall|c: Seq<u8>, s: Seq<u8>, n: Seq<u8>|
            #[trigger] is_envelope(b@, c, s, n) ==> (r matches Ok(ec) && ec.cipher_text_b64@ == c
                && ec.salt_b64@ == s && ec.nonce_b64@ == n),
        r is Err ==> forall|c: Seq<u8>, s: Seq<u8>, n: Seq<u8>| !(#[trigger] is_envelope(b@, c, s, n)),
        r matches Err(e) ==> e == VaultError::FormatError,
{
    broadcast use lemma_dec_digits_len;

    let blen = b.len();
    proof {
        assert forall|c: Seq<u8>, s: Seq<u8>, n: Seq<u8>| #[trigger] is_envelope(
            b@,
            c,
            s,
            n,
        ) implies laid_out(b@, 99, c, 115, s, 110, n) || laid_out(b@, 99, c, 110, n, 115, s)
            || laid_out(b@, 115, s, 99, c, 110, n) || laid_out(b@, 115, s, 110, n, 99, c)
            || laid_out(b@, 110, n, 99, c, 115, s) || laid_out(b@, 110, n, 115, s, 99, c) by {
            lemma_envelope_layouts(b@, c, s, n);
        }
    }
    let t1: u8;
    let v1: Vec<u8>;
    let i1: usize;
    match parse_env_field(b, 0) {
        Ok(t) => {
            t1 = t.0;
            v1 = t.1;
            i1 = t.2;
        },
        Err(_) => {
            return Err(VaultError::FormatError);
        },
    }
    let t2: u8;
    let v2: Vec<u8>;
    let i2: usize;
    match parse_env_field(b, i1) {
        Ok(t) => {
            t2 = t.0;
            v2 = t.1;
            i2 = t.2;
        },
        Err(_) => {
            return Err(VaultError::FormatError);
        },
    }
    let t3: u8;
    let v3: Vec<u8>;
    let i3: usize;
    match parse_env_field(b, i2) {
        Ok(t) => {
            t3 = t.0;
            v3 = t.1;
            i3 = t.2;
        },
        Err(_) => {
            return Err(VaultError::FormatError);
        },
    }
    proof {
        assert forall|c: Seq<u8>, s: Seq<u8>, n: Seq<u8>| #[trigger] is_envelope(
            b@,
            c,
            s,
            n,
        ) implies (t1 == 99 ==> v1@ == c) && (t1 == 115 ==> v1@ == s) && (t1 == 110 ==> v1@ == n)
            && (t2 == 99 ==> v2@ == c) && (t2 == 115 ==> v2@ == s) && (t2 == 110 ==> v2@ == n) && (
        t3 == 99 ==> v3@ == c) && (t3 == 115 ==> v3@ == s) && (t3 == 110 ==> v3@ == n) && t1 != t2
            && t1 != t3 && t2 != t3 && i3 == blen by {}
    }
    if i3 != blen {
        return Err(VaultError::FormatError);
    }
    if t1 == t2 || t1 == t3 || t2 == t3 {
        return Err(VaultError::FormatError);
    }
    proof {
        assert(fits(b@, 0, env_field(t1, v1@)));
        assert(fits(b@, i1 as int, env_field(t2, v2@)));
        assert(fits(b@, i2 as int, env_field(t3, v3@)));
        lemma_fits_join(b@, i1 as int, env_field(t2, v2@), env_field(t3, v3@));
        lemma_fits_join(b@, 0, env_field(t1, v1@), env_field(t2, v2@) + env_field(t3, v3@));
        assert(b@ =~= env_field(t1, v1@) + (env_field(t2, v2@) + env_field(t3, v3@)));
    }
    if t1 == 99 {
        if t2 == 115 {
            proof {
                assert(is_envelope(b@, v1@, v2@, v3@)) by {
                    assert(b@ =~= env_field(99, v1@) + env_field(115, v2@) + env_field(110, v3@));
                }
            }
            Ok(EncryptedContent { cipher_text_b64: v1, salt_b64: v2, nonce_b64: v3 })
        } else {
            proof {
                assert(is_envelope(b@, v1@, v3@, v2@)) by {
                    assert(b@ =~= env_field(99, v1@) + env_field(110, v2@) + env_field(115, v3@));
                }
            }
            Ok(EncryptedContent { cipher_text_b64: v1, salt_b64: v3, nonce_b64: v2 })
        }
    } else if t1 == 115 {
        if t2 == 99 {
            proof {
                assert(is_envelope(b@, v2@, v1@, v3@)) by {
                    assert(b@ =~= env_field(115, v1@) + env_field(99, v2@) + env_field(110, v3@));
                }
            }
            Ok(EncryptedContent { cipher_text_b64: v2, salt_b64: v1, nonce_b64: v3 })
        } else {
            proof {
                assert(is_envelope(b@, v3@, v1@, v2@)) by {
                    assert(b@ =~= env_field(115, v1@) + env_field(110, v2@) + env_field(99, v3@));
                }
            }
            Ok(EncryptedContent { cipher_text_b64: v3, salt_b64: v1, nonce_b64: v2 })
        }
    } else {
        if t2 == 99 {
            proof {
                assert(is_envelope(b@, v2@, v3@, v1@)) by {
                    assert(b@ =~= env_field(110, v1@) + env_field(99, v2@) + env_field(115, v3@));
                }
            }
            Ok(EncryptedContent { cipher_text_b64: v2, salt_b64: v3, nonce_b64: v1 })
        } else {
            proof {
                assert(is_envelope(b@, v3@, v2@, v1@)) by {
                    assert(b@ =~= env_field(110, v1@) + env_field(115, v2@) + env_field(99, v3@));
                }
            }
            Ok(EncryptedContent { cipher_text_b64: v3, salt_b64: v2, nonce_b64: v1 })
        }
    }
}

} // verus!

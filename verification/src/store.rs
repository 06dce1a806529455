use vstd::prelude::*;

use crate::codec::{copy_range, lemma_dec_digits_len};
use crate::crypto::{
    decrypt_vault, encrypt_vault, fields_well_formed, is_sealed, lemma_sealed_fields_wf,
    password_ok,
};
use crate::envelope::{decode_envelope, encode_envelope, env_enc, is_envelope};
use crate::errors::VaultError;
use crate::notes::{
    enc_note, enc_notes, enc_vault, id_matches, lemma_enc_notes_snoc, note_matches, parse_vault,
    serialize_vault, views_of, Note, NoteView, Vault,
};

verus! {

/// Plaintexts the cipher accepts: under 64 * (2^32 - 1) bytes.
pub open spec fn plaintext_fits(vs: Seq<NoteView>) -> bool {
    enc_vault(vs).len() < 0x3F_FFFF_FFC0
}

/// `file` is the canonical envelope of an encryption of `pt` under `pw`.
pub open spec fn encodes_bytes(file: Seq<u8>, pt: Seq<u8>, pw: Seq<char>) -> bool {
    exists|c: Seq<u8>, s: Seq<u8>, n: Seq<u8>|
        file == #[trigger] env_enc(c, s, n) && is_sealed(c, s, n, pt, pw)
}

/// `file` is an envelope, fields in any order, of an encryption of `pt`
/// under `pw`.
pub open spec fn holds_bytes(file: Seq<u8>, pt: Seq<u8>, pw: Seq<char>) -> bool {
    exists|c: Seq<u8>, s: Seq<u8>, n: Seq<u8>|
        #[trigger] is_envelope(file, c, s, n) && is_sealed(c, s, n, pt, pw)
}

pub open spec fn encodes_vault(file: Seq<u8>, vs: Seq<NoteView>, pw: Seq<char>) -> bool {
    encodes_bytes(file, enc_vault(vs), pw)
}

pub open spec fn holds_vault(file: Seq<u8>, vs: Seq<NoteView>, pw: Seq<char>) -> bool {
    holds_bytes(file, enc_vault(vs), pw)
}

/// What the vault file reads back to: a missing file is an empty vault; an
/// existing file must be an envelope — fields in any order — of an
/// encryption of the notes under the password.
pub open spec fn file_reads_to(file: Option<Vec<u8>>, vs: Seq<NoteView>, pw: Seq<char>) -> bool {
    match file {
        Option::None => vs == Seq::<NoteView>::empty(),
        Option::Some(f) => holds_vault(f@, vs, pw),
    }
}

/// The file is structurally a vault file: a three-field envelope in some
/// order, each field well-formed transport text. A file that is not is
/// rejected as `FormatError`, never as `AuthenticationFailure`.
pub open spec fn file_well_formed(file: Seq<u8>) -> bool {
    exists|c: Seq<u8>, s: Seq<u8>, n: Seq<u8>|
        #[trigger] is_envelope(file, c, s, n) && fields_well_formed(c, s, n)
}

/// The file is a well-formed envelope, but what its fields seal under this
/// password is no canonical vault document.
pub open spec fn holds_foreign_bytes(file: Seq<u8>, pw: Seq<char>) -> bool {
    exists|pt: Seq<u8>|
        #[trigger] holds_bytes(file, pt, pw) && !(exists|vs: Seq<NoteView>|
            pt == #[trigger] enc_vault(vs))
}

/// A file written in canonical field order is also readable in the
/// order-independent sense.
pub proof fn lemma_encoded_is_held(file: Seq<u8>, pt: Seq<u8>, pw: Seq<char>)
    requires
        encodes_bytes(file, pt, pw),
    ensures
        holds_bytes(file, pt, pw),
{
    let (c, s, n) = choose|c: Seq<u8>, s: Seq<u8>, n: Seq<u8>|
        file == #[trigger] env_enc(c, s, n) && is_sealed(c, s, n, pt, pw);
    assert(is_envelope(file, c, s, n));
}

pub proof fn lemma_enc_note_len(nv: NoteView)
    ensures
        enc_note(nv).len() == 108 + nv.id.len() + nv.title.len() + nv.description.len(),
{
    broadcast use lemma_dec_digits_len;

}

pub proof fn lemma_enc_notes_remove(s: Seq<NoteView>, j: int)
    requires
        0 <= j < s.len(),
    ensures
        enc_notes(s.remove(j)).len() + enc_note(s[j]).len() == enc_notes(s).len(),
    decreases s.len(),
{
    if j == 0 {
        assert(s.remove(0) =~= s.drop_first());
    } else {
        assert(s.remove(j).drop_first() =~= s.drop_first().remove(j - 1));
        assert(s.remove(j)[0] == s[0]);
        lemma_enc_notes_remove(s.drop_first(), j - 1);
        assert(s.drop_first()[j - 1] == s[j]);
    }
}

pub proof fn lemma_enc_notes_update(s: Seq<NoteView>, j: int, nv: NoteView)
    requires
        0 <= j < s.len(),
    ensures
        enc_notes(s.update(j, nv)).len() + enc_note(s[j]).len() == enc_notes(s).len() + enc_note(
            nv,
        ).len(),
    decreases s.len(),
{
    if j == 0 {
        assert(s.update(0, nv).drop_first() =~= s.drop_first());
        assert(s.update(0, nv)[0] == nv);
    } else {
        assert(s.update(j, nv).drop_first() =~= s.drop_first().update(j - 1, nv));
        assert(s.update(j, nv)[0] == s[0]);
        lemma_enc_notes_update(s.drop_first(), j - 1, nv);
        assert(s.drop_first()[j - 1] == s[j]);
    }
}

/// Relies on uuid's `Uuid::new_v4`, a random version-4 identifier, whose
/// hyphenated text form is 36 ASCII bytes; nothing else is assumed of it.
#[verifier::external_body]
fn fresh_id() -> (r: Vec<u8>)
    ensures
        r@.len() == 36,
{
    uuid::Uuid::new_v4().to_string().into_bytes()
}

/// Relies on chrono's `Utc::now` for the current time as Unix seconds;
/// nothing is assumed of the value.
#[verifier::external_body]
fn now_timestamp() -> (r: u64) {
    chrono::Utc::now().timestamp() as u64
}

fn copy_bytes(b: &Vec<u8>) -> (r: Vec<u8>)
    ensures
        r@ == b@,
{
    let r = copy_range(b, 0, b.len());
    proof {
        assert(b@.subrange(0, b@.len() as int) =~= b@);
    }
    r
}

/// Reads a vault from the file's bytes: a missing file is an empty vault;
/// an existing file is decoded, decrypted under the password, and parsed.
/// Together with `write_vault` this is the round trip: a file written from
/// notes `vs` under a password reads back to exactly `vs`. A structurally
/// malformed file is a `FormatError`; `AuthenticationFailure` arises only on
/// a well-formed envelope whose tag check failed.
pub fn read_vault(file: &Option<Vec<u8>>, password: &str) -> (r: Result<Vault, VaultError>)
    requires
        password_ok(password@),
    ensures
        (*file) is None ==> (r matches Ok(v) && v@ == Seq::<NoteView>::empty()),
        forall|vs: Seq<NoteView>|
            #[trigger] file_reads_to(*file, vs, password@) && plaintext_fits(vs) ==> (
            r matches Ok(v) && v@ == vs),
        r matches Ok(v) ==> file_reads_to(*file, v@, password@),
        (*file) matches Some(f) && !file_well_formed(f@) ==> r == Err::<Vault, VaultError>(
            VaultError::FormatError,
        ),
        r == Err::<Vault, VaultError>(VaultError::AuthenticationFailure) ==> ((*file) matches Some(
            f,
        ) && file_well_formed(f@)),
        r == Err::<Vault, VaultError>(VaultError::FormatError) ==> ((*file) matches Some(f) && (
        !file_well_formed(f@) || holds_foreign_bytes(f@, password@))),
        r matches Err(e) ==> e == VaultError::FormatError || e == VaultError::AuthenticationFailure,
{
    let f = match file {
        Some(f) => f,
        None => {
            let v = Vault { notes: Vec::new() };
            proof {
                assert(v@ =~= Seq::<NoteView>::empty());
            }
            return Ok(v);
        },
    };
    let ec = match decode_envelope(f) {
        Ok(ec) => ec,
        Err(e) => {
            proof {
                assert(!file_well_formed(f@));
                assert forall|vs: Seq<NoteView>|
                    file_reads_to(*file, vs, password@) && plaintext_fits(vs) implies false by {
                    let (c, s, n) = choose|c: Seq<u8>, s: Seq<u8>, n: Seq<u8>|
                        #[trigger] is_envelope(f@, c, s, n) && is_sealed(
                            c,
                            s,
                            n,
                            enc_vault(vs),
                            password@,
                        );
                }
            }
            return Err(e);
        },
    };
    let pt = match decrypt_vault(&ec, password) {
        Ok(p) => p,
        Err(e) => {
            proof {
                assert forall|vs: Seq<NoteView>|
                    file_reads_to(*file, vs, password@) && plaintext_fits(vs) implies false by {
                    let (c, s, n) = choose|c: Seq<u8>, s: Seq<u8>, n: Seq<u8>|
                        #[trigger] is_envelope(f@, c, s, n) && is_sealed(
                            c,
                            s,
                            n,
                            enc_vault(vs),
                            password@,
                        );
                    assert(is_sealed(
                        ec.cipher_text_b64@,
                        ec.salt_b64@,
                        ec.nonce_b64@,
                        enc_vault(vs),
                        password@,
                    ));
                }
                if e == VaultError::AuthenticationFailure {
                    assert(fields_well_formed(
                        ec.cipher_text_b64@,
                        ec.salt_b64@,
                        ec.nonce_b64@,
                    ));
                    assert(file_well_formed(f@));
                } else {
                    assert(!file_well_formed(f@)) by {
                        if file_well_formed(f@) {
                            let (c, s, n) = choose|c: Seq<u8>, s: Seq<u8>, n: Seq<u8>|
                                #[trigger] is_envelope(f@, c, s, n) && fields_well_formed(c, s, n);
                            assert(ec.cipher_text_b64@ == c && ec.salt_b64@ == s && ec.nonce_b64@
                                == n);
                        }
                    }
                }
            }
            return Err(e);
        },
    };
    let v = match parse_vault(&pt) {
        Ok(v) => v,
        Err(_) => {
            proof {
                assert(is_envelope(f@, ec.cipher_text_b64@, ec.salt_b64@, ec.nonce_b64@));
                assert(is_sealed(
                    ec.cipher_text_b64@,
                    ec.salt_b64@,
                    ec.nonce_b64@,
                    pt@,
                    password@,
                ));
                assert(holds_bytes(f@, pt@, password@));
                assert(holds_foreign_bytes(f@, password@)) by {
                    assert(!(exists|vs: Seq<NoteView>| pt@ == #[trigger] enc_vault(vs)));
                }
                lemma_sealed_fields_wf(
                    ec.cipher_text_b64@,
                    ec.salt_b64@,
                    ec.nonce_b64@,
                    pt@,
                    password@,
                );
                assert(file_well_formed(f@));
                assert forall|vs: Seq<NoteView>|
                    file_reads_to(*file, vs, password@) && plaintext_fits(vs) implies false by {
                    let (c, s, n) = choose|c: Seq<u8>, s: Seq<u8>, n: Seq<u8>|
                        #[trigger] is_envelope(f@, c, s, n) && is_sealed(
                            c,
                            s,
                            n,
                            enc_vault(vs),
                            password@,
                        );
                    assert(is_sealed(
                        ec.cipher_text_b64@,
                        ec.salt_b64@,
                        ec.nonce_b64@,
                        enc_vault(vs),
                        password@,
                    ));
                    assert(pt@ == enc_vault(vs));
                }
            }
            return Err(VaultError::FormatError);
        },
    };
    proof {
        assert(is_envelope(f@, ec.cipher_text_b64@, ec.salt_b64@, ec.nonce_b64@));
        assert(is_sealed(
            ec.cipher_text_b64@,
            ec.salt_b64@,
            ec.nonce_b64@,
            enc_vault(v@),
            password@,
        ));
        assert(holds_vault(f@, v@, password@));
        lemma_sealed_fields_wf(
            ec.cipher_text_b64@,
            ec.salt_b64@,
            ec.nonce_b64@,
            enc_vault(v@),
            password@,
        );
        assert(file_well_formed(f@));
        assert forall|vs: Seq<NoteView>|
            #[trigger] file_reads_to(*file, vs, password@) && plaintext_fits(vs) implies v@
            == vs by {
            let (c, s, n) = choose|c: Seq<u8>, s: Seq<u8>, n: Seq<u8>|
                #[trigger] is_envelope(f@, c, s, n) && is_sealed(c, s, n, enc_vault(vs), password@);
            assert(is_sealed(
                ec.cipher_text_b64@,
                ec.salt_b64@,
                ec.nonce_b64@,
                enc_vault(vs),
                password@,
            ));
            assert(pt@ == enc_vault(vs));
        }
    }
    Ok(v)
}

/// Serializes the vault, encrypts it under the password with a fresh salt
/// and nonce, and returns the new file bytes in canonical envelope form.
pub fn write_vault(vault: &Vault, password: &str) -> (r: Result<Vec<u8>, VaultError>)
    requires
        password_ok(password@),
    ensures
        r matches Ok(f) ==> encodes_vault(f@, vault@, password@),
        r is Ok <==> plaintext_fits(vault@),
        r matches Err(e) ==> e == VaultError::FormatError,
{
    let pt = serialize_vault(vault);
    let ec = match encrypt_vault(&pt, password) {
        Ok(ec) => ec,
        Err(e) => {
            return Err(e);
        },
    };
    let out = encode_envelope(&ec);
    proof {
        assert(encodes_vault(out@, vault@, password@));
    }
    Ok(out)
}

/// Checks the password against an existing vault file, discarding the
/// plaintext; a missing file is an error here, unlike in `read_vault`.
pub fn verify_password(file: &Option<Vec<u8>>, password: &str) -> (r: Result<(), VaultError>)
    requires
        password_ok(password@),
    ensures
        (*file) is None <==> r == Err::<(), VaultError>(VaultError::VaultMissing),
        forall|vs: Seq<NoteView>|
            #[trigger] file_reads_to(*file, vs, password@) && plaintext_fits(vs) && (*file)
                is Some ==> r is Ok,
        r is Ok ==> ((*file) matches Some(f) && exists|pt: Seq<u8>|
            holds_bytes(f@, pt, password@)),
        r matches Err(e) ==> e == VaultError::VaultMissing || e == VaultError::FormatError || e
            == VaultError::AuthenticationFailure,
{
    let f = match file {
        Some(f) => f,
        None => {
            return Err(VaultError::VaultMissing);
        },
    };
    let ec = match decode_envelope(f) {
        Ok(ec) => ec,
        Err(e) => {
            proof {
                assert forall|vs: Seq<NoteView>|
                    file_reads_to(*file, vs, password@) && plaintext_fits(vs) implies false by {
                    let (c, s, n) = choose|c: Seq<u8>, s: Seq<u8>, n: Seq<u8>|
                        #[trigger] is_envelope(f@, c, s, n) && is_sealed(
                            c,
                            s,
                            n,
                            enc_vault(vs),
                            password@,
                        );
                }
            }
            return Err(e);
        },
    };
    match decrypt_vault(&ec, password) {
        Ok(pt) => {
            proof {
                assert(is_sealed(
                    ec.cipher_text_b64@,
                    ec.salt_b64@,
                    ec.nonce_b64@,
                    pt@,
                    password@,
                ));
                assert(holds_bytes(f@, pt@, password@));
            }
            Ok(())
        },
        Err(e) => {
            proof {
                assert forall|vs: Seq<NoteView>|
                    file_reads_to(*file, vs, password@) && plaintext_fits(vs) implies false by {
                    let (c, s, n) = choose|c: Seq<u8>, s: Seq<u8>, n: Seq<u8>|
                        #[trigger] is_envelope(f@, c, s, n) && is_sealed(
                            c,
                            s,
                            n,
                            enc_vault(vs),
                            password@,
                        );
                    assert(is_sealed(
                        ec.cipher_text_b64@,
                        ec.salt_b64@,
                        ec.nonce_b64@,
                        enc_vault(vs),
                        password@,
                    ));
                }
            }
            Err(e)
        },
    }
}

/// Creates a new empty vault file; refuses to overwrite an existing one.
pub fn init_vault(file: &Option<Vec<u8>>, password: &str) -> (r: Result<Vec<u8>, VaultError>)
    requires
        password_ok(password@),
    ensures
        (*file) is Some <==> r == Err::<Vec<u8>, VaultError>(VaultError::VaultAlreadyExists),
        (*file) is None ==> (r matches Ok(f) && encodes_vault(
            f@,
            Seq::<NoteView>::empty(),
            password@,
        )),
{
    broadcast use lemma_dec_digits_len;

    if file.is_some() {
        return Err(VaultError::VaultAlreadyExists);
    }
    let v = Vault { notes: Vec::new() };
    proof {
        assert(v@ =~= Seq::<NoteView>::empty());
        assert(enc_notes(v@) =~= Seq::<u8>::empty());
        assert(plaintext_fits(v@));
    }
    match write_vault(&v, password) {
        Ok(f) => Ok(f),
        Err(e) => {
            proof {
                assert(false);
            }
            Err(e)
        },
    }
}

/// Re-encrypts the vault under a new password: a full decrypt under the old
/// password, then a fresh encrypt — with new salt and nonce — under the new.
/// A missing vault file is an error here: no operation but `init` creates
/// the file.
pub fn change_password(file: &Option<Vec<u8>>, old_password: &str, new_password: &str) -> (r:
    Result<Vec<u8>, VaultError>)
    requires
        password_ok(old_password@),
        password_ok(new_password@),
    ensures
        (*file) is None <==> r == Err::<Vec<u8>, VaultError>(VaultError::VaultMissing),
        forall|vs: Seq<NoteView>|
            (*file) is Some && #[trigger] file_reads_to(*file, vs, old_password@)
                && plaintext_fits(vs) ==> (r matches Ok(f2) && encodes_vault(
                f2@,
                vs,
                new_password@,
            )),
        (*file) matches Some(f) && !file_well_formed(f@) ==> r == Err::<Vec<u8>, VaultError>(
            VaultError::FormatError,
        ),
        r == Err::<Vec<u8>, VaultError>(VaultError::AuthenticationFailure) ==> (
        (*file) matches Some(f) && file_well_formed(f@)),
        r matches Ok(f2) ==> (*file) is Some && (exists|vs: Seq<NoteView>|
            #[trigger] file_reads_to(*file, vs, old_password@) && encodes_vault(
                f2@,
                vs,
                new_password@,
            )),
        r matches Err(e) ==> e == VaultError::VaultMissing || e == VaultError::FormatError || e
            == VaultError::AuthenticationFailure,
{
    if file.is_none() {
        return Err(VaultError::VaultMissing);
    }
    let v = match read_vault(file, old_password) {
        Ok(v) => v,
        Err(e) => {
            return Err(e);
        },
    };
    match write_vault(&v, new_password) {
        Ok(f2) => {
            proof {
                assert(file_reads_to(*file, v@, old_password@));
            }
            Ok(f2)
        },
        Err(e) => {
            proof {
                assert forall|vs: Seq<NoteView>|
                    file_reads_to(*file, vs, old_password@) && plaintext_fits(vs) implies false by {
                    assert(v@ == vs);
                }
            }
            Err(e)
        },
    }
}

/// Lists the notes of the vault, in their stored order.
pub fn list_notes(file: &Option<Vec<u8>>, password: &str) -> (r: Result<Vec<Note>, VaultError>)
    requires
        password_ok(password@),
    ensures
        forall|vs: Seq<NoteView>|
            #[trigger] file_reads_to(*file, vs, password@) && plaintext_fits(vs) ==> (
            r matches Ok(ns) && views_of(ns@) == vs),
        r matches Ok(ns) ==> file_reads_to(*file, views_of(ns@), password@),
        r matches Err(e) ==> e == VaultError::FormatError || e == VaultError::AuthenticationFailure,
{
    match read_vault(file, password) {
        Ok(v) => Ok(v.notes),
        Err(e) => Err(e),
    }
}

/// The note a fresh addition appends: a new identifier, the given texts, and
/// one timestamp for both created-at and modified-at.
pub open spec fn new_note_view(id: Seq<u8>, title: Seq<u8>, description: Seq<u8>, t: u64) -> NoteView {
    NoteView { id, title, description, created_at: t, modified_at: t }
}

/// The added note fits the cipher's plaintext bound: the identifier is 36
/// bytes and the fixed framing is 108.
pub open spec fn can_add(vs: Seq<NoteView>, title: Seq<u8>, description: Seq<u8>) -> bool {
    enc_vault(vs).len() + title.len() + description.len() + 144 < 0x3F_FFFF_FFC0
}

/// Appends a new note with a fresh random identifier and the current time,
/// and re-encrypts the whole vault.
pub fn add_note(file: &Option<Vec<u8>>, password: &str, title: Vec<u8>, description: Vec<u8>) -> (r:
    Result<Vec<u8>, VaultError>)
    requires
        password_ok(password@),
    ensures
        forall|vs: Seq<NoteView>|
            #[trigger] file_reads_to(*file, vs, password@) && plaintext_fits(vs) && can_add(
                vs,
                title@,
                description@,
            ) ==> (r matches Ok(f2) && exists|id: Seq<u8>, t: u64|
                id.len() == 36 && #[trigger] encodes_vault(
                    f2@,
                    vs.push(new_note_view(id, title@, description@, t)),
                    password@,
                )),
        r matches Ok(f2) ==> exists|vs: Seq<NoteView>, id: Seq<u8>, t: u64|
            file_reads_to(*file, vs, password@) && id.len() == 36 && #[trigger] encodes_vault(
                f2@,
                vs.push(new_note_view(id, title@, description@, t)),
                password@,
            ),
        r matches Err(e) ==> e == VaultError::FormatError || e == VaultError::AuthenticationFailure,
{
    let mut v = match read_vault(file, password) {
        Ok(v) => v,
        Err(e) => {
            return Err(e);
        },
    };
    let ghost vs0 = v@;
    let id = fresh_id();
    let t = now_timestamp();
    let ghost idv = id@;
    let ghost titlev = title@;
    let ghost descv = description@;
    let note = Note { id, title, description, created_at: t, modified_at: t };
    v.notes.push(note);
    proof {
        assert(v@ =~= vs0.push(new_note_view(idv, titlev, descv, t)));
    }
    match write_vault(&v, password) {
        Ok(f2) => {
            proof {
                assert(file_reads_to(*file, vs0, password@));
            }
            Ok(f2)
        },
        Err(e) => {
            proof {
                assert forall|vs: Seq<NoteView>|
                    file_reads_to(*file, vs, password@) && plaintext_fits(vs) && can_add(
                        vs,
                        titlev,
                        descv,
                    ) implies false by {
                    assert(vs == vs0);
                    lemma_enc_notes_snoc(vs0, new_note_view(idv, titlev, descv, t));
                    lemma_enc_note_len(new_note_view(idv, titlev, descv, t));
                    broadcast use lemma_dec_digits_len;

                    assert(plaintext_fits(v@));
                }
            }
            Err(e)
        },
    }
}

/// The first note, in stored order, that the query matches.
pub open spec fn found_first(vs: Seq<NoteView>, q: Seq<u8>, nv: NoteView) -> bool {
    exists|j: int|
        0 <= j < vs.len() && #[trigger] vs[j] == nv && note_matches(vs[j], q) && (forall|i2: int|
            0 <= i2 < j ==> !note_matches(vs[i2], q))
}

/// Looks a note up by exact identifier or case-insensitive title and returns
/// a copy of the first match.
pub fn view_note(file: &Option<Vec<u8>>, query: &Vec<u8>, password: &str) -> (r: Result<
    Note,
    VaultError,
>)
    requires
        password_ok(password@),
    ensures
        forall|vs: Seq<NoteView>|
            #[trigger] file_reads_to(*file, vs, password@) && plaintext_fits(vs) ==> match r {
                Ok(nt) => found_first(vs, query@, nt@),
                Err(e) => e == VaultError::NoteNotFound && (forall|j: int|
                    0 <= j < vs.len() ==> !note_matches(vs[j], query@)),
            },
        r matches Err(e) ==> e == VaultError::NoteNotFound || e == VaultError::FormatError || e
            == VaultError::AuthenticationFailure,
{
    let v = match read_vault(file, password) {
        Ok(v) => v,
        Err(e) => {
            return Err(e);
        },
    };
    match v.find_note(query) {
        Some(idx) => {
            let nt = Note {
                id: copy_bytes(&v.notes[idx].id),
                title: copy_bytes(&v.notes[idx].title),
                description: copy_bytes(&v.notes[idx].description),
                created_at: v.notes[idx].created_at,
                modified_at: v.notes[idx].modified_at,
            };
            proof {
                assert(nt@ == v@[idx as int]) by {
                    assert(v@[idx as int] == v.notes@[idx as int]@);
                }
                assert(found_first(v@, query@, nt@));
            }
            Ok(nt)
        },
        None => Err(VaultError::NoteNotFound),
    }
}

/// Deletes the first note whose identifier is exactly `id`, re-encrypting
/// the rest; a miss reports `NoteNotFound` and yields no new file.
pub fn delete_note(file: &Option<Vec<u8>>, id: &Vec<u8>, password: &str) -> (r: Result<
    Vec<u8>,
    VaultError,
>)
    requires
        password_ok(password@),
    ensures
        forall|vs: Seq<NoteView>, j: int|
            #![trigger file_reads_to(*file, vs, password@), vs.remove(j)]
            file_reads_to(*file, vs, password@) && plaintext_fits(vs) && 0 <= j < vs.len()
                && id_matches(vs[j], id@) && (forall|i2: int|
                0 <= i2 < j ==> !id_matches(vs[i2], id@)) ==> (r matches Ok(f2) && encodes_vault(
                f2@,
                vs.remove(j),
                password@,
            )),
        forall|vs: Seq<NoteView>|
            #[trigger] file_reads_to(*file, vs, password@) && plaintext_fits(vs) && (forall|j: int|
                0 <= j < vs.len() ==> !id_matches(vs[j], id@)) ==> r == Err::<Vec<u8>, VaultError>(
                VaultError::NoteNotFound,
            ),
        r matches Err(e) ==> e == VaultError::NoteNotFound || e == VaultError::FormatError || e
            == VaultError::AuthenticationFailure,
{
    let mut v = match read_vault(file, password) {
        Ok(v) => v,
        Err(e) => {
            return Err(e);
        },
    };
    let ghost vs0 = v@;
    let idx = match v.find_by_id(id) {
        Some(idx) => idx,
        None => {
            return Err(VaultError::NoteNotFound);
        },
    };
    v.notes.remove(idx);
    proof {
        assert(v@ =~= vs0.remove(idx as int));
        lemma_enc_notes_remove(vs0, idx as int);
    }
    match write_vault(&v, password) {
        Ok(f2) => Ok(f2),
        Err(e) => {
            proof {
                assert forall|vs: Seq<NoteView>|
                    file_reads_to(*file, vs, password@) && plaintext_fits(vs) implies false by {
                    assert(vs == vs0);
                    broadcast use lemma_dec_digits_len;

                    assert(plaintext_fits(v@));
                }
            }
            Err(e)
        },
    }
}

/// A note after an edit: new title and description, all else kept.
pub open spec fn edited_note_view(nv: NoteView, title: Seq<u8>, description: Seq<u8>) -> NoteView {
    NoteView {
        id: nv.id,
        title,
        description,
        created_at: nv.created_at,
        modified_at: nv.modified_at,
    }
}

/// The edited vault fits the cipher's plaintext bound.
pub open spec fn can_edit(vs: Seq<NoteView>, title: Seq<u8>, description: Seq<u8>) -> bool {
    enc_vault(vs).len() + title.len() + description.len() < 0x3F_FFFF_FFC0
}

/// Replaces the title and description of the first note whose identifier is
/// exactly `id`, and re-encrypts the whole vault.
pub fn edit_note(
    file: &Option<Vec<u8>>,
    id: &Vec<u8>,
    new_title: Vec<u8>,
    new_description: Vec<u8>,
    password: &str,
) -> (r: Result<Vec<u8>, VaultError>)
    requires
        password_ok(password@),
    ensures
        forall|vs: Seq<NoteView>, j: int|
            #![trigger file_reads_to(*file, vs, password@), vs[j]]
            file_reads_to(*file, vs, password@) && plaintext_fits(vs) && can_edit(
                vs,
                new_title@,
                new_description@,
            ) && 0 <= j < vs.len() && id_matches(vs[j], id@) && (forall|i2: int|
                0 <= i2 < j ==> !id_matches(vs[i2], id@)) ==> (r matches Ok(f2) && encodes_vault(
                f2@,
                vs.update(j, edited_note_view(vs[j], new_title@, new_description@)),
                password@,
            )),
        forall|vs: Seq<NoteView>|
            #[trigger] file_reads_to(*file, vs, password@) && plaintext_fits(vs) && (forall|j: int|
                0 <= j < vs.len() ==> !id_matches(vs[j], id@)) ==> r == Err::<Vec<u8>, VaultError>(
                VaultError::NoteNotFound,
            ),
        r matches Err(e) ==> e == VaultError::NoteNotFound || e == VaultError::FormatError || e
            == VaultError::AuthenticationFailure,
{
    let mut v = match read_vault(file, password) {
        Ok(v) => v,
        Err(e) => {
            return Err(e);
        },
    };
    let ghost vs0 = v@;
    let idx = match v.find_by_id(id) {
        Some(idx) => idx,
        None => {
            return Err(VaultError::NoteNotFound);
        },
    };
    let ghost titlev = new_title@;
    let ghost descv = new_description@;
    let nn = Note {
        id: copy_bytes(&v.notes[idx].id),
        title: new_title,
        description: new_description,
        created_at: v.notes[idx].created_at,
        modified_at: v.notes[idx].modified_at,
    };
    proof {
        assert(v@[idx as int] == v.notes@[idx as int]@);
        assert(nn@ == edited_note_view(vs0[idx as int], titlev, descv));
    }
    v.notes.set(idx, nn);
    proof {
        assert(v@ =~= vs0.update(idx as int, edited_note_view(vs0[idx as int], titlev, descv)));
    }
    match write_vault(&v, password) {
        Ok(f2) => Ok(f2),
        Err(e) => {
            proof {
                assert forall|vs: Seq<NoteView>|
                    file_reads_to(*file, vs, password@) && plaintext_fits(vs) && can_edit(
                        vs,
                        titlev,
                        descv,
                    ) implies false by {
                    assert(vs == vs0);
                    lemma_enc_notes_update(
                        vs0,
                        idx as int,
                        edited_note_view(vs0[idx as int], titlev, descv),
                    );
                    lemma_enc_note_len(vs0[idx as int]);
                    lemma_enc_note_len(edited_note_view(vs0[idx as int], titlev, descv));
                    broadcast use lemma_dec_digits_len;

                    assert(plaintext_fits(v@));
                }
            }
            Err(e)
        },
    }
}

} // verus!

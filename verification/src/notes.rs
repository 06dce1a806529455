use vstd::prelude::*;

use crate::codec::{
    enc_field, enc_num, enc_u64, fits, lemma_dec_digits_len, lemma_fits_concat, lemma_fits_join,
    parse_field, parse_num, write_field, write_num,
};
use crate::errors::VaultError;

verus! {

/// One record of the vault. Timestamps are UTC instants in seconds.
#[derive(Debug)]
pub struct Note {
    pub id: Vec<u8>,
    pub title: Vec<u8>,
    pub description: Vec<u8>,
    pub created_at: u64,
    pub modified_at: u64,
}

/// The mathematical image of a note.
pub ghost struct NoteView {
    pub id: Seq<u8>,
    pub title: Seq<u8>,
    pub description: Seq<u8>,
    pub created_at: u64,
    pub modified_at: u64,
}

impl View for Note {
    type V = NoteView;

    open spec fn view(&self) -> NoteView {
        NoteView {
            id: self.id@,
            title: self.title@,
            description: self.description@,
            created_at: self.created_at,
            modified_at: self.modified_at,
        }
    }
}

pub open spec fn views_of(s: Seq<Note>) -> Seq<NoteView> {
    s.map_values(|n: Note| n@)
}

/// The plaintext note collection, in insertion order.
#[derive(Debug)]
pub struct Vault {
    pub notes: Vec<Note>,
}

impl View for Vault {
    type V = Seq<NoteView>;

    open spec fn view(&self) -> Seq<NoteView> {
        views_of(self.notes@)
    }
}

impl Default for Vault {
    /// The empty vault, as `init` constructs it.
    fn default() -> (r: Vault)
        ensures
            r@ == Seq::<NoteView>::empty(),
    {
        let v = Vault { notes: Vec::new() };
        proof {
            assert(v@ =~= Seq::<NoteView>::empty());
        }
        v
    }
}

/// The canonical encoding of one note: its five fields in a fixed order.
pub open spec fn enc_note(n: NoteView) -> Seq<u8> {
    enc_field(n.id) + enc_field(n.title) + enc_field(n.description) + enc_u64(n.created_at)
        + enc_u64(n.modified_at)
}

pub open spec fn enc_notes(s: Seq<NoteView>) -> Seq<u8>
    decreases s.len(),
{
    if s.len() == 0 {
        Seq::empty()
    } else {
        enc_note(s[0]) + enc_notes(s.drop_first())
    }
}

/// The canonical plaintext encoding of a whole vault: the note count, then
/// the notes in order.
pub open spec fn enc_vault(s: Seq<NoteView>) -> Seq<u8> {
    enc_num(s.len() as int) + enc_notes(s)
}

pub proof fn lemma_enc_notes_snoc(s: Seq<NoteView>, x: NoteView)
    ensures
        enc_notes(s.push(x)) == enc_notes(s) + enc_note(x),
    decreases s.len(),
{
    if s.len() == 0 {
        assert(s.push(x).drop_first() =~= Seq::<NoteView>::empty());
        assert(s.push(x)[0] == x);
        assert(enc_notes(s.push(x)) == enc_note(x) + enc_notes(s.push(x).drop_first()));
        assert(enc_notes(s.push(x).drop_first()) == Seq::<u8>::empty());
        assert(enc_notes(s) == Seq::<u8>::empty());
        assert(enc_notes(s.push(x)) =~= enc_notes(s) + enc_note(x));
    } else {
        assert(s.push(x).drop_first() =~= s.drop_first().push(x));
        lemma_enc_notes_snoc(s.drop_first(), x);
        assert(s.push(x)[0] == s[0]);
        assert(enc_notes(s.push(x)) =~= enc_notes(s) + enc_note(x));
    }
}

pub proof fn lemma_enc_notes_len_ge(s: Seq<NoteView>)
    ensures
        enc_notes(s).len() >= s.len(),
    decreases s.len(),
{
    broadcast use lemma_dec_digits_len;

    if s.len() != 0 {
        lemma_enc_notes_len_ge(s.drop_first());
    }
}

/// Splits an occurrence of a whole encoded note into its five fields.
pub proof fn lemma_note_split(b: Seq<u8>, i: int, nv: NoteView)
    requires
        fits(b, i, enc_note(nv)),
    ensures
        fits(b, i, enc_field(nv.id)),
        fits(b, i + enc_field(nv.id).len(), enc_field(nv.title)),
        fits(
            b,
            i + enc_field(nv.id).len() + enc_field(nv.title).len(),
            enc_field(nv.description),
        ),
        fits(
            b,
            i + enc_field(nv.id).len() + enc_field(nv.title).len() + enc_field(
                nv.description,
            ).len(),
            enc_u64(nv.created_at),
        ),
        fits(
            b,
            i + enc_field(nv.id).len() + enc_field(nv.title).len() + enc_field(
                nv.description,
            ).len() + 21,
            enc_u64(nv.modified_at),
        ),
{
    broadcast use lemma_dec_digits_len;

    let f1 = enc_field(nv.id);
    let f2 = enc_field(nv.title);
    let f3 = enc_field(nv.description);
    let n4 = enc_u64(nv.created_at);
    let n5 = enc_u64(nv.modified_at);
    assert(enc_note(nv) =~= f1 + (f2 + (f3 + (n4 + n5))));
    lemma_fits_concat(b, i, f1, f2 + (f3 + (n4 + n5)));
    lemma_fits_concat(b, i + f1.len(), f2, f3 + (n4 + n5));
    lemma_fits_concat(b, i + f1.len() + f2.len(), f3, n4 + n5);
    lemma_fits_concat(b, i + f1.len() + f2.len() + f3.len(), n4, n5);
}

/// Appends the canonical encoding of `n` to `out`.
pub fn serialize_note(out: &mut Vec<u8>, n: &Note)
    ensures
        final(out)@ == old(out)@ + enc_note(n@),
{
    write_field(out, &n.id);
    write_field(out, &n.title);
    write_field(out, &n.description);
    write_num(out, n.created_at);
    write_num(out, n.modified_at);
    proof {
        assert(out@ =~= old(out)@ + enc_note(n@));
    }
}

/// Serializes a vault to its canonical plaintext byte form.
pub fn serialize_vault(v: &Vault) -> (r: Vec<u8>)
    ensures
        r@ == enc_vault(v@),
{
    let mut out: Vec<u8> = Vec::new();
    write_num(&mut out, v.notes.len() as u64);
    proof {
        assert(v@.len() == v.notes@.len());
        assert(v@.take(0) =~= Seq::<NoteView>::empty());
        assert(out@ =~= enc_num(v@.len() as int) + enc_notes(v@.take(0)));
    }
    let mut k: usize = 0;
    while k < v.notes.len()
        invariant
            0 <= k <= v.notes@.len(),
            v@ == views_of(v.notes@),
            v@.len() == v.notes@.len(),
            out@ == enc_num(v@.len() as int) + enc_notes(v@.take(k as int)),
        decreases v.notes@.len() - k,
    {
        serialize_note(&mut out, &v.notes[k]);
        k = k + 1;
        proof {
            assert(v@[k - 1] == v.notes@[k - 1]@);
            assert(v@.take(k as int) =~= v@.take(k - 1).push(v@[k - 1]));
            lemma_enc_notes_snoc(v@.take(k - 1), v@[k - 1]);
            assert(out@ =~= enc_num(v@.len() as int) + enc_notes(v@.take(k as int)));
        }
    }
    proof {
        assert(v@.take(v@.len() as int) =~= v@);
    }
    out
}

/// Parses one encoded note at offset `i` of `b`.
pub fn parse_note(b: &Vec<u8>, i: usize) -> (r: Result<(Note, usize), VaultError>)
    requires
        i <= b@.len(),
    ensures
        r matches Ok(p) ==> i <= p.1 && p.1 <= b@.len() && p.1 == i + enc_note(p.0@).len()
            && b@.subrange(i as int, p.1 as int) == enc_note(p.0@),
        forall|nv: NoteView| #[trigger] fits(b@, i as int, enc_note(nv)) ==> (r matches Ok(p)
            && p.0@ == nv && p.1 == i + enc_note(nv).len()),
{
    broadcast use lemma_dec_digits_len;

    let id: Vec<u8>;
    let j1: usize;
    match parse_field(b, i) {
        Ok(p) => {
            id = p.0;
            j1 = p.1;
        },
        Err(e) => {
            proof {
                assert forall|nv: NoteView| fits(b@, i as int, enc_note(nv)) implies false by {
                    lemma_note_split(b@, i as int, nv);
                }
            }
            return Err(e);
        },
    }
    proof {
        assert forall|nv: NoteView| #[trigger] fits(b@, i as int, enc_note(nv)) implies id@
            == nv.id && j1 == i + enc_field(nv.id).len() && fits(
            b@,
            j1 as int,
            enc_field(nv.title),
        ) by {
            lemma_note_split(b@, i as int, nv);
        }
    }
    let title: Vec<u8>;
    let j2: usize;
    match parse_field(b, j1) {
        Ok(p) => {
            title = p.0;
            j2 = p.1;
        },
        Err(e) => {
            proof {
                assert forall|nv: NoteView| fits(b@, i as int, enc_note(nv)) implies false by {}
            }
            return Err(e);
        },
    }
    proof {
        assert forall|nv: NoteView| #[trigger] fits(b@, i as int, enc_note(nv)) implies title@
            == nv.title && j2 == i + enc_field(nv.id).len() + enc_field(nv.title).len() && fits(
            b@,
            j2 as int,
            enc_field(nv.description),
        ) by {
            lemma_note_split(b@, i as int, nv);
        }
    }
    let description: Vec<u8>;
    let j3: usize;
    match parse_field(b, j2) {
        Ok(p) => {
            description = p.0;
            j3 = p.1;
        },
        Err(e) => {
            proof {
                assert forall|nv: NoteView| fits(b@, i as int, enc_note(nv)) implies false by {}
            }
            return Err(e);
        },
    }
    proof {
        assert forall|nv: NoteView| #[trigger] fits(b@, i as int, enc_note(nv)) implies
            description@ == nv.description && j3 == i + enc_field(nv.id).len() + enc_field(
            nv.title,
        ).len() + enc_field(nv.description).len() && fits(
            b@,
            j3 as int,
            enc_u64(nv.created_at),
        ) by {
            lemma_note_split(b@, i as int, nv);
        }
    }
    let created_at: u64;
    let j4: usize;
    match parse_num(b, j3) {
        Ok(p) => {
            created_at = p.0;
            j4 = p.1;
        },
        Err(e) => {
            proof {
                assert forall|nv: NoteView| fits(b@, i as int, enc_note(nv)) implies false by {}
            }
            return Err(e);
        },
    }
    proof {
        assert forall|nv: NoteView| #[trigger] fits(b@, i as int, enc_note(nv)) implies created_at
            == nv.created_at && j4 == j3 + 21 && fits(b@, j4 as int, enc_u64(nv.modified_at)) by {
            lemma_note_split(b@, i as int, nv);
        }
    }
    let modified_at: u64;
    let j5: usize;
    match parse_num(b, j4) {
        Ok(p) => {
            modified_at = p.0;
            j5 = p.1;
        },
        Err(e) => {
            proof {
                assert forall|nv: NoteView| fits(b@, i as int, enc_note(nv)) implies false by {}
            }
            return Err(e);
        },
    }
    let note = Note { id, title, description, created_at, modified_at };
    proof {
        let f1 = enc_field(note@.id);
        let f2 = enc_field(note@.title);
        let f3 = enc_field(note@.description);
        let n4 = enc_u64(note@.created_at);
        let n5 = enc_u64(note@.modified_at);
        assert(fits(b@, i as int, f1));
        assert(fits(b@, j1 as int, f2));
        assert(fits(b@, j2 as int, f3));
        assert(fits(b@, j3 as int, n4));
        assert(fits(b@, j4 as int, n5));
        lemma_fits_join(b@, j3 as int, n4, n5);
        lemma_fits_join(b@, j2 as int, f3, n4 + n5);
        lemma_fits_join(b@, j1 as int, f2, f3 + (n4 + n5));
        lemma_fits_join(b@, i as int, f1, f2 + (f3 + (n4 + n5)));
        assert(enc_note(note@) =~= f1 + (f2 + (f3 + (n4 + n5))));
        assert(b@.subrange(i as int, j5 as int) == enc_note(note@));
        assert forall|nv: NoteView| #[trigger] fits(b@, i as int, enc_note(nv)) implies note@ == nv
            && j5 == i + enc_note(nv).len() by {
            assert(nv == NoteView {
                id: nv.id,
                title: nv.title,
                description: nv.description,
                created_at: nv.created_at,
                modified_at: nv.modified_at,
            });
        }
    }
    Ok((note, j5))
}

/// Parses a whole canonical vault encoding; the entire buffer must be
/// consumed.
pub fn parse_vault(b: &Vec<u8>) -> (r: Result<Vault, VaultError>)
    ensures
        r matches Ok(v) ==> b@ == enc_vault(v@),
        forall|vs: Seq<NoteView>| b@ == #[trigger] enc_vault(vs) ==> (r matches Ok(v) && v@ == vs),
{
    broadcast use lemma_dec_digits_len;

    let blen = b.len();
    proof {
        assert forall|vs: Seq<NoteView>| b@ == #[trigger] enc_vault(vs) implies fits(
            b@,
            0,
            enc_u64(vs.len() as u64),
        ) && vs.len() <= blen by {
            lemma_enc_notes_len_ge(vs);
            assert(b@.subrange(0, b@.len() as int) =~= b@);
            assert(fits(b@, 0, enc_vault(vs)));
            assert((vs.len() as u64) as int == vs.len() as int);
            lemma_fits_concat(b@, 0, enc_num(vs.len() as int), enc_notes(vs));
        }
    }
    let count: u64;
    let j0: usize;
    match parse_num(b, 0) {
        Ok(p) => {
            count = p.0;
            j0 = p.1;
        },
        Err(e) => {
            proof {
                assert forall|vs: Seq<NoteView>| b@ == enc_vault(vs) implies false by {}
            }
            return Err(e);
        },
    }
    if count > (usize::MAX as u64) {
        proof {
            assert forall|vs: Seq<NoteView>| b@ == enc_vault(vs) implies false by {}
        }
        return Err(VaultError::FormatError);
    }
    let n = count as usize;
    proof {
        assert forall|vs: Seq<NoteView>| b@ == #[trigger] enc_vault(vs) implies vs.len() == n
            && views_of(Seq::<Note>::empty()) == vs.take(0) && j0 as int == 21 + enc_notes(
            vs.take(0),
        ).len() && fits(b@, j0 as int, enc_notes(vs.skip(0))) by {
            assert(views_of(Seq::<Note>::empty()) =~= vs.take(0));
            assert(vs.take(0) =~= Seq::<NoteView>::empty());
            assert(vs.skip(0) =~= vs);
            assert(b@.subrange(0, b@.len() as int) =~= b@);
            assert(fits(b@, 0, enc_vault(vs)));
            lemma_fits_concat(b@, 0, enc_num(vs.len() as int), enc_notes(vs));
        }
        assert(views_of(Seq::<Note>::empty()) =~= Seq::<NoteView>::empty());
        assert(b@.subrange(0, j0 as int) == enc_u64(count));
        assert(enc_notes(views_of(Seq::<Note>::empty())) =~= Seq::<u8>::empty());
        assert(b@.subrange(0, j0 as int) =~= enc_num(n as int) + enc_notes(
            views_of(Seq::<Note>::empty()),
        ));
    }
    let mut notes: Vec<Note> = Vec::new();
    let mut j: usize = j0;
    let mut k: usize = 0;
    while k < n
        invariant
            0 <= k <= n,
            j <= b@.len(),
            b@.len() <= usize::MAX,
            notes@.len() == k,
            b@.subrange(0, j as int) == enc_num(n as int) + enc_notes(views_of(notes@)),
            forall|vs: Seq<NoteView>| b@ == #[trigger] enc_vault(vs) ==> (vs.len() == n
                && views_of(notes@) == vs.take(k as int) && j as int == 21 + enc_notes(
                vs.take(k as int),
            ).len() && fits(b@, j as int, enc_notes(vs.skip(k as int)))),
        decreases n - k,
    {
        proof {
            assert forall|vs: Seq<NoteView>| b@ == #[trigger] enc_vault(vs) implies fits(
                b@,
                j as int,
                enc_note(vs[k as int]),
            ) && fits(
                b@,
                j + enc_note(vs[k as int]).len(),
                enc_notes(vs.skip(k + 1)),
            ) by {
                let tl = vs.skip(k as int);
                assert(tl[0] == vs[k as int]);
                assert(tl.drop_first() =~= vs.skip(k + 1));
                assert(enc_notes(tl) == enc_note(vs[k as int]) + enc_notes(vs.skip(k + 1)));
                lemma_fits_concat(b@, j as int, enc_note(vs[k as int]), enc_notes(vs.skip(k + 1)));
            }
        }
        let note: Note;
        let j2: usize;
        match parse_note(b, j) {
            Ok(p) => {
                note = p.0;
                j2 = p.1;
            },
            Err(e) => {
                proof {
                    assert forall|vs: Seq<NoteView>| b@ == enc_vault(vs) implies false by {}
                }
                return Err(e);
            },
        }
        let ghost old_notes = notes@;
        notes.push(note);
        proof {
            assert(views_of(notes@) =~= views_of(old_notes).push(note@));
            lemma_enc_notes_snoc(views_of(old_notes), note@);
            assert(fits(b@, 0, enc_num(n as int) + enc_notes(views_of(old_notes)))) by {
                assert((enc_num(n as int) + enc_notes(views_of(old_notes))).len() == j as int);
                assert(b@.subrange(0, j as int) == enc_num(n as int) + enc_notes(
                    views_of(old_notes),
                ));
            }
            assert(fits(b@, j as int, enc_note(note@))) by {
                assert(b@.subrange(j as int, j2 as int) == enc_note(note@));
            }
            lemma_fits_join(
                b@,
                0,
                enc_num(n as int) + enc_notes(views_of(old_notes)),
                enc_note(note@),
            );
            assert(b@.subrange(0, j2 as int) =~= enc_num(n as int) + enc_notes(views_of(notes@)));
            assert forall|vs: Seq<NoteView>| b@ == #[trigger] enc_vault(vs) implies (vs.len() == n
                && views_of(notes@) == vs.take(k + 1) && j2 as int == 21 + enc_notes(
                vs.take(k + 1),
            ).len() && fits(b@, j2 as int, enc_notes(vs.skip(k + 1)))) by {
                assert(note@ == vs[k as int]);
                assert(vs.take(k + 1) =~= vs.take(k as int).push(vs[k as int]));
                lemma_enc_notes_snoc(vs.take(k as int), vs[k as int]);
                assert(views_of(notes@) =~= vs.take(k + 1));
            }
        }
        j = j2;
        k = k + 1;
    }
    if j != blen {
        proof {
            assert forall|vs: Seq<NoteView>| b@ == enc_vault(vs) implies false by {
                assert(vs.take(n as int) =~= vs);
                assert(j as int == 21 + enc_notes(vs).len());
                assert(b@.len() == enc_vault(vs).len());
            }
        }
        return Err(VaultError::FormatError);
    }
    let v = Vault { notes };
    proof {
        assert(b@.subrange(0, b@.len() as int) =~= b@);
        assert(v@ == views_of(v.notes@));
        assert(v@.len() == k);
        assert(b@ == enc_vault(v@));
        assert forall|vs: Seq<NoteView>| b@ == #[trigger] enc_vault(vs) implies v@ == vs by {
            assert(vs.take(n as int) =~= vs);
        }
    }
    Ok(v)
}

/// Lower-cases one ASCII letter; other bytes are unchanged.
pub open spec fn ascii_lower(c: u8) -> u8 {
    if 65 <= c <= 90 {
        (c + 32) as u8
    } else {
        c
    }
}

/// Byte strings that agree up to ASCII letter case.
pub open spec fn eq_ignore_case(a: Seq<u8>, b: Seq<u8>) -> bool {
    a.len() == b.len() && forall|k: int|
        0 <= k < a.len() ==> ascii_lower(#[trigger] a[k]) == ascii_lower(b[k])
}

/// A query matches a note on its exact identifier or its title up to case.
pub open spec fn note_matches(n: NoteView, q: Seq<u8>) -> bool {
    n.id == q || eq_ignore_case(n.title, q)
}

pub open spec fn id_matches(n: NoteView, id: Seq<u8>) -> bool {
    n.id == id
}

fn lower_byte(c: u8) -> (r: u8)
    ensures
        r == ascii_lower(c),
{
    if 65 <= c && c <= 90 {
        c + 32
    } else {
        c
    }
}

fn bytes_eq(a: &Vec<u8>, b: &Vec<u8>) -> (r: bool)
    ensures
        r == (a@ == b@),
{
    if a.len() != b.len() {
        return false;
    }
    let mut k: usize = 0;
    while k < a.len()
        invariant
            0 <= k <= a@.len(),
            a@.len() == b@.len(),
            forall|j: int| 0 <= j < k ==> a@[j] == b@[j],
        decreases a@.len() - k,
    {
        if a[k] != b[k] {
            return false;
        }
        k = k + 1;
    }
    proof {
        assert(a@ =~= b@);
    }
    true
}

fn bytes_eq_ignore_case(a: &Vec<u8>, b: &Vec<u8>) -> (r: bool)
    ensures
        r == eq_ignore_case(a@, b@),
{
    if a.len() != b.len() {
        return false;
    }
    let mut k: usize = 0;
    while k < a.len()
        invariant
            0 <= k <= a@.len(),
            a@.len() == b@.len(),
            forall|j: int| 0 <= j < k ==> ascii_lower(#[trigger] a@[j]) == ascii_lower(b@[j]),
        decreases a@.len() - k,
    {
        if lower_byte(a[k]) != lower_byte(b[k]) {
            return false;
        }
        k = k + 1;
    }
    true
}

impl Vault {
    /// The index of the first note that `q` matches by identifier or by
    /// case-insensitive title, if any.
    pub fn find_note(&self, q: &Vec<u8>) -> (r: Option<usize>)
        ensures
            match r {
                Some(idx) => idx < self@.len() && note_matches(self@[idx as int], q@) && forall|j:
                    int| 0 <= j < idx ==> !note_matches(self@[j], q@),
                None => forall|j: int| 0 <= j < self@.len() ==> !note_matches(self@[j], q@),
            },
    {
        let mut k: usize = 0;
        while k < self.notes.len()
            invariant
                0 <= k <= self.notes@.len(),
                self@ == views_of(self.notes@),
                self@.len() == self.notes@.len(),
                forall|j: int| 0 <= j < k ==> !note_matches(self@[j], q@),
            decreases self.notes@.len() - k,
        {
            let hit_id = bytes_eq(&self.notes[k].id, q);
            let hit_title = bytes_eq_ignore_case(&self.notes[k].title, q);
            if hit_id || hit_title {
                proof {
                    assert(self@[k as int] == self.notes@[k as int]@);
                }
                return Some(k);
            }
            k = k + 1;
            proof {
                assert(self@[k - 1] == self.notes@[k - 1]@);
            }
        }
        None
    }

    /// The index of the first note whose identifier is exactly `id`, if any.
    pub fn find_by_id(&self, id: &Vec<u8>) -> (r: Option<usize>)
        ensures
            match r {
                Some(idx) => idx < self@.len() && id_matches(self@[idx as int], id@) && forall|j:
                    int| 0 <= j < idx ==> !id_matches(self@[j], id@),
                None => forall|j: int| 0 <= j < self@.len() ==> !id_matches(self@[j], id@),
            },
    {
        let mut k: usize = 0;
        while k < self.notes.len()
            invariant
                0 <= k <= self.notes@.len(),
                self@ == views_of(self.notes@),
                self@.len() == self.notes@.len(),
                forall|j: int| 0 <= j < k ==> !id_matches(self@[j], id@),
            decreases self.notes@.len() - k,
        {
            if bytes_eq(&self.notes[k].id, id) {
                proof {
                    assert(self@[k as int] == self.notes@[k as int]@);
                }
                return Some(k);
            }
            k = k + 1;
            proof {
                assert(self@[k - 1] == self.notes@[k - 1]@);
            }
        }
        None
    }
}

} // verus!

use vstd::prelude::*;

use crate::errors::VaultError;

verus! {

/// Ten raised to `w`.
pub open spec fn pow10(w: nat) -> int
    decreases w,
{
    if w == 0 {
        1
    } else {
        10 * pow10((w - 1) as nat)
    }
}

/// The `w` low decimal digits of `n`, most significant first, as ASCII bytes.
pub open spec fn dec_digits(n: int, w: nat) -> Seq<u8>
    decreases w,
{
    if w == 0 {
        Seq::empty()
    } else {
        dec_digits(n / 10, (w - 1) as nat) + seq![(48 + n % 10) as u8]
    }
}

/// A number is encoded as exactly twenty decimal digits followed by a newline.
pub open spec fn enc_num(n: int) -> Seq<u8> {
    dec_digits(n, 20) + seq![10u8]
}

pub open spec fn enc_u64(n: u64) -> Seq<u8> {
    enc_num(n as int)
}

/// A byte field is encoded as its length, then its bytes, then a newline.
pub open spec fn enc_field(b: Seq<u8>) -> Seq<u8> {
    enc_num(b.len() as int) + b + seq![10u8]
}

/// `p` occurs in `b` at offset `i`.
pub open spec fn fits(b: Seq<u8>, i: int, p: Seq<u8>) -> bool {
    0 <= i && i + p.len() <= b.len() && b.subrange(i, i + p.len()) == p
}

pub open spec fn all_digits(s: Seq<u8>) -> bool {
    forall|k: int| 0 <= k < s.len() ==> 48 <= #[trigger] s[k] <= 57
}

/// The numeric value of a string of ASCII digits.
pub open spec fn val(s: Seq<u8>) -> int
    decreases s.len(),
{
    if s.len() == 0 {
        0
    } else {
        val(s.drop_last()) * 10 + (s.last() - 48)
    }
}

pub broadcast proof fn lemma_dec_digits_len(n: int, w: nat)
    ensures
        (#[trigger] dec_digits(n, w)).len() == w,
    decreases w,
{
    if w != 0 {
        lemma_dec_digits_len(n / 10, (w - 1) as nat);
    }
}

pub proof fn lemma_pow10_pos(w: nat)
    ensures
        pow10(w) >= 1,
    decreases w,
{
    if w != 0 {
        lemma_pow10_pos((w - 1) as nat);
    }
}

pub proof fn lemma_pow10_20()
    ensures
        pow10(20) == 100_000_000_000_000_000_000int,
{
    assert(pow10(0) == 1);
    assert(pow10(1) == 10);
    assert(pow10(2) == 100);
    assert(pow10(3) == 1000);
    assert(pow10(4) == 10000);
    assert(pow10(5) == 100000);
    assert(pow10(6) == 1000000);
    assert(pow10(7) == 10000000);
    assert(pow10(8) == 100000000);
    assert(pow10(9) == 1000000000);
    assert(pow10(10) == 10000000000);
    assert(pow10(11) == 100000000000);
    assert(pow10(12) == 1000000000000);
    assert(pow10(13) == 10000000000000);
    assert(pow10(14) == 100000000000000);
    assert(pow10(15) == 1000000000000000);
    assert(pow10(16) == 10000000000000000);
    assert(pow10(17) == 100000000000000000);
    assert(pow10(18) == 1000000000000000000);
    assert(pow10(19) == 10000000000000000000);
    assert(pow10(20) == 100000000000000000000);
}

pub proof fn lemma_dec_digits_are_digits(n: int, w: nat)
    requires
        n >= 0,
    ensures
        all_digits(dec_digits(n, w)),
    decreases w,
{
    broadcast use lemma_dec_digits_len;

    if w != 0 {
        lemma_dec_digits_are_digits(n / 10, (w - 1) as nat);
        let s = dec_digits(n, w);
        let p = dec_digits(n / 10, (w - 1) as nat);
        assert forall|k: int| 0 <= k < s.len() implies 48 <= #[trigger] s[k] <= 57 by {
            if k < p.len() {
                assert(s[k] == p[k]);
            } else {
                assert(s[k] == (48 + n % 10) as u8);
            }
        }
    }
}

pub proof fn lemma_val_bounds(s: Seq<u8>)
    requires
        all_digits(s),
    ensures
        0 <= val(s) < pow10(s.len()),
    decreases s.len(),
{
    if s.len() != 0 {
        let p = s.drop_last();
        assert(all_digits(p)) by {
            assert forall|k: int| 0 <= k < p.len() implies 48 <= #[trigger] p[k] <= 57 by {
                assert(p[k] == s[k]);
            }
        }
        lemma_val_bounds(p);
        let d = s.last() - 48;
        assert(0 <= d < 10);
        assert(val(p) * 10 + d < 10 * pow10(p.len())) by (nonlinear_arith)
            requires
                val(p) < pow10(p.len()),
                d < 10,
        ;
        assert(val(p) * 10 + d >= 0) by (nonlinear_arith)
            requires
                val(p) >= 0,
                d >= 0,
        ;
    }
}

pub proof fn lemma_val_of_dec_digits(n: int, w: nat)
    requires
        0 <= n < pow10(w),
    ensures
        val(dec_digits(n, w)) == n,
    decreases w,
{
    broadcast use lemma_dec_digits_len;

    if w == 0 {
    } else {
        lemma_pow10_pos((w - 1) as nat);
        assert(n / 10 < pow10((w - 1) as nat)) by (nonlinear_arith)
            requires
                0 <= n < 10 * pow10((w - 1) as nat),
                pow10((w - 1) as nat) >= 1,
        ;
        lemma_val_of_dec_digits(n / 10, (w - 1) as nat);
        let p = dec_digits(n / 10, (w - 1) as nat);
        let s = dec_digits(n, w);
        assert(s.drop_last() =~= p);
        assert(s.last() == (48 + n % 10) as u8);
        assert(val(s) == val(p) * 10 + (n % 10));
    }
}

pub proof fn lemma_dec_digits_of_val(s: Seq<u8>)
    requires
        all_digits(s),
    ensures
        dec_digits(val(s), s.len()) == s,
    decreases s.len(),
{
    broadcast use lemma_dec_digits_len;

    if s.len() == 0 {
        assert(dec_digits(val(s), 0) =~= s);
    } else {
        let p = s.drop_last();
        assert(all_digits(p)) by {
            assert forall|k: int| 0 <= k < p.len() implies 48 <= #[trigger] p[k] <= 57 by {
                assert(p[k] == s[k]);
            }
        }
        lemma_dec_digits_of_val(p);
        lemma_val_bounds(p);
        let d = s.last() - 48;
        assert(0 <= d < 10);
        assert(val(s) == val(p) * 10 + d);
        assert(val(s) / 10 == val(p) && val(s) % 10 == d) by (nonlinear_arith)
            requires
                val(s) == val(p) * 10 + d,
                0 <= d < 10,
                val(p) >= 0,
        ;
        assert(dec_digits(val(s), s.len()) == dec_digits(val(p), (s.len() - 1) as nat) + seq![
            (48 + d) as u8,
        ]);
        assert((48 + d) as u8 == s.last());
        assert(dec_digits(val(s), s.len()) =~= s);
    }
}

pub proof fn lemma_val_take_step(s: Seq<u8>, k: int)
    requires
        0 <= k < s.len(),
    ensures
        val(s.take(k + 1)) == val(s.take(k)) * 10 + (s[k] - 48),
{
    assert(s.take(k + 1).drop_last() =~= s.take(k));
    assert(s.take(k + 1).last() == s[k]);
}

pub proof fn lemma_val_take_le(s: Seq<u8>, k: int)
    requires
        all_digits(s),
        0 <= k <= s.len(),
    ensures
        val(s.take(k)) <= val(s),
    decreases s.len() - k,
{
    if k == s.len() {
        assert(s.take(k) =~= s);
    } else {
        lemma_val_take_le(s, k + 1);
        lemma_val_take_step(s, k);
        let t = s.take(k);
        assert(all_digits(t)) by {
            assert forall|j: int| 0 <= j < t.len() implies 48 <= #[trigger] t[j] <= 57 by {
                assert(t[j] == s[j]);
            }
        }
        lemma_val_bounds(t);
        assert(val(t) <= val(t) * 10 + (s[k] - 48)) by (nonlinear_arith)
            requires
                val(t) >= 0,
                s[k] >= 48,
        ;
    }
}

pub proof fn lemma_fits_concat(b: Seq<u8>, i: int, x: Seq<u8>, y: Seq<u8>)
    requires
        fits(b, i, x + y),
    ensures
        fits(b, i, x),
        fits(b, i + x.len(), y),
{
    let xy = x + y;
    assert forall|k: int| 0 <= k < x.len() implies b.subrange(i, i + x.len())[k] == x[k] by {
        assert(b.subrange(i, i + xy.len())[k] == xy[k]);
    }
    assert(b.subrange(i, i + x.len()) =~= x);
    assert forall|k: int| 0 <= k < y.len() implies b.subrange(
        i + x.len(),
        i + x.len() + y.len(),
    )[k] == y[k] by {
        assert(b.subrange(i, i + xy.len())[x.len() + k] == xy[x.len() + k]);
    }
    assert(b.subrange(i + x.len(), i + x.len() + y.len()) =~= y);
}

pub proof fn lemma_fits_join(b: Seq<u8>, i: int, x: Seq<u8>, y: Seq<u8>)
    requires
        fits(b, i, x),
        fits(b, i + x.len(), y),
    ensures
        fits(b, i, x + y),
{
    assert forall|k: int| 0 <= k < x.len() + y.len() implies b[i + k] == (x + y)[k] by {
        if k < x.len() {
            assert(b.subrange(i, i + x.len())[k] == x[k]);
        } else {
            assert(b.subrange(i + x.len(), i + x.len() + y.len())[k - x.len()] == y[k - x.len()]);
        }
    }
    assert(b.subrange(i, i + x.len() + y.len()) =~= x + y);
}

/// Copies `b[from..to]` into a fresh vector.
pub fn copy_range(b: &Vec<u8>, from: usize, to: usize) -> (r: Vec<u8>)
    requires
        from <= to,
        to <= b@.len(),
    ensures
        r@ == b@.subrange(from as int, to as int),
{
    let mut r: Vec<u8> = Vec::new();
    let mut k: usize = from;
    proof {
        assert(r@ =~= b@.subrange(from as int, from as int));
    }
    while k < to
        invariant
            from <= k <= to,
            to <= b@.len(),
            r@ == b@.subrange(from as int, k as int),
        decreases to - k,
    {
        r.push(b[k]);
        k = k + 1;
        proof {
            assert(b@.subrange(from as int, k as int) =~= b@.subrange(from as int, k - 1) + seq![
                b@[k - 1],
            ]);
        }
    }
    r
}

/// Appends the encoding of `n` to `out`.
pub fn write_num(out: &mut Vec<u8>, n: u64)
    ensures
        final(out)@ == old(out)@ + enc_u64(n),
{
    push_digits(out, n, 20);
    out.push(10u8);
    proof {
        assert(out@ =~= old(out)@ + enc_u64(n));
    }
}

fn push_digits(out: &mut Vec<u8>, n: u64, w: usize)
    ensures
        final(out)@ == old(out)@ + dec_digits(n as int, w as nat),
    decreases w,
{
    if w > 0 {
        push_digits(out, n / 10, w - 1);
        out.push((48 + (n % 10)) as u8);
        proof {
            assert((n / 10) as int == n as int / 10);
            assert((n % 10) as int == n as int % 10);
            assert(out@ =~= old(out)@ + dec_digits(n as int, w as nat));
        }
    } else {
        proof {
            assert(dec_digits(n as int, 0) =~= Seq::<u8>::empty());
            assert(out@ =~= old(out)@ + dec_digits(n as int, 0));
        }
    }
}

/// Appends the encoding of the byte field `data` to `out`.
pub fn write_field(out: &mut Vec<u8>, data: &Vec<u8>)
    ensures
        final(out)@ == old(out)@ + enc_field(data@),
{
    write_num(out, data.len() as u64);
    let ghost mid = out@;
    let mut k: usize = 0;
    while k < data.len()
        invariant
            0 <= k <= data@.len(),
            out@ == mid + data@.take(k as int),
        decreases data@.len() - k,
    {
        out.push(data[k]);
        k = k + 1;
        proof {
            assert(data@.take(k as int) =~= data@.take(k - 1) + seq![data@[k - 1]]);
            assert(out@ =~= mid + data@.take(k as int));
        }
    }
    out.push(10u8);
    proof {
        assert(data@.take(data@.len() as int) =~= data@);
        assert(out@ =~= old(out)@ + enc_field(data@));
    }
}

/// Parses one encoded number at offset `i` of `b`.
pub fn parse_num(b: &Vec<u8>, i: usize) -> (r: Result<(u64, usize), VaultError>)
    requires
        i <= b@.len(),
    ensures
        r matches Ok(p) ==> i + 21 <= b@.len() && p.1 == i + 21 && b@.subrange(i as int, i + 21)
            == enc_u64(p.0),
        forall|n: u64| #[trigger] fits(b@, i as int, enc_u64(n)) ==> (r matches Ok(p) && p.0 == n
            && p.1 == i + 21),
{
    broadcast use lemma_dec_digits_len;

    if b.len() - i < 21 {
        proof {
            assert forall|n: u64| fits(b@, i as int, enc_u64(n)) implies false by {}
        }
        return Err(VaultError::FormatError);
    }
    let mut acc: u64 = 0;
    let mut k: usize = 0;
    proof {
        assert(b@.subrange(i as int, i as int) =~= Seq::<u8>::empty());
        assert forall|n: u64| #[trigger] fits(b@, i as int, enc_u64(n)) implies acc == val(
            dec_digits(n as int, 20).take(0),
        ) by {
            assert(dec_digits(n as int, 20).take(0) =~= Seq::<u8>::empty());
        }
    }
    while k < 20
        invariant
            0 <= k <= 20,
            i + 21 <= b@.len(),
            b@.len() <= usize::MAX,
            all_digits(b@.subrange(i as int, i + k)),
            acc == val(b@.subrange(i as int, i + k)),
            forall|n: u64| #[trigger] fits(b@, i as int, enc_u64(n)) ==> acc == val(
                dec_digits(n as int, 20).take(k as int),
            ),
        decreases 20 - k,
    {
        let c = b[i + k];
        proof {
            assert forall|n: u64| #[trigger] fits(b@, i as int, enc_u64(n)) implies c
                == dec_digits(n as int, 20)[k as int] && 48 <= c <= 57 by {
                lemma_dec_digits_len(n as int, 20);
                lemma_dec_digits_are_digits(n as int, 20);
                assert(enc_u64(n).len() == 21);
                assert(b@.subrange(i as int, i + 21) == enc_u64(n));
                assert(b@.subrange(i as int, i + 21)[k as int] == b@[i + k]);
                assert(enc_u64(n)[k as int] == dec_digits(n as int, 20)[k as int]);
            }
        }
        if c < 48 || c > 57 {
            proof {
                assert forall|n: u64| fits(b@, i as int, enc_u64(n)) implies false by {}
            }
            return Err(VaultError::FormatError);
        }
        let d = (c - 48) as u64;
        proof {
            assert forall|n: u64| #[trigger] fits(b@, i as int, enc_u64(n)) implies acc * 10 + d
                <= n by {
                let dd = dec_digits(n as int, 20);
                lemma_dec_digits_len(n as int, 20);
                lemma_dec_digits_are_digits(n as int, 20);
                lemma_val_take_step(dd, k as int);
                lemma_val_take_le(dd, k + 1);
                lemma_pow10_20();
                lemma_val_of_dec_digits(n as int, 20);
            }
        }
        if acc > (0xffff_ffff_ffff_ffffu64 - d) / 10 {
            proof {
                assert forall|n: u64| fits(b@, i as int, enc_u64(n)) implies false by {
                    assert(acc * 10 + d <= n);
                    assert(acc <= (0xffff_ffff_ffff_ffff - d as int) / 10) by (nonlinear_arith)
                        requires
                            acc * 10 + d <= 0xffff_ffff_ffff_ffff,
                            0 <= d <= 9,
                            acc >= 0,
                    ;
                }
            }
            return Err(VaultError::FormatError);
        }
        proof {
            assert(acc * 10 + d <= 0xffff_ffff_ffff_ffff) by (nonlinear_arith)
                requires
                    acc <= (0xffff_ffff_ffff_ffffu64 - d) as int / 10,
                    0 <= d <= 9,
                    acc >= 0,
            ;
        }
        let ghost old_acc = acc;
        acc = acc * 10 + d;
        k = k + 1;
        proof {
            let cur = b@.subrange(i as int, i + k);
            assert(cur.drop_last() =~= b@.subrange(i as int, i + k - 1));
            assert(cur.last() == b@[i + k - 1]);
            assert forall|j: int| 0 <= j < cur.len() implies 48 <= #[trigger] cur[j] <= 57 by {
                if j < k - 1 {
                    assert(cur[j] == b@.subrange(i as int, i + k - 1)[j]);
                }
            }
            assert forall|n: u64| #[trigger] fits(b@, i as int, enc_u64(n)) implies acc == val(
                dec_digits(n as int, 20).take(k as int),
            ) by {
                let dd = dec_digits(n as int, 20);
                lemma_dec_digits_len(n as int, 20);
                lemma_val_take_step(dd, k - 1);
                assert(b@.subrange(i as int, i + 21)[k - 1] == b@[i + k - 1]);
                assert(enc_u64(n)[k - 1] == dd[k - 1]);
                assert(dd[k - 1] == c);
                assert(old_acc == val(dd.take(k - 1)));
            }
        }
    }
    if b[i + 20] != 10 {
        proof {
            assert forall|n: u64| fits(b@, i as int, enc_u64(n)) implies false by {
                assert(b@.subrange(i as int, i + 21)[20] == b@[i + 20]);
                assert(enc_u64(n)[20] == 10u8);
            }
        }
        return Err(VaultError::FormatError);
    }
    proof {
        let s = b@.subrange(i as int, i + 20);
        lemma_dec_digits_of_val(s);
        lemma_val_bounds(s);
        assert(b@.subrange(i as int, i + 21) =~= s + seq![10u8]);
        assert(b@.subrange(i as int, i + 21) == enc_u64(acc));
        assert forall|n: u64| #[trigger] fits(b@, i as int, enc_u64(n)) implies n == acc by {
            assert(dec_digits(n as int, 20) =~= s) by {
                assert forall|j: int| 0 <= j < 20 implies dec_digits(n as int, 20)[j] == s[j] by {
                    assert(b@.subrange(i as int, i + 21)[j] == b@[i + j]);
                    assert(enc_u64(n)[j] == dec_digits(n as int, 20)[j]);
                    assert(s[j] == b@[i + j]);
                }
            }
            lemma_pow10_20();
            lemma_val_of_dec_digits(n as int, 20);
        }
    }
    Ok((acc, i + 21))
}

/// Parses one encoded byte field at offset `i` of `b`.
pub fn parse_field(b: &Vec<u8>, i: usize) -> (r: Result<(Vec<u8>, usize), VaultError>)
    requires
        i <= b@.len(),
    ensures
        r matches Ok(p) ==> p.1 <= b@.len() && p.1 == i + 22 + p.0@.len() && b@.subrange(
            i as int,
            p.1 as int,
        ) == enc_field(p.0@),
        forall|x: Seq<u8>| #[trigger] fits(b@, i as int, enc_field(x)) ==> (r matches Ok(p) && p.0@
            == x && p.1 == i + 22 + x.len()),
{
    broadcast use lemma_dec_digits_len;

    let blen = b.len();
    proof {
        assert forall|x: Seq<u8>| #[trigger] fits(b@, i as int, enc_field(x)) implies fits(
            b@,
            i as int,
            enc_u64(x.len() as u64),
        ) && fits(b@, i + 21, x + seq![10u8]) && x.len() < 0x1_0000_0000_0000_0000 by {
            assert(enc_field(x).len() == 22 + x.len());
            assert(x.len() + 22 <= blen);
            assert((x.len() as u64) as int == x.len() as int);
            assert(enc_field(x) =~= enc_u64(x.len() as u64) + (x + seq![10u8]));
            lemma_fits_concat(b@, i as int, enc_u64(x.len() as u64), x + seq![10u8]);
        }
    }
    let m: u64;
    let j: usize;
    match parse_num(b, i) {
        Ok(p) => {
            m = p.0;
            j = p.1;
        },
        Err(e) => {
            return Err(e);
        },
    }
    let rem = b.len() - j;
    proof {
        assert forall|x: Seq<u8>| #[trigger] fits(b@, i as int, enc_field(x)) implies x.len() == m
            && x.len() < rem by {
            assert(fits(b@, i as int, enc_u64(x.len() as u64)));
        }
    }
    if m >= rem as u64 {
        proof {
            assert forall|x: Seq<u8>| fits(b@, i as int, enc_field(x)) implies false by {}
        }
        return Err(VaultError::FormatError);
    }
    let l = m as usize;
    let v = copy_range(b, j, j + l);
    proof {
        assert forall|x: Seq<u8>| #[trigger] fits(b@, i as int, enc_field(x)) implies v@ == x && b@[
            j + l
        ] == 10u8 by {
            lemma_fits_concat(b@, i + 21, x, seq![10u8]);
            assert(b@.subrange(i + 21, i + 21 + x.len()) == x);
            assert(v@ =~= x);
            assert(b@.subrange(i + 21 + x.len(), i + 21 + x.len() + 1)[0] == 10u8);
        }
    }
    if b[j + l] != 10 {
        proof {
            assert forall|x: Seq<u8>| fits(b@, i as int, enc_field(x)) implies false by {}
        }
        return Err(VaultError::FormatError);
    }
    proof {
        assert(b@.subrange(j as int, j + l) == v@);
        assert(b@.subrange(i as int, i + 22 + l) =~= enc_u64(m) + v@ + seq![10u8]);
        assert(enc_field(v@) =~= enc_u64(m) + v@ + seq![10u8]);
    }
    Ok((v, j + l + 1))
}

} // verus!

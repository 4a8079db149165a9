//! Decimal byte encoding of integers: the number layer of the persisted
//! JSON document. Encoding is canonical (no sign on zero, no leading
//! zeros), and parsing is proved to invert it exactly.

use vstd::prelude::*;
use crate::store_model::{lead_len, lemma_lead_len_is, lemma_lead_len_props};

verus! {

/// An ASCII decimal digit.
pub open spec fn is_digit(c: u8) -> bool {
    48 <= c <= 57
}

pub open spec fn digit_pred() -> spec_fn(u8) -> bool {
    |c: u8| is_digit(c)
}

/// The decimal digits of a non-negative number, most significant first.
pub open spec fn dec_digits(n: nat) -> Seq<u8>
    decreases n,
{
    if n < 10 {
        seq![(48 + n) as u8]
    } else {
        dec_digits(n / 10) + seq![(48 + n % 10) as u8]
    }
}

/// The canonical decimal encoding of an integer.
pub open spec fn enc_int(v: int) -> Seq<u8> {
    if v < 0 {
        seq![45u8] + dec_digits((-v) as nat)
    } else {
        dec_digits(v as nat)
    }
}

/// The value of a digit sequence read as a decimal number.
pub open spec fn digits_val(s: Seq<u8>) -> int
    decreases s.len(),
{
    if s.len() == 0 {
        0
    } else {
        digits_val(s.drop_last()) * 10 + (s.last() - 48)
    }
}

pub proof fn lemma_dec_digits_are_digits(n: nat)
    ensures
        dec_digits(n).len() >= 1,
        forall|i: int| 0 <= i < dec_digits(n).len() ==> is_digit(#[trigger] dec_digits(n)[i]),
        n >= 1 ==> dec_digits(n)[0] != 48,
        n < 10 ==> dec_digits(n).len() == 1,
    decreases n,
{
    if n >= 10 {
        lemma_dec_digits_are_digits(n / 10);
        assert forall|i: int| 0 <= i < dec_digits(n).len() implies is_digit(
            #[trigger] dec_digits(n)[i],
        ) by {
            if i < dec_digits(n / 10).len() {
                assert(dec_digits(n)[i] == dec_digits(n / 10)[i]);
            }
        }
        assert(dec_digits(n)[0] == dec_digits(n / 10)[0]);
    }
}

pub proof fn lemma_digits_val_of_dec(n: nat)
    ensures
        digits_val(dec_digits(n)) == n,
    decreases n,
{
    if n < 10 {
        assert(dec_digits(n) =~= seq![(48 + n) as u8]);
        assert(dec_digits(n).drop_last() =~= Seq::<u8>::empty());
        assert((48 + n) as u8 == 48 + n);
        assert(digits_val(Seq::<u8>::empty()) == 0);
        assert(digits_val(dec_digits(n)) == digits_val(dec_digits(n).drop_last()) * 10 + (
        dec_digits(n).last() - 48));
        assert(digits_val(dec_digits(n).drop_last()) == 0);
        assert(dec_digits(n).last() == 48 + n);
    } else {
        lemma_digits_val_of_dec(n / 10);
        assert(dec_digits(n).drop_last() =~= dec_digits(n / 10));
        assert(dec_digits(n).last() == (48 + n % 10) as u8);
        assert((48 + n % 10) as u8 == 48 + n % 10);
        assert(digits_val(dec_digits(n)) == digits_val(dec_digits(n).drop_last()) * 10 + (
        dec_digits(n).last() - 48));
        assert(digits_val(dec_digits(n)) == (n / 10) * 10 + n % 10);
        assert((n / 10) * 10 + n % 10 == n);
    }
}

/// Reading one more digit multiplies the value by ten and adds it; the
/// value of a digit prefix never shrinks as it grows.
pub proof fn lemma_digits_val_nonneg(s: Seq<u8>, i: int)
    requires
        0 <= i <= s.len(),
        forall|k: int| 0 <= k < s.len() ==> is_digit(#[trigger] s[k]),
    ensures
        digits_val(s.take(i)) >= 0,
    decreases i,
{
    if i > 0 {
        lemma_digits_val_nonneg(s, i - 1);
        assert(s.take(i).drop_last() =~= s.take(i - 1));
        assert(s.take(i).last() == s[i - 1]);
    }
}

pub proof fn lemma_digits_val_mono(s: Seq<u8>, i: int, j: int)
    requires
        0 <= i <= j <= s.len(),
        forall|k: int| 0 <= k < s.len() ==> is_digit(#[trigger] s[k]),
    ensures
        0 <= digits_val(s.take(i)) <= digits_val(s.take(j)),
    decreases j - i,
{
    lemma_digits_val_nonneg(s, i);
    if j > i {
        lemma_digits_val_mono(s, i, j - 1);
        lemma_digits_val_nonneg(s, j - 1);
        assert(s.take(j).drop_last() =~= s.take(j - 1));
        assert(s.take(j).last() == s[j - 1]);
    }
}

/// The digit run at the head of an encoding followed by a non-digit is the
/// encoding itself.
pub proof fn lemma_digit_run(d: Seq<u8>, rest: Seq<u8>)
    requires
        forall|i: int| 0 <= i < d.len() ==> is_digit(#[trigger] d[i]),
        rest.len() == 0 || !is_digit(rest[0]),
    ensures
        lead_len(d + rest, digit_pred()) == d.len(),
{
    let b = d + rest;
    assert forall|i: int| 0 <= i < d.len() implies digit_pred()(#[trigger] b[i]) by {
        assert(b[i] == d[i]);
    }
    if d.len() < b.len() {
        assert(b[d.len() as int] == rest[0]);
    }
    lemma_lead_len_is(b, digit_pred(), d.len() as int);
}

// ---------------------------------------------------------------------------
// Parsing
// ---------------------------------------------------------------------------

/// Parses an unsigned decimal at the head of `b`: the value and the number
/// of bytes consumed. Rejects an empty run, a redundant leading zero, and a
/// value over `u64::MAX`.
pub open spec fn spec_parse_u64(b: Seq<u8>) -> Option<(u64, int)> {
    let n = lead_len(b, digit_pred());
    if n == 0 {
        None
    } else if n > 1 && b[0] == 48 {
        None
    } else if digits_val(b.take(n)) > u64::MAX {
        None
    } else {
        Some((digits_val(b.take(n)) as u64, n))
    }
}

/// Parses a signed decimal at the head of `b` into an `i64`. A sign is
/// accepted only on a strictly negative value that fits.
pub open spec fn spec_parse_i64(b: Seq<u8>) -> Option<(i64, int)> {
    if b.len() > 0 && b[0] == 45 {
        let t = b.skip(1);
        let n = lead_len(t, digit_pred());
        if n == 0 {
            None
        } else if n > 1 && t[0] == 48 {
            None
        } else if digits_val(t.take(n)) == 0 || digits_val(t.take(n)) > 0x8000_0000_0000_0000 {
            None
        } else {
            Some(((-digits_val(t.take(n))) as i64, n + 1))
        }
    } else {
        match spec_parse_u64(b) {
            None => None,
            Some((v, n)) => if v > i64::MAX as u64 {
                None
            } else {
                Some((v as i64, n))
            },
        }
    }
}

/// Parsing inverts encoding: an unsigned encoding followed by a non-digit
/// parses back to the value.
pub proof fn lemma_parse_enc_u64(v: u64, rest: Seq<u8>)
    requires
        rest.len() == 0 || !is_digit(rest[0]),
    ensures
        spec_parse_u64(dec_digits(v as nat) + rest) == Some::<(u64, int)>(
            (v, dec_digits(v as nat).len() as int),
        ),
{
    let d = dec_digits(v as nat);
    let b = d + rest;
    lemma_dec_digits_are_digits(v as nat);
    lemma_digit_run(d, rest);
    assert(b.take(d.len() as int) =~= d);
    lemma_digits_val_of_dec(v as nat);
    assert(b[0] == d[0]);
    if v >= 1 {
        assert(b[0] != 48);
    } else {
        assert(d.len() == 1);
    }
}

/// Parsing inverts encoding for signed values as well.
pub proof fn lemma_parse_enc_i64(v: i64, rest: Seq<u8>)
    requires
        rest.len() == 0 || !is_digit(rest[0]),
    ensures
        spec_parse_i64(enc_int(v as int) + rest) == Some::<(i64, int)>(
            (v, enc_int(v as int).len() as int),
        ),
{
    let e = enc_int(v as int);
    let b = e + rest;
    if v < 0 {
        let m = (-(v as int)) as nat;
        let d = dec_digits(m);
        lemma_dec_digits_are_digits(m);
        assert(b[0] == 45u8);
        assert(b.skip(1) =~= d + rest);
        lemma_digit_run(d, rest);
        assert((d + rest).take(d.len() as int) =~= d);
        lemma_digits_val_of_dec(m);
        assert((d + rest)[0] == d[0]);
        assert(m >= 1);
    } else {
        let d = dec_digits(v as nat);
        lemma_dec_digits_are_digits(v as nat);
        assert(b[0] == d[0]);
        assert(is_digit(d[0]));
        assert(b[0] != 45u8);
        lemma_parse_enc_u64(v as u64, rest);
        assert(dec_digits(v as u64 as nat) == e);
    }
}

/// Writes the decimal digits of `n`.
pub fn push_u64(out: &mut Vec<u8>, n: u64)
    ensures
        final(out)@ == old(out)@ + dec_digits(n as nat),
    decreases n,
{
    if n < 10 {
        out.push(48 + (n as u8));
        proof {
            assert(out@ =~= old(out)@ + dec_digits(n as nat));
        }
    } else {
        push_u64(out, n / 10);
        out.push(48 + ((n % 10) as u8));
        proof {
            assert(out@ =~= old(out)@ + dec_digits(n as nat));
        }
    }
}

/// Writes the canonical decimal encoding of `v`.
pub fn push_i64(out: &mut Vec<u8>, v: i64)
    ensures
        final(out)@ == old(out)@ + enc_int(v as int),
{
    if v < 0 {
        out.push(45u8);
        let m: u64 = (-(v as i128)) as u64;
        proof {
            assert(m == (-(v as int)) as nat);
        }
        push_u64(out, m);
        proof {
            assert(out@ =~= old(out)@ + enc_int(v as int));
        }
    } else {
        push_u64(out, v as u64);
    }
}

/// Scans an unsigned decimal starting at `pos`; mirrors `spec_parse_u64` on
/// the remaining bytes.
#[verifier::loop_isolation(false)]
pub fn parse_u64_at(b: &Vec<u8>, pos: usize) -> (r: Option<(u64, usize)>)
    requires
        pos <= b@.len(),
    ensures
        match r {
            Some(vp) => pos < vp.1 <= b@.len() && spec_parse_u64(b@.skip(pos as int))
                == Some::<(u64, int)>((vp.0, vp.1 - pos as int)),
            None => spec_parse_u64(b@.skip(pos as int)) is None,
        },
{
    let ghost t = b@.skip(pos as int);
    // measure the digit run
    let mut e: usize = pos;
    while e < b.len() && 48 <= b[e] && b[e] <= 57
        invariant
            pos <= e <= b@.len(),
            forall|i: int| 0 <= i < e - pos ==> is_digit(#[trigger] t[i]),
        decreases b@.len() - e,
    {
        proof {
            assert(t[e - pos as int] == b@[e as int]);
        }
        e = e + 1;
    }
    proof {
        if (e as int - pos as int) < t.len() {
            assert(t[e - pos as int] == b@[e as int]);
            assert(!is_digit(t[e - pos as int]));
        }
        assert forall|i: int| 0 <= i < e - pos implies digit_pred()(#[trigger] t[i]) by {}
        if (e as int - pos as int) < t.len() {
            assert(!digit_pred()(t[e - pos as int]));
        }
        lemma_lead_len_is(t, digit_pred(), e as int - pos as int);
    }
    let ghost n = e as int - pos as int;
    if e == pos {
        return None;
    }
    if e > pos + 1 && b[pos] == 48 {
        proof {
            assert(t[0] == b@[pos as int]);
        }
        return None;
    }
    // accumulate the value with overflow checking
    let mut v: u64 = 0;
    let mut i: usize = pos;
    proof {
        assert(t.take(n).take(0) =~= Seq::<u8>::empty());
    }
    while i < e
        invariant
            pos <= i <= e,
            v == digits_val(t.take(n).take(i - pos as int)),
        decreases e - i,
    {
        proof {
            assert(t[i - pos as int] == b@[i as int]);
            assert(is_digit(b@[i as int]));
            assert(t.take(n)[i - pos as int] == b@[i as int]);
            assert(t.take(n).take(i - pos as int + 1).drop_last() =~= t.take(n).take(
                i - pos as int,
            ));
            assert(t.take(n).take(i - pos as int + 1).last() == t.take(n)[i - pos as int]);
            assert forall|k: int| 0 <= k < t.take(n).len() implies is_digit(
                #[trigger] t.take(n)[k],
            ) by {
                assert(t.take(n)[k] == t[k]);
            }
        }
        let d = b[i] - 48;
        if v > (u64::MAX - (d as u64)) / 10 {
            proof {
                // the full run is then certainly too large
                assert(digits_val(t.take(n).take(i - pos as int + 1)) == v * 10 + d);
                assert(digits_val(t.take(n).take(i - pos as int + 1)) > u64::MAX);
                lemma_digits_val_mono(t.take(n), i - pos as int + 1, n);
                assert(t.take(n).take(n) =~= t.take(n));
                assert(digits_val(t.take(n)) > u64::MAX);
            }
            return None;
        }
        v = v * 10 + (d as u64);
        i = i + 1;
    }
    proof {
        assert(t.take(n).take(n) =~= t.take(n));
        assert(t[0] == b@[pos as int]);
    }
    Some((v, e))
}

/// Scans a signed decimal starting at `pos`; mirrors `spec_parse_i64`.
pub fn parse_i64_at(b: &Vec<u8>, pos: usize) -> (r: Option<(i64, usize)>)
    requires
        pos <= b@.len(),
    ensures
        match r {
            Some(vp) => pos < vp.1 <= b@.len() && spec_parse_i64(b@.skip(pos as int))
                == Some::<(i64, int)>((vp.0, vp.1 - pos as int)),
            None => spec_parse_i64(b@.skip(pos as int)) is None,
        },
{
    let ghost t = b@.skip(pos as int);
    if pos < b.len() && b[pos] == 45 {
        proof {
            assert(t[0] == b@[pos as int]);
            assert(t.skip(1) =~= b@.skip(pos as int + 1));
        }
        match parse_u64_at(b, pos + 1) {
            None => {
                proof {
                    let u = b@.skip(pos as int + 1);
                    let n = lead_len(u, digit_pred());
                    lemma_lead_len_props(u, digit_pred());
                    if n > 0 {
                        assert forall|k: int| 0 <= k < u.take(n).len() implies is_digit(
                            #[trigger] u.take(n)[k],
                        ) by {
                            assert(u.take(n)[k] == u[k]);
                            assert(digit_pred()(u[k]));
                        }
                        lemma_digits_val_mono(u.take(n), 0, n);
                        assert(u.take(n).take(n) =~= u.take(n));
                    }
                }
                None
            },
            Some((m, p)) => {
                proof {
                    let u = b@.skip(pos as int + 1);
                    let n = lead_len(u, digit_pred());
                    lemma_lead_len_props(u, digit_pred());
                    assert forall|k: int| 0 <= k < u.take(n).len() implies is_digit(
                        #[trigger] u.take(n)[k],
                    ) by {
                        assert(u.take(n)[k] == u[k]);
                        assert(digit_pred()(u[k]));
                    }
                    lemma_digits_val_mono(u.take(n), 0, n);
                    assert(u.take(n).take(n) =~= u.take(n));
                    assert(digits_val(u.take(n)) >= 0);
                    assert(m == digits_val(u.take(n)));
                }
                // reject zero with a sign and magnitudes that do not fit
                if m == 0 || m > 0x8000_0000_0000_0000u64 {
                    None
                } else {
                    let v: i64 = (-(m as i128)) as i64;
                    proof {
                        assert(1 <= m <= 0x8000_0000_0000_0000u64);
                        assert(v as int == -(m as int));
                    }
                    Some((v, p))
                }
            },
        }
    } else {
        proof {
            if t.len() > 0 {
                assert(t[0] == b@[pos as int]);
            }
        }
        match parse_u64_at(b, pos) {
            None => None,
            Some((v, p)) => {
                if v > i64::MAX as u64 {
                    None
                } else {
                    Some((v as i64, p))
                }
            },
        }
    }
}

// ---------------------------------------------------------------------------
// Literals
// ---------------------------------------------------------------------------

/// `b` begins with the bytes of `lit`.
pub open spec fn lit_at(b: Seq<u8>, lit: Seq<u8>) -> bool {
    lit.len() <= b.len() && b.take(lit.len() as int) == lit
}

/// Writes the UTF-8 bytes of a literal.
#[verifier::loop_isolation(false)]
pub fn push_lit(out: &mut Vec<u8>, s: &str)
    ensures
        final(out)@ == old(out)@ + vstd::utf8::encode_utf8(s@),
{
    let bs = s.as_bytes();
    let mut i: usize = 0;
    proof {
        assert(out@ =~= old(out)@ + bs@.take(0));
    }
    while i < bs.len()
        invariant
            0 <= i <= bs@.len(),
            out@ == old(out)@ + bs@.take(i as int),
        decreases bs@.len() - i,
    {
        out.push(*vstd::slice::slice_index_get(bs, i));
        proof {
            assert(old(out)@ + bs@.take(i as int + 1) =~= (old(out)@ + bs@.take(i as int)).push(
                bs@[i as int],
            ));
        }
        i = i + 1;
    }
    proof {
        assert(bs@.take(bs@.len() as int) =~= bs@);
    }
}

/// Checks for the UTF-8 bytes of a literal at `pos`; `Some` holds the
/// position just past it.
#[verifier::loop_isolation(false)]
pub fn expect_lit(b: &Vec<u8>, pos: usize, s: &str) -> (r: Option<usize>)
    requires
        pos <= b@.len(),
    ensures
        match r {
            Some(p) => p == pos + vstd::utf8::encode_utf8(s@).len() && pos <= p <= b@.len()
                && lit_at(b@.skip(pos as int), vstd::utf8::encode_utf8(s@)),
            None => !lit_at(b@.skip(pos as int), vstd::utf8::encode_utf8(s@)),
        },
{
    let bs = s.as_bytes();
    let ghost t = b@.skip(pos as int);
    let n = bs.len();
    if n > b.len() - pos {
        return None;
    }
    let mut i: usize = 0;
    while i < n
        invariant
            0 <= i <= n,
            n == bs@.len(),
            pos + n <= b@.len(),
            forall|k: int| 0 <= k < i ==> b@[pos + k] == bs@[k],
        decreases n - i,
    {
        if b[pos + i] != *vstd::slice::slice_index_get(bs, i) {
            proof {
                assert(t[i as int] == b@[pos + i as int]);
                if lit_at(t, bs@) {
                    assert(t.take(bs@.len() as int)[i as int] == t[i as int]);
                }
            }
            return None;
        }
        i = i + 1;
    }
    proof {
        assert forall|k: int| 0 <= k < bs@.len() implies t.take(bs@.len() as int)[k] == bs@[k] by {
            assert(t.take(bs@.len() as int)[k] == t[k]);
            assert(t[k] == b@[pos + k]);
        }
        assert(t.take(bs@.len() as int) =~= bs@);
    }
    Some(pos + n)
}

} // verus!

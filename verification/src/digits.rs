//! Fixed-width decimal numerals for the persisted scene format.
//!
//! Every number in the scene text is written in a fixed number of decimal
//! digit bytes (unsigned values in 20 digits, signed values as a sign byte
//! followed by 19 digits). The fixed width keeps the grammar regular, and the
//! encoding is proved to be a bijection between values and their canonical
//! digit strings, which the format round-trip proofs build on.

use vstd::prelude::*;

verus! {

/// Number of digit bytes used for an unsigned 64-bit value.
pub const U64_WIDTH: usize = 20;

/// Number of magnitude digit bytes used for a signed 64-bit value.
pub const I64_MAG_WIDTH: usize = 19;

/// Total width of a signed field: one sign byte plus the magnitude digits.
pub const I64_WIDTH: usize = 20;

/// Byte that starts a non-negative signed field.
pub const PLUS: u8 = 43;

/// Byte that starts a negative signed field.
pub const MINUS: u8 = 45;

pub open spec fn pow10(k: nat) -> nat
    decreases k,
{
    if k == 0 {
        1
    } else {
        10 * pow10((k - 1) as nat)
    }
}

/// The `k` least significant decimal digits of `n`, most significant first,
/// as ASCII digit bytes.
pub open spec fn enc_nat(n: nat, k: nat) -> Seq<u8>
    decreases k,
{
    if k == 0 {
        Seq::empty()
    } else {
        enc_nat(n / 10, (k - 1) as nat).push((48 + n % 10) as u8)
    }
}

pub open spec fn is_digit_byte(b: u8) -> bool {
    48 <= b <= 57
}

pub open spec fn all_digit_bytes(s: Seq<u8>) -> bool {
    forall|i: int| 0 <= i < s.len() ==> is_digit_byte(#[trigger] s[i])
}

/// The value of a digit string, most significant digit first.
pub open spec fn dec_nat(s: Seq<u8>) -> int
    decreases s.len(),
{
    if s.len() == 0 {
        0
    } else {
        10 * dec_nat(s.drop_last()) + (s.last() - 48)
    }
}

pub proof fn lemma_pow10_pos(k: nat)
    ensures
        pow10(k) >= 1,
    decreases k,
{
    if k > 0 {
        lemma_pow10_pos((k - 1) as nat);
    }
}

pub proof fn lemma_pow10_vals()
    ensures
        pow10(19) == 10_000_000_000_000_000_000,
        pow10(20) == 100_000_000_000_000_000_000,
{
    reveal_with_fuel(pow10, 21);
}

/// An encoding always has exactly its fixed width.
pub proof fn lemma_enc_nat_len(n: nat, k: nat)
    ensures
        enc_nat(n, k).len() == k,
    decreases k,
{
    if k > 0 {
        lemma_enc_nat_len(n / 10, (k - 1) as nat);
    }
}

/// Encoding a value below `pow10(k)` gives `k` digit bytes whose value is the
/// value encoded.
pub proof fn lemma_enc_nat_props(n: nat, k: nat)
    requires
        n < pow10(k),
    ensures
        enc_nat(n, k).len() == k,
        all_digit_bytes(enc_nat(n, k)),
        dec_nat(enc_nat(n, k)) == n,
    decreases k,
{
    if k > 0 {
        assert(10 * (n / 10) + n % 10 == n);
        assert(n / 10 < pow10((k - 1) as nat)) by {
            assert(10 * (n / 10) <= n);
        }
        lemma_enc_nat_props(n / 10, (k - 1) as nat);
        let e = enc_nat(n, k);
        let e0 = enc_nat(n / 10, (k - 1) as nat);
        assert(e == e0.push((48 + n % 10) as u8));
        assert(e.drop_last() =~= e0);
        assert(forall|i: int| 0 <= i < e.len() ==> is_digit_byte(#[trigger] e[i])) by {
            assert(forall|i: int| 0 <= i < e0.len() ==> e[i] == #[trigger] e0[i]);
        }
    }
}

/// Digit strings decode to values in `[0, pow10(len))`.
pub proof fn lemma_dec_nat_bounds(s: Seq<u8>)
    requires
        all_digit_bytes(s),
    ensures
        0 <= dec_nat(s) < pow10(s.len()),
    decreases s.len(),
{
    if s.len() > 0 {
        assert(all_digit_bytes(s.drop_last())) by {
            assert(forall|i: int|
                0 <= i < s.len() - 1 ==> #[trigger] s.drop_last()[i] == s[i]);
        }
        lemma_dec_nat_bounds(s.drop_last());
        assert(is_digit_byte(s.last()));
    }
}

/// Decoding then re-encoding a digit string gives the string back: on digit
/// strings of a fixed width, the encoding is a bijection.
pub proof fn lemma_enc_dec_nat(s: Seq<u8>)
    requires
        all_digit_bytes(s),
    ensures
        enc_nat(dec_nat(s) as nat, s.len()) == s,
    decreases s.len(),
{
    if s.len() > 0 {
        let t = s.drop_last();
        assert(all_digit_bytes(t)) by {
            assert(forall|i: int| 0 <= i < t.len() ==> #[trigger] t[i] == s[i]);
        }
        lemma_enc_dec_nat(t);
        lemma_dec_nat_bounds(t);
        lemma_dec_nat_bounds(s);
        let v = dec_nat(s);
        let d = s.last() - 48;
        assert(v == 10 * dec_nat(t) + d);
        assert(v / 10 == dec_nat(t) && v % 10 == d) by {
            assert(0 <= d < 10);
            assert(v == 10 * dec_nat(t) + d);
        }
        assert(enc_nat(v as nat, s.len()) == enc_nat((v as nat) / 10, (s.len() - 1) as nat).push(
            (48 + (v as nat) % 10) as u8,
        ));
        assert((v as nat) / 10 == dec_nat(t) && (v as nat) % 10 == d);
        assert(enc_nat(v as nat, s.len()) =~= s);
    }
}

/// Splitting a digit string: the value of a concatenation.
pub proof fn lemma_dec_nat_append(a: Seq<u8>, b: Seq<u8>)
    ensures
        dec_nat(a + b) == dec_nat(a) * pow10(b.len()) + dec_nat(b),
    decreases b.len(),
{
    if b.len() == 0 {
        assert(a + b =~= a);
        lemma_pow10_pos(0);
        assert(dec_nat(a) * 1 == dec_nat(a)) by (nonlinear_arith);
    } else {
        lemma_dec_nat_append(a, b.drop_last());
        assert((a + b).drop_last() =~= a + b.drop_last());
        assert((a + b).last() == b.last());
        let p = pow10((b.len() - 1) as nat);
        assert(dec_nat(a + b) == 10 * (dec_nat(a) * p + dec_nat(b.drop_last())) + (b.last()
            - 48));
        assert(10 * (dec_nat(a) * p + dec_nat(b.drop_last())) == dec_nat(a) * (10 * p) + 10
            * dec_nat(b.drop_last())) by (nonlinear_arith);
        assert(pow10(b.len()) == 10 * p);
    }
}

/// Appends the canonical `k`-digit encoding of `n` to `out`.
pub fn push_digits(n: u64, k: usize, out: &mut Vec<u8>)
    ensures
        final(out)@ == old(out)@ + enc_nat(n as nat, k as nat),
    decreases k,
{
    if k == 0 {
        assert(out@ =~= old(out)@ + enc_nat(n as nat, 0));
    } else {
        push_digits(n / 10, k - 1, out);
        let d: u8 = 48 + (n % 10) as u8;
        out.push(d);
        assert(out@ =~= old(out)@ + enc_nat(n as nat, k as nat));
    }
}

/// Appends the canonical 20-digit encoding of `n` to `out`.
pub fn encode_u64(n: u64, out: &mut Vec<u8>)
    ensures
        final(out)@ == old(out)@ + enc_nat(n as nat, U64_WIDTH as nat),
{
    push_digits(n, U64_WIDTH, out);
}

/// Reads `k` digit bytes at `start`; returns the value if all bytes are
/// digits and the value fits in a `u64`.
pub fn read_digits(bytes: &[u8], start: usize, k: usize) -> (r: Option<u64>)
    requires
        start + k <= bytes@.len(),
    ensures
        ({
            let sub = bytes@.subrange(start as int, start + k);
            match r {
                Some(v) => all_digit_bytes(sub) && dec_nat(sub) == v,
                None => !all_digit_bytes(sub) || dec_nat(sub) > u64::MAX,
            }
        }),
{
    let ghost sub = bytes@.subrange(start as int, start + k);
    let n: usize = bytes.len();
    let mut acc: u64 = 0;
    let mut i: usize = 0;
    while i < k
        invariant
            0 <= i <= k,
            n == bytes@.len(),
            start + k <= bytes@.len(),
            sub == bytes@.subrange(start as int, start + k),
            all_digit_bytes(sub.take(i as int)),
            acc == dec_nat(sub.take(i as int)),
        decreases k - i,
    {
        let b: u8 = bytes[start + i];
        assert(b == sub[i as int]);
        if b < 48 || b > 57 {
            assert(!all_digit_bytes(sub));
            return None;
        }
        let d: u64 = (b - 48) as u64;
        assert(sub.take(i + 1).drop_last() =~= sub.take(i as int));
        assert(sub.take(i + 1).last() == b);
        if acc > (u64::MAX - d) / 10 {
            // The value of the digits read so far already exceeds u64::MAX,
            // so the whole field does as well.
            assert(10 * acc + d > u64::MAX) by {
                assert(10 * ((u64::MAX - d) / 10) + (u64::MAX - d) % 10 == u64::MAX - d);
            }
            assert(dec_nat(sub.take(i + 1)) > u64::MAX);
            proof {
                if all_digit_bytes(sub) {
                    let head = sub.take(i + 1);
                    let tail = sub.skip(i + 1);
                    assert(sub =~= head + tail);
                    lemma_dec_nat_append(head, tail);
                    assert(all_digit_bytes(tail)) by {
                        assert(forall|j: int|
                            0 <= j < tail.len() ==> #[trigger] tail[j] == sub[j + i + 1]);
                    }
                    lemma_dec_nat_bounds(tail);
                    lemma_pow10_pos(tail.len());
                    assert(dec_nat(head) * pow10(tail.len()) >= dec_nat(head) * 1) by (
                    nonlinear_arith)
                        requires
                            dec_nat(head) >= 0,
                            pow10(tail.len()) >= 1,
                    ;
                    assert(dec_nat(sub) > u64::MAX);
                }
            }
            return None;
        }
        assert(10 * acc + d <= u64::MAX) by {
            assert(10 * ((u64::MAX - d) / 10) + (u64::MAX - d) % 10 == u64::MAX - d);
        }
        acc = acc * 10 + d;
        assert(all_digit_bytes(sub.take(i + 1))) by {
            assert(forall|j: int|
                0 <= j < i ==> #[trigger] sub.take(i + 1)[j] == sub.take(i as int)[j]);
        }
        i = i + 1;
    }
    assert(sub.take(k as int) =~= sub);
    Some(acc)
}

pub open spec fn abs_val(v: int) -> nat {
    if v >= 0 {
        v as nat
    } else {
        (-v) as nat
    }
}

/// Canonical signed field: a sign byte then 19 magnitude digits. Zero is
/// always written with the plus sign.
pub open spec fn enc_i64(v: int) -> Seq<u8> {
    (if v < 0 {
        seq![MINUS]
    } else {
        seq![PLUS]
    }) + enc_nat(abs_val(v), I64_MAG_WIDTH as nat)
}

/// Strict decoding of a signed field: accepts exactly the canonical images
/// of the values representable in an `i64`.
pub open spec fn dec_i64(s: Seq<u8>) -> Option<int> {
    if s.len() == I64_WIDTH && (s[0] == PLUS || s[0] == MINUS) && all_digit_bytes(
        s.subrange(1, I64_WIDTH as int),
    ) {
        let m = dec_nat(s.subrange(1, I64_WIDTH as int));
        if s[0] == PLUS {
            if m <= i64::MAX {
                Some(m)
            } else {
                None
            }
        } else {
            if 1 <= m <= 0x8000_0000_0000_0000 {
                Some(-m)
            } else {
                None
            }
        }
    } else {
        None
    }
}

/// The canonical encoding of an `i64` value decodes back to it.
pub proof fn lemma_dec_enc_i64(v: int)
    requires
        i64::MIN <= v <= i64::MAX,
    ensures
        enc_i64(v).len() == I64_WIDTH,
        dec_i64(enc_i64(v)) == Some(v),
{
    lemma_pow10_vals();
    lemma_enc_nat_props(abs_val(v), I64_MAG_WIDTH as nat);
    let s = enc_i64(v);
    assert(s.subrange(1, I64_WIDTH as int) =~= enc_nat(abs_val(v), I64_MAG_WIDTH as nat));
}

/// A field that decodes successfully is the canonical encoding of its value.
pub proof fn lemma_enc_dec_i64(s: Seq<u8>, v: int)
    requires
        dec_i64(s) == Some(v),
    ensures
        i64::MIN <= v <= i64::MAX,
        enc_i64(v) == s,
{
    let mags = s.subrange(1, I64_WIDTH as int);
    lemma_enc_dec_nat(mags);
    lemma_dec_nat_bounds(mags);
    let m = dec_nat(mags);
    assert(abs_val(v) == m);
    assert(enc_nat(abs_val(v), I64_MAG_WIDTH as nat) == mags);
    assert(enc_i64(v) =~= s);
}

/// Appends the canonical signed encoding of `v` to `out`.
pub fn encode_i64(v: i64, out: &mut Vec<u8>)
    ensures
        final(out)@ == old(out)@ + enc_i64(v as int),
{
    if v >= 0 {
        out.push(PLUS);
        push_digits(v as u64, I64_MAG_WIDTH, out);
        assert(out@ =~= old(out)@ + enc_i64(v as int));
    } else {
        out.push(MINUS);
        let m: u64 = (-(v as i128)) as u64;
        assert(m as nat == abs_val(v as int));
        push_digits(m, I64_MAG_WIDTH, out);
        assert(out@ =~= old(out)@ + enc_i64(v as int));
    }
}

/// Reads a signed field at `start`; the strict inverse of `encode_i64`.
pub fn read_i64(bytes: &[u8], start: usize) -> (r: Option<i64>)
    requires
        start + I64_WIDTH <= bytes@.len(),
    ensures
        ({
            let sub = bytes@.subrange(start as int, start + I64_WIDTH);
            match r {
                Some(v) => dec_i64(sub) == Some(v as int),
                None => dec_i64(sub) is None,
            }
        }),
{
    let ghost sub = bytes@.subrange(start as int, start + I64_WIDTH);
    let sign: u8 = bytes[start];
    assert(sign == sub[0]);
    if sign != PLUS && sign != MINUS {
        return None;
    }
    let mag = read_digits(bytes, start + 1, I64_MAG_WIDTH);
    assert(bytes@.subrange(start + 1, start + 1 + I64_MAG_WIDTH) =~= sub.subrange(
        1,
        I64_WIDTH as int,
    ));
    proof {
        lemma_pow10_vals();
        if all_digit_bytes(sub.subrange(1, I64_WIDTH as int)) {
            lemma_dec_nat_bounds(sub.subrange(1, I64_WIDTH as int));
        }
    }
    match mag {
        None => None,
        Some(m) => {
            if sign == PLUS {
                if m <= i64::MAX as u64 {
                    Some(m as i64)
                } else {
                    None
                }
            } else {
                if 1 <= m && m <= 0x8000_0000_0000_0000u64 {
                    Some((-(m as i128)) as i64)
                } else {
                    None
                }
            }
        },
    }
}

} // verus!

//! Decimal formatting and parsing of the numbers that appear in log records:
//! plain unsigned integers, and fixed-point values written with exactly four
//! fraction digits. Formatting is canonical (no leading zeros); parsing
//! accepts exactly the canonical form, which is what makes records written by
//! this crate recoverable byte-for-byte.

use vstd::prelude::*;

verus! {

/// An ASCII decimal digit.
pub open spec fn is_digit(b: u8) -> bool {
    48 <= b <= 57
}

/// The canonical decimal digits of `n`: no leading zeros, `"0"` for zero.
pub open spec fn dec_digits(n: nat) -> Seq<u8>
    decreases n,
{
    if n < 10 {
        seq![(48 + n) as u8]
    } else {
        dec_digits(n / 10) + seq![(48 + n % 10) as u8]
    }
}

/// The numeric value of a digit string.
pub open spec fn dec_val(s: Seq<u8>) -> int
    decreases s.len(),
{
    if s.len() == 0 {
        0
    } else {
        dec_val(s.drop_last()) * 10 + (s.last() - 48)
    }
}

/// Every byte of a canonical rendering is a digit, and there is at least one.
pub proof fn lemma_dec_digits_are_digits(n: nat)
    ensures
        dec_digits(n).len() >= 1,
        forall|i: int| 0 <= i < dec_digits(n).len() ==> is_digit(#[trigger] dec_digits(n)[i]),
    decreases n,
{
    if n >= 10 {
        lemma_dec_digits_are_digits(n / 10);
    }
}

/// A canonical rendering starts with `'0'` only for zero itself.
pub proof fn lemma_dec_digits_no_leading_zero(n: nat)
    ensures
        dec_digits(n)[0] == 48 ==> n == 0 && dec_digits(n).len() == 1,
    decreases n,
{
    if n >= 10 {
        lemma_dec_digits_no_leading_zero(n / 10);
        assert(dec_digits(n)[0] == dec_digits(n / 10)[0]);
    }
}

/// Reading back a canonical rendering gives the number it was made from.
pub proof fn lemma_dec_roundtrip(n: nat)
    ensures
        dec_val(dec_digits(n)) == n,
    decreases n,
{
    reveal_with_fuel(dec_val, 2);
    if n < 10 {
        assert(dec_digits(n).drop_last() =~= Seq::<u8>::empty());
        assert((48 + n) as u8 == 48 + n);
    } else {
        lemma_dec_roundtrip(n / 10);
        assert(dec_digits(n).drop_last() =~= dec_digits(n / 10));
        assert(dec_digits(n).last() == (48 + n % 10) as u8);
        assert((48 + n % 10) as u8 == 48 + n % 10);
    }
}

/// The value of a digit string is non-negative.
pub proof fn lemma_dec_val_nonneg(s: Seq<u8>)
    requires
        forall|i: int| 0 <= i < s.len() ==> is_digit(#[trigger] s[i]),
    ensures
        dec_val(s) >= 0,
    decreases s.len(),
{
    if s.len() > 0 {
        lemma_dec_val_nonneg(s.drop_last());
    }
}

/// Appending a digit multiplies the value by ten and adds the digit.
pub proof fn lemma_dec_val_snoc(s: Seq<u8>, d: u8)
    ensures
        dec_val(s.push(d)) == dec_val(s) * 10 + (d - 48),
{
    assert(s.push(d).drop_last() =~= s);
    assert(s.push(d).last() == d);
}

/// The value of a prefix of a digit string never exceeds the whole string's.
pub proof fn lemma_dec_val_prefix_le(s: Seq<u8>, i: int)
    requires
        forall|j: int| 0 <= j < s.len() ==> is_digit(#[trigger] s[j]),
        0 <= i <= s.len(),
    ensures
        dec_val(s.take(i)) <= dec_val(s),
    decreases s.len(),
{
    if i < s.len() {
        assert(s.drop_last().take(i) =~= s.take(i));
        lemma_dec_val_prefix_le(s.drop_last(), i);
        lemma_dec_val_nonneg(s.drop_last());
    } else {
        assert(s.take(i) =~= s);
    }
}

/// A digit string with a non-`'0'` first digit has a positive value.
pub proof fn lemma_dec_val_positive(s: Seq<u8>)
    requires
        forall|j: int| 0 <= j < s.len() ==> is_digit(#[trigger] s[j]),
        s.len() >= 1,
        s[0] != 48,
    ensures
        dec_val(s) >= 1,
    decreases s.len(),
{
    reveal_with_fuel(dec_val, 2);
    assert(is_digit(s[s.len() - 1]));
    if s.len() == 1 {
        assert(s.drop_last() =~= Seq::<u8>::empty());
        assert(s.last() == s[0]);
    } else {
        lemma_dec_val_positive(s.drop_last());
    }
}

/// A digit string in canonical shape (no leading zero unless it is `"0"`)
/// is the canonical rendering of its own value.
pub proof fn lemma_dec_val_canonical(s: Seq<u8>)
    requires
        forall|j: int| 0 <= j < s.len() ==> is_digit(#[trigger] s[j]),
        s.len() >= 1,
        s[0] == 48 ==> s.len() == 1,
    ensures
        dec_val(s) >= 0,
        s == dec_digits(dec_val(s) as nat),
    decreases s.len(),
{
    reveal_with_fuel(dec_val, 2);
    lemma_dec_val_nonneg(s);
    assert(is_digit(s[s.len() - 1]));
    if s.len() == 1 {
        assert(s.drop_last() =~= Seq::<u8>::empty());
        assert(s.last() == s[0]);
        assert(dec_val(s) == s[0] - 48);
        assert(s =~= dec_digits(dec_val(s) as nat));
    } else {
        let head = s.drop_last();
        lemma_dec_val_canonical(head);
        lemma_dec_val_positive(head);
        let v = dec_val(s);
        assert(v == dec_val(head) * 10 + (s.last() - 48));
        assert(v >= 10);
        assert(v / 10 == dec_val(head) && v % 10 == s.last() - 48) by {
            assert(0 <= s.last() - 48 < 10);
        }
        assert(s =~= dec_digits(dec_val(head) as nat) + seq![(48 + (v as nat) % 10) as u8]);
    }
}

/// Render `n` as canonical decimal digits.
pub fn fmt_u64(n: u64) -> (r: Vec<u8>)
    ensures
        r@ == dec_digits(n as nat),
    decreases n,
{
    if n < 10 {
        let mut v: Vec<u8> = Vec::new();
        v.push(48 + n as u8);
        proof {
            assert(v@ =~= dec_digits(n as nat));
        }
        v
    } else {
        let mut v = fmt_u64(n / 10);
        v.push(48 + (n % 10) as u8);
        proof {
            assert(v@ =~= dec_digits(n as nat));
        }
        v
    }
}

/// Render a timestamp (seconds since the Unix epoch) as decimal digits.
pub fn format_time_secs(t: u64) -> (r: Vec<u8>)
    ensures
        r@ == dec_digits(t as nat),
{
    fmt_u64(t)
}

/// The four zero-padded digits of a fraction below 10 000.
pub open spec fn frac4_digits(n: nat) -> Seq<u8> {
    seq![
        (48 + n / 1000 % 10) as u8,
        (48 + n / 100 % 10) as u8,
        (48 + n / 10 % 10) as u8,
        (48 + n % 10) as u8,
    ]
}

/// The canonical rendering of a fixed-point value: the whole part in decimal,
/// a dot, then exactly four fraction digits.
pub open spec fn fixed4_digits(v: u64) -> Seq<u8> {
    dec_digits((v / 10000) as nat) + seq![46u8] + frac4_digits((v % 10000) as nat)
}

/// Render a fixed-point value canonically.
pub fn fmt_fixed4(v: u64) -> (r: Vec<u8>)
    ensures
        r@ == fixed4_digits(v),
{
    let mut out = fmt_u64(v / 10000);
    let frac = v % 10000;
    out.push(46);
    out.push(48 + (frac / 1000 % 10) as u8);
    out.push(48 + (frac / 100 % 10) as u8);
    out.push(48 + (frac / 10 % 10) as u8);
    out.push(48 + (frac % 10) as u8);
    proof {
        assert(out@ =~= fixed4_digits(v));
    }
    out
}

/// Check whether a byte is an ASCII decimal digit.
pub fn byte_is_digit(b: u8) -> (r: bool)
    ensures
        r == is_digit(b),
{
    48 <= b && b <= 57
}

/// There is a canonical number at `pos` in `s` whose digits read `n` and
/// which is delimited: the byte after it (if any) is not a digit.
pub open spec fn number_at(s: Seq<u8>, pos: int, n: u64) -> bool {
    let digits = dec_digits(n as nat);
    &&& 0 <= pos
    &&& pos + digits.len() <= s.len()
    &&& s.subrange(pos, pos + digits.len() as int) == digits
    &&& (pos + digits.len() == s.len() || !is_digit(s[pos + digits.len()]))
}

/// Parse the canonical decimal number starting at `pos`.
///
/// On success the consumed bytes are exactly the canonical rendering of the
/// returned value, maximally delimited; and whenever a delimited canonical
/// number stands at `pos`, parsing succeeds and returns exactly it.
pub fn parse_u64_at(input: &Vec<u8>, pos: usize) -> (r: Option<(u64, usize)>)
    requires
        pos <= input@.len(),
    ensures
        (match r {
            Option::Some((n, p2)) => {
                &&& pos < p2 <= input@.len()
                &&& input@.subrange(pos as int, p2 as int) == dec_digits(n as nat)
                &&& (p2 == input@.len() || !is_digit(input@[p2 as int]))
            },
            Option::None => true,
        }),
        forall|n: u64| number_at(input@, pos as int, n)
            ==> r == Option::Some((n, (pos + dec_digits(n as nat).len()) as usize)),
{
    let ghost s = input@;
    let len = input.len();

    if pos == len || !byte_is_digit(input[pos]) {
        proof {
            assert forall|n: u64| number_at(s, pos as int, n) implies false by {
                lemma_dec_digits_are_digits(n as nat);
                assert(s[pos as int] == dec_digits(n as nat)[0]);
            }
        }
        return None;
    }

    if input[pos] == 48 && pos + 1 < len && byte_is_digit(input[pos + 1]) {
        proof {
            assert forall|n: u64| number_at(s, pos as int, n) implies false by {
                lemma_dec_digits_are_digits(n as nat);
                lemma_dec_digits_no_leading_zero(n as nat);
                assert(s[pos as int] == dec_digits(n as nat)[0]);
                // With a leading '0' the number must be exactly "0", but then
                // the next byte would have to be a non-digit.
            }
        }
        return None;
    }

    let mut p = pos;
    let mut acc: u128 = 0;
    while p < len && byte_is_digit(input[p])
        invariant
            s == input@,
            len == s.len(),
            pos <= p <= len,
            pos < len,
            is_digit(s[pos as int]),
            s[pos as int] == 48 ==> (pos + 1 >= len || !is_digit(s[pos as int + 1])),
            forall|j: int| pos <= j < p ==> is_digit(#[trigger] s[j]),
            acc as int == dec_val(s.subrange(pos as int, p as int)),
            acc <= u64::MAX as u128,
        decreases len - p,
    {
        let d: u8 = input[p] - 48;
        proof {
            lemma_dec_val_snoc(s.subrange(pos as int, p as int), s[p as int]);
            assert(s.subrange(pos as int, p as int + 1)
                =~= s.subrange(pos as int, p as int).push(s[p as int]));
        }
        acc = acc * 10 + d as u128;
        p = p + 1;
        if acc > u64::MAX as u128 {
            proof {
                assert forall|n: u64| number_at(s, pos as int, n) implies false by {
                    let digits = dec_digits(n as nat);
                    lemma_dec_digits_are_digits(n as nat);
                    // The scanned bytes are all digits, so the scan cannot
                    // have passed the number's delimiter: the scanned region
                    // is a prefix of the number's digits, whose value fits.
                    assert(p <= pos + digits.len()) by {
                        if p > pos + digits.len() {
                            assert(is_digit(s[pos + digits.len()]));
                        }
                    }
                    assert(s.subrange(pos as int, p as int)
                        =~= digits.take(p - pos));
                    lemma_dec_val_prefix_le(digits, p - pos);
                    lemma_dec_roundtrip(n as nat);
                }
            }
            return None;
        }
    }

    let n = acc as u64;
    proof {
        let region = s.subrange(pos as int, p as int);
        assert(region[0] == s[pos as int]);
        assert(forall|j: int| 0 <= j < region.len() ==> is_digit(#[trigger] region[j]));
        if region[0] == 48 && region.len() >= 2 {
            assert(is_digit(region[1]));
            assert(false);
        }
        lemma_dec_val_canonical(region);
        assert forall|m: u64| number_at(s, pos as int, m)
            implies m == n && pos + dec_digits(m as nat).len() == p by {
            let digits = dec_digits(m as nat);
            lemma_dec_digits_are_digits(m as nat);
            assert(p <= pos + digits.len()) by {
                if p > pos + digits.len() {
                    assert(is_digit(s[pos + digits.len()]));
                }
            }
            assert(p >= pos + digits.len()) by {
                if p < pos + digits.len() {
                    assert(is_digit(digits[p - pos]));
                    assert(s[p as int] == digits[p - pos]);
                }
            }
            assert(region =~= digits);
            lemma_dec_roundtrip(m as nat);
        }
    }
    Some((n, p))
}

/// There is a canonical fixed-point value at `pos` in `s` reading `v`.
pub open spec fn fixed4_at(s: Seq<u8>, pos: int, v: u64) -> bool {
    let digits = fixed4_digits(v);
    &&& 0 <= pos
    &&& pos + digits.len() <= s.len()
    &&& s.subrange(pos, pos + digits.len() as int) == digits
}

/// How a canonical fixed-point rendering decomposes, byte by byte, around its
/// whole part.
pub proof fn lemma_fixed4_structure(v: u64)
    ensures
        ({
            let whole = dec_digits((v / 10000) as nat);
            let digits = fixed4_digits(v);
            &&& digits.len() == whole.len() + 5
            &&& digits.subrange(0, whole.len() as int) == whole
            &&& digits[whole.len() as int] == 46
            &&& digits[whole.len() as int + 1] == 48 + (v % 10000) / 1000 % 10
            &&& digits[whole.len() as int + 2] == 48 + (v % 10000) / 100 % 10
            &&& digits[whole.len() as int + 3] == 48 + (v % 10000) / 10 % 10
            &&& digits[whole.len() as int + 4] == 48 + (v % 10000) % 10
        }),
{
    let whole = dec_digits((v / 10000) as nat);
    let digits = fixed4_digits(v);
    assert(digits.subrange(0, whole.len() as int) =~= whole);
}

/// A canonical fixed-point value standing in `s` fixes the bytes around its
/// whole part: the whole part is a delimited canonical number, the dot
/// follows it, and the four fraction digits follow the dot.
pub proof fn lemma_fixed4_shape(s: Seq<u8>, pos: int, v: u64)
    requires
        fixed4_at(s, pos, v),
    ensures
        ({
            let k = pos + dec_digits((v / 10000) as nat).len();
            &&& number_at(s, pos, v / 10000)
            &&& pos + fixed4_digits(v).len() == k + 5
            &&& k + 5 <= s.len()
            &&& s[k] == 46
            &&& s[k + 1] == 48 + (v % 10000) / 1000 % 10
            &&& s[k + 2] == 48 + (v % 10000) / 100 % 10
            &&& s[k + 3] == 48 + (v % 10000) / 10 % 10
            &&& s[k + 4] == 48 + (v % 10000) % 10
        }),
{
    lemma_fixed4_structure(v);
    let whole = dec_digits((v / 10000) as nat);
    let digits = fixed4_digits(v);
    let k = pos + whole.len();
    assert(s.subrange(pos, k as int) =~= digits.subrange(0, whole.len() as int));
    assert(s[k] == digits[whole.len() as int]);
    assert(s[k + 1] == digits[whole.len() as int + 1]);
    assert(s[k + 2] == digits[whole.len() as int + 2]);
    assert(s[k + 3] == digits[whole.len() as int + 3]);
    assert(s[k + 4] == digits[whole.len() as int + 4]);
}

/// The four fraction digits of a value below 10 000 recover it exactly.
pub proof fn lemma_frac4_recover(n: int)
    requires
        0 <= n < 10000,
    ensures
        n / 1000 % 10 == n / 1000,
        (n / 1000 % 10) * 1000 + (n / 100 % 10) * 100 + (n / 10 % 10) * 10 + n % 10 == n,
{
    vstd::arithmetic::div_mod::lemma_fundamental_div_mod(n, 10);
    vstd::arithmetic::div_mod::lemma_fundamental_div_mod(n / 10, 10);
    vstd::arithmetic::div_mod::lemma_fundamental_div_mod(n / 100, 10);
    vstd::arithmetic::div_mod::lemma_div_denominator(n, 10, 10);
    vstd::arithmetic::div_mod::lemma_div_denominator(n, 100, 10);
}

/// Four digits compose into the value they are the digits of.
pub proof fn lemma_frac4_compose(a: int, b: int, c: int, d: int)
    requires
        0 <= a < 10,
        0 <= b < 10,
        0 <= c < 10,
        0 <= d < 10,
    ensures
        ({
            let n = a * 1000 + b * 100 + c * 10 + d;
            &&& 0 <= n < 10000
            &&& n / 1000 % 10 == a
            &&& n / 100 % 10 == b
            &&& n / 10 % 10 == c
            &&& n % 10 == d
        }),
{
    let n = a * 1000 + b * 100 + c * 10 + d;
    vstd::arithmetic::div_mod::lemma_fundamental_div_mod_converse(n, 1000, a, b * 100 + c * 10 + d);
    vstd::arithmetic::div_mod::lemma_fundamental_div_mod_converse(n, 100, a * 10 + b, c * 10 + d);
    vstd::arithmetic::div_mod::lemma_fundamental_div_mod_converse(a * 10 + b, 10, a, b);
    vstd::arithmetic::div_mod::lemma_fundamental_div_mod_converse(
        n,
        10,
        a * 100 + b * 10 + c,
        d,
    );
}

/// Splitting a value into its whole and fraction parts is exact.
pub proof fn lemma_fixed4_split(ip: int, frac: int)
    requires
        0 <= ip,
        0 <= frac < 10000,
    ensures
        (ip * 10000 + frac) / 10000 == ip,
        (ip * 10000 + frac) % 10000 == frac,
{
    vstd::arithmetic::div_mod::lemma_fundamental_div_mod_converse(
        ip * 10000 + frac,
        10000,
        ip,
        frac,
    );
}

/// Parse the canonical fixed-point value starting at `pos`: a canonical
/// decimal whole part, a dot, then exactly four fraction digits.
///
/// On success the consumed bytes are exactly the canonical rendering of the
/// returned value; and whenever a canonical fixed-point value stands at
/// `pos`, parsing succeeds and returns exactly it.
#[verifier::rlimit(100)]
pub fn parse_fixed4_at(input: &Vec<u8>, pos: usize) -> (r: Option<(u64, usize)>)
    requires
        pos <= input@.len(),
    ensures
        (match r {
            Option::Some((v, p2)) => {
                &&& pos < p2 <= input@.len()
                &&& input@.subrange(pos as int, p2 as int) == fixed4_digits(v)
            },
            Option::None => true,
        }),
        forall|v: u64| fixed4_at(input@, pos as int, v)
            ==> r == Option::Some((v, (pos + fixed4_digits(v).len()) as usize)),
{
    let ghost s = input@;
    let len = input.len();

    let parsed = parse_u64_at(input, pos);
    let (ip, p1) = match parsed {
        Some(pair) => pair,
        None => {
            proof {
                assert forall|v: u64| !fixed4_at(s, pos as int, v) by {
                    if fixed4_at(s, pos as int, v) {
                        lemma_fixed4_shape(s, pos as int, v);
                    }
                }
            }
            return None;
        },
    };

    if p1 == len || input[p1] != 46 {
        proof {
            assert forall|v: u64| !fixed4_at(s, pos as int, v) by {
                if fixed4_at(s, pos as int, v) {
                    lemma_fixed4_shape(s, pos as int, v);
                }
            }
        }
        return None;
    }
    if len - p1 < 5 {
        proof {
            assert forall|v: u64| !fixed4_at(s, pos as int, v) by {
                if fixed4_at(s, pos as int, v) {
                    lemma_fixed4_shape(s, pos as int, v);
                }
            }
        }
        return None;
    }

    let b1 = input[p1 + 1];
    let b2 = input[p1 + 2];
    let b3 = input[p1 + 3];
    let b4 = input[p1 + 4];

    if !(byte_is_digit(b1) && byte_is_digit(b2) && byte_is_digit(b3) && byte_is_digit(b4)) {
        proof {
            assert forall|v: u64| !fixed4_at(s, pos as int, v) by {
                if fixed4_at(s, pos as int, v) {
                    lemma_fixed4_shape(s, pos as int, v);
                }
            }
        }
        return None;
    }

    let frac: u64 = (b1 - 48) as u64 * 1000 + (b2 - 48) as u64 * 100 + (b3 - 48) as u64 * 10
        + (b4 - 48) as u64;
    let total: u128 = ip as u128 * 10000 + frac as u128;
    if total > u64::MAX as u128 {
        proof {
            assert forall|v: u64| !fixed4_at(s, pos as int, v) by {
                if fixed4_at(s, pos as int, v) {
                    lemma_fixed4_shape(s, pos as int, v);
                    lemma_frac4_recover((v % 10000) as int);
                    vstd::arithmetic::div_mod::lemma_fundamental_div_mod(v as int, 10000);
                }
            }
        }
        return None;
    }
    let v = total as u64;
    let p2 = p1 + 5;
    proof {
        lemma_fixed4_split(ip as int, frac as int);
        lemma_fixed4_structure(v);
        lemma_frac4_compose((b1 - 48) as int, (b2 - 48) as int, (b3 - 48) as int, (b4 - 48) as int);
        assert(s.subrange(pos as int, p2 as int) =~= fixed4_digits(v));
        assert forall|w: u64| fixed4_at(s, pos as int, w)
            implies w == v && pos + fixed4_digits(w).len() == p2 by {
            lemma_fixed4_shape(s, pos as int, w);
            lemma_frac4_recover((w % 10000) as int);
            vstd::arithmetic::div_mod::lemma_fundamental_div_mod(w as int, 10000);
        }
    }
    Some((v, p2))
}

} // verus!

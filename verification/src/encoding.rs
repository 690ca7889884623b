//! Byte-level encodings of natural numbers.
//!
//! `le_bytes_value` gives the number that a little-endian byte string
//! denotes; the byte bridge and the byte-serialization contracts of the
//! field trait are stated over it.
use vstd::arithmetic::div_mod::lemma_fundamental_div_mod;
use vstd::arithmetic::div_mod::lemma_multiply_divide_lt;
use vstd::prelude::*;

verus! {

/// 256 raised to `n`: the number of byte strings of length `n`.
pub open spec fn pow256(n: nat) -> nat
    decreases n,
{
    if n == 0 {
        1
    } else {
        256 * pow256((n - 1) as nat)
    }
}

/// The natural number denoted by a little-endian byte string.
pub open spec fn le_bytes_value(s: Seq<u8>) -> nat
    decreases s.len(),
{
    if s.len() == 0 {
        0
    } else {
        (s[0] + 256 * le_bytes_value(s.skip(1))) as nat
    }
}

/// `pow256` grows with its exponent.
pub proof fn lemma_pow256_monotone(a: nat, b: nat)
    requires
        a <= b,
    ensures
        pow256(a) <= pow256(b),
    decreases b,
{
    if a < b {
        lemma_pow256_monotone(a, (b - 1) as nat);
    }
}

/// The concrete sizes of the byte strings that fit in one machine word.
pub proof fn lemma_pow256_words()
    ensures
        pow256(7) == 0x100_0000_0000_0000,
        pow256(8) == 0x1_0000_0000_0000_0000,
{
    reveal_with_fuel(pow256, 9);
}

/// A byte string of length `n` denotes a number below `pow256(n)`.
pub proof fn lemma_le_bytes_value_bound(s: Seq<u8>)
    ensures
        le_bytes_value(s) < pow256(s.len()),
    decreases s.len(),
{
    if s.len() == 0 {
    } else {
        lemma_le_bytes_value_bound(s.skip(1));
    }
}

/// Appending a byte adds its weight at the next power of 256.
pub proof fn lemma_le_bytes_value_push(s: Seq<u8>, b: u8)
    ensures
        le_bytes_value(s.push(b)) == le_bytes_value(s) + (b as nat) * pow256(s.len()),
    decreases s.len(),
{
    let t = s.push(b);
    if s.len() == 0 {
        assert(t.skip(1) =~= Seq::<u8>::empty());
        assert(t[0] == b);
        assert(le_bytes_value(Seq::<u8>::empty()) == 0);
        assert(le_bytes_value(t) == b as nat);
        assert((b as nat) * 1 == b as nat) by (nonlinear_arith);
        assert(le_bytes_value(s) == 0);
        assert(pow256(s.len()) == 1);
    } else {
        lemma_le_bytes_value_push(s.skip(1), b);
        assert(t.skip(1) =~= s.skip(1).push(b));
        assert(t[0] == s[0]);
        let v = le_bytes_value(s.skip(1));
        let p = pow256((s.len() - 1) as nat);
        assert(le_bytes_value(s.skip(1).push(b)) == v + (b as nat) * p);
        assert(le_bytes_value(t) == (t[0] + 256 * le_bytes_value(t.skip(1))) as nat);
        assert(le_bytes_value(t) == (s[0] + 256 * (v + (b as nat) * p)) as nat);
        assert(256 * (v + (b as nat) * p) == 256 * v + (b as nat) * (256 * p))
            by (nonlinear_arith);
        assert(pow256(s.len()) == 256 * p);
        assert(le_bytes_value(s) == (s[0] + 256 * v) as nat);
        assert(le_bytes_value(t) == s[0] + 256 * v + (b as nat) * (256 * p));
    }
}

/// A byte string whose last byte is not zero denotes at least the power of
/// 256 at that byte's position.
pub proof fn lemma_le_bytes_value_last(s: Seq<u8>)
    requires
        s.len() >= 1,
        s[s.len() - 1] != 0,
    ensures
        le_bytes_value(s) >= pow256((s.len() - 1) as nat),
    decreases s.len(),
{
    if s.len() == 1 {
    } else {
        let t = s.skip(1);
        assert(t[t.len() - 1] == s[s.len() - 1]);
        lemma_le_bytes_value_last(t);
    }
}

/// The eight-byte little-endian form of a `u64`.
pub fn u64_to_le8(v: u64) -> (r: Vec<u8>)
    ensures
        r@.len() == 8,
        le_bytes_value(r@) == v as nat,
{
    let mut out: Vec<u8> = Vec::new();
    let mut x: u64 = v;
    let mut i: usize = 0;
    proof {
        assert(out@ =~= Seq::<u8>::empty());
        lemma_pow256_words();
        assert((x as nat) * 1 == x as nat) by (nonlinear_arith);
    }
    while i < 8
        invariant
            i <= 8,
            out@.len() == i,
            le_bytes_value(out@) + (x as nat) * pow256(i as nat) == v as nat,
            (x as nat) < pow256((8 - i) as nat),
        decreases 8 - i,
    {
        let b: u8 = (x % 256) as u8;
        let q: u64 = x / 256;
        proof {
            lemma_le_bytes_value_push(out@, b);
            lemma_fundamental_div_mod(x as int, 256);
            let c = pow256((8 - i - 1) as nat);
            assert(pow256((8 - i) as nat) == 256 * c);
            lemma_multiply_divide_lt(x as int, 256, c as int);
            let p = pow256(i as nat);
            assert((b as nat) + 256 * (q as nat) == x as nat);
            assert(((b as nat) + 256 * (q as nat)) * p == (b as nat) * p + (q as nat) * (256
                * p)) by (nonlinear_arith);
            assert((x as nat) * p == ((b as nat) + 256 * (q as nat)) * p);
            assert(pow256((i + 1) as nat) == 256 * p);
        }
        out.push(b);
        x = q;
        i = i + 1;
    }
    out
}

/// The `u64` denoted by at most eight little-endian bytes.
pub fn le_bytes_to_u64(bytes: &[u8]) -> (r: u64)
    requires
        bytes@.len() <= 8,
    ensures
        r as nat == le_bytes_value(bytes@),
{
    let n: usize = bytes.len();
    let mut acc: u64 = 0;
    let mut j: usize = n;
    proof {
        assert(bytes@.skip(n as int) =~= Seq::<u8>::empty());
    }
    while j > 0
        invariant
            j <= n,
            n == bytes@.len(),
            n <= 8,
            acc as nat == le_bytes_value(bytes@.skip(j as int)),
            (acc as nat) < pow256((n - j) as nat),
        decreases j,
    {
        proof {
            let jj = j - 1;
            assert(bytes@.skip(jj).skip(1) =~= bytes@.skip(jj + 1));
            assert(bytes@.skip(jj)[0] == bytes@[jj]);
            lemma_pow256_monotone((n - j) as nat, 7);
            lemma_pow256_words();
            assert(pow256((n - jj) as nat) == 256 * pow256((n - j) as nat));
        }
        j = j - 1;
        acc = bytes[j] as u64 + 256 * acc;
    }
    proof {
        assert(bytes@.skip(0) =~= bytes@);
    }
    acc
}

/// Whether `c` is a decimal digit.
pub open spec fn is_dec_digit(c: char) -> bool {
    48 <= c as u32 && c as u32 <= 57
}

/// The numeric value of a decimal digit character.
pub open spec fn dec_char_value(c: char) -> nat {
    (c as u32 - 48) as nat
}

/// The character of a decimal digit value.
pub open spec fn dec_char_of(d: nat) -> char {
    ((d + 48) as u8) as char
}

/// The canonical decimal form of `n`: its digits, most significant first,
/// a single zero digit for zero, and no leading zeros otherwise.
pub open spec fn dec_string_of(n: nat) -> Seq<char>
    decreases n,
{
    if n < 10 {
        seq![dec_char_of(n)]
    } else {
        dec_string_of(n / 10).push(dec_char_of(n % 10))
    }
}

/// Whether `s` is a nonempty string of decimal digits. Leading zeros are
/// allowed: `"007"` denotes 7.
pub open spec fn is_dec_string(s: Seq<char>) -> bool {
    s.len() >= 1 && forall|i: int| 0 <= i < s.len() ==> is_dec_digit(#[trigger] s[i])
}

/// The number that a string of decimal digits denotes.
pub open spec fn dec_value(s: Seq<char>) -> nat
    decreases s.len(),
{
    if s.len() == 0 {
        0
    } else {
        dec_value(s.drop_last()) * 10 + dec_char_value(s.last())
    }
}

/// Printing a number in decimal and reading the digits back gives the
/// number itself.
pub proof fn lemma_dec_string_round_trip(n: nat)
    ensures
        is_dec_string(dec_string_of(n)),
        dec_value(dec_string_of(n)) == n,
    decreases n,
{
    if n < 10 {
        let s = dec_string_of(n);
        assert(s.drop_last() =~= Seq::<char>::empty());
        assert(s.last() == dec_char_of(n));
        assert(dec_char_value(dec_char_of(n)) == n);
        assert(dec_value(Seq::<char>::empty()) == 0);
        assert(dec_value(s) == dec_value(s.drop_last()) * 10 + dec_char_value(s.last()));
    } else {
        lemma_dec_string_round_trip(n / 10);
        let s = dec_string_of(n / 10);
        let c = dec_char_of(n % 10);
        assert(s.push(c).drop_last() =~= s);
        assert(s.push(c).last() == c);
        assert(dec_char_value(c) == n % 10);
        lemma_fundamental_div_mod(n as int, 10);
        assert(dec_value(s.push(c)) == dec_value(s) * 10 + dec_char_value(c));
    }
}

/// 10 raised to `n`: the bound under which `n` decimal digits suffice.
pub open spec fn pow10(n: nat) -> nat
    decreases n,
{
    if n == 0 {
        1
    } else {
        10 * pow10((n - 1) as nat)
    }
}

/// A number below `pow10(k)` prints in at most `k` decimal digits.
pub proof fn lemma_dec_string_len(n: nat, k: nat)
    requires
        n < pow10(k),
        k >= 1,
    ensures
        dec_string_of(n).len() <= k,
    decreases n,
{
    if n < 10 {
    } else {
        assert(pow10(k) == 10 * pow10((k - 1) as nat));
        lemma_multiply_divide_lt(n as int, 10, pow10((k - 1) as nat) as int);
        if k == 1 {
            assert(pow10(0nat) == 1);
            assert(false);
        } else {
            lemma_dec_string_len(n / 10, (k - 1) as nat);
        }
    }
}

/// Twenty decimal digits cover the 60-bit range.
pub proof fn lemma_pow10_covers_low60()
    ensures
        0x1000_0000_0000_0000 < pow10(19),
{
    reveal_with_fuel(pow10, 20);
}

/// The characters that a byte string spells, one character per byte.
pub open spec fn chars_of_bytes(bs: Seq<u8>) -> Seq<char> {
    Seq::new(bs.len(), |i: int| bs[i] as char)
}

/// Relies on `String::from_utf8`: bytes below 128 are ASCII, which decodes
/// to exactly those code points; the precondition keeps the call from
/// failing.
#[verifier::external_body]
fn ascii_to_string(bytes: Vec<u8>) -> (r: String)
    requires
        forall|i: int| 0 <= i < bytes@.len() ==> bytes@[i] < 128,
    ensures
        r@ == chars_of_bytes(bytes@),
{
    String::from_utf8(bytes).unwrap()
}

/// The canonical decimal form of a `u64`.
pub fn u64_to_dec(v: u64) -> (r: String)
    ensures
        r@ == dec_string_of(v as nat),
{
    let mut digits: Vec<u8> = Vec::new();
    let mut x: u64 = v;
    proof {
        assert(chars_of_bytes(Seq::<u8>::empty()).reverse() =~= Seq::<char>::empty());
        assert(dec_string_of(v as nat) =~= dec_string_of(v as nat)
            + chars_of_bytes(Seq::<u8>::empty()).reverse());
    }
    loop
        invariant_except_break
            dec_string_of(v as nat) == dec_string_of(x as nat) + chars_of_bytes(
                digits@,
            ).reverse(),
        invariant
            forall|i: int| 0 <= i < digits@.len() ==> 48 <= #[trigger] digits@[i] < 58,
        ensures
            dec_string_of(v as nat) == chars_of_bytes(digits@).reverse(),
            forall|i: int| 0 <= i < digits@.len() ==> 48 <= #[trigger] digits@[i] < 58,
        decreases x,
    {
        let d: u8 = (x % 10) as u8 + 48;
        let ghost pre = digits@;
        digits.push(d);
        let x2: u64 = x / 10;
        proof {
            assert(d as char == dec_char_of((x % 10) as nat));
            assert(chars_of_bytes(pre.push(d)).reverse() =~= seq![d as char] + chars_of_bytes(
                pre,
            ).reverse());
            lemma_fundamental_div_mod(x as int, 10);
            if x >= 10 {
                assert(dec_string_of(x as nat) == dec_string_of(x2 as nat).push(
                    dec_char_of((x % 10) as nat),
                ));
                assert(dec_string_of(x2 as nat).push(dec_char_of((x % 10) as nat))
                    + chars_of_bytes(pre).reverse() =~= dec_string_of(x2 as nat) + (seq![
                    d as char,
                ] + chars_of_bytes(pre).reverse()));
                assert(dec_string_of(v as nat) == dec_string_of(x2 as nat) + chars_of_bytes(
                    digits@,
                ).reverse());
            } else {
                assert(dec_string_of(x as nat) == seq![dec_char_of(x as nat)]);
                assert(seq![dec_char_of(x as nat)] + chars_of_bytes(pre).reverse()
                    =~= chars_of_bytes(digits@).reverse());
            }
        }
        x = x2;
        if x == 0 {
            break;
        }
    }
    let n: usize = digits.len();
    let mut bytes: Vec<u8> = Vec::new();
    let mut j: usize = n;
    while j > 0
        invariant
            j <= n,
            n == digits@.len(),
            bytes@.len() == n - j,
            forall|i: int| 0 <= i < bytes@.len() ==> bytes@[i] == digits@[n - 1 - i],
            forall|i: int| 0 <= i < digits@.len() ==> 48 <= #[trigger] digits@[i] < 58,
        decreases j,
    {
        j = j - 1;
        let b = digits[j];
        bytes.push(b);
    }
    proof {
        assert(chars_of_bytes(bytes@) =~= chars_of_bytes(digits@).reverse());
    }
    ascii_to_string(bytes)
}

} // verus!

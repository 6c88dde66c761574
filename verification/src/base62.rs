use vstd::prelude::*;

verus! {

use vstd::arithmetic::div_mod::lemma_fundamental_div_mod;
use vstd::arithmetic::div_mod::lemma_fundamental_div_mod_converse;
use vstd::arithmetic::power::pow;
use vstd::arithmetic::power::lemma_pow_increases;
use vstd::arithmetic::power::lemma_pow_multiplies;
use vstd::string::StrSliceExecFns;

/// The unsigned integer a byte sequence denotes, big-endian.
pub open spec fn be_val(s: Seq<u8>) -> nat
    decreases s.len(),
{
    if s.len() == 0 {
        0
    } else {
        be_val(s.drop_last()) * 256 + (s.last() as nat)
    }
}

/// The base62 digit values of `n`, most significant first, without leading
/// zeros; empty for zero.
pub open spec fn b62_digits(n: nat) -> Seq<u8>
    decreases n,
{
    if n == 0 {
        Seq::empty()
    } else {
        b62_digits(n / 62).push((n % 62) as u8)
    }
}

/// The value a sequence of base62 digit values denotes.
pub open spec fn digits_val(s: Seq<u8>) -> nat
    decreases s.len(),
{
    if s.len() == 0 {
        0
    } else {
        digits_val(s.drop_last()) * 62 + (s.last() as nat)
    }
}

/// The ASCII byte rendering base62 digit `d`: `'0'`-`'9'`, then `'A'`-`'Z'`,
/// then `'a'`-`'z'`.
pub open spec fn b62_byte(d: u8) -> u8 {
    if d < 10 {
        (0x30 + d) as u8
    } else if d < 36 {
        (0x37 + d) as u8
    } else {
        (0x3D + d) as u8
    }
}

/// Digit values padded with zeros on the left to the fixed width of 27.
pub open spec fn zero_pad27(s: Seq<u8>) -> Seq<u8> {
    if s.len() >= 27 {
        s
    } else {
        Seq::new((27 - s.len()) as nat, |i: int| 0u8) + s
    }
}

/// The base62 rendering of `n`: its digits, zero-padded to width 27, as
/// characters of the alphabet.
pub open spec fn b62_encoding(n: nat) -> Seq<char> {
    zero_pad27(b62_digits(n)).map_values(|d: u8| b62_byte(d) as char)
}

/// Whether `c` belongs to the 62-symbol alphabet.
pub open spec fn is_base62_char(c: char) -> bool {
    ('0' <= c && c <= '9') || ('A' <= c && c <= 'Z') || ('a' <= c && c <= 'z')
}

/// The digit value of an alphabet character (meaningless outside the alphabet).
pub open spec fn b62_char_val(c: char) -> nat {
    if '0' <= c && c <= '9' {
        (c as nat - 0x30) as nat
    } else if 'A' <= c && c <= 'Z' {
        (c as nat - 0x41 + 10) as nat
    } else {
        (c as nat - 0x61 + 36) as nat
    }
}

/// The value a sequence of base62 characters denotes.
pub open spec fn b62_val(s: Seq<char>) -> nat
    decreases s.len(),
{
    if s.len() == 0 {
        0
    } else {
        b62_val(s.drop_last()) * 62 + b62_char_val(s.last())
    }
}

/// A big-endian byte string denotes zero exactly when every byte is zero.
proof fn lemma_be_val_zero(s: Seq<u8>)
    ensures
        (be_val(s) == 0) <==> (forall|i: int| 0 <= i < s.len() ==> s[i] == 0),
    decreases s.len(),
{
    if s.len() > 0 {
        lemma_be_val_zero(s.drop_last());
        if be_val(s) == 0 {
            assert(forall|i: int| 0 <= i < s.len() - 1 ==> s[i] == s.drop_last()[i]);
        } else {
            if forall|i: int| 0 <= i < s.len() ==> s[i] == 0 {
                assert(forall|i: int|
                    0 <= i < s.drop_last().len() ==> #[trigger] s.drop_last()[i] == s[i]);
                assert(s.last() == 0);
            }
        }
    }
}

/// A byte string of length `k` denotes a value below 256^k.
proof fn lemma_be_val_bound(s: Seq<u8>)
    ensures
        be_val(s) < pow(256, s.len() as nat),
    decreases s.len(),
{
    reveal(pow);
    if s.len() == 0 {
        assert(pow(256, 0) == 1);
    } else {
        lemma_be_val_bound(s.drop_last());
        assert(pow(256, s.len() as nat) == 256 * pow(256, (s.len() - 1) as nat));
        assert(be_val(s.drop_last()) * 256 + (s.last() as nat) < pow(
            256,
            (s.len() - 1) as nat,
        ) * 256) by (nonlinear_arith)
            requires
                be_val(s.drop_last()) < pow(256, (s.len() - 1) as nat),
                s.last() < 256,
        ;
    }
}

/// A value below 62^k has at most k base62 digits.
proof fn lemma_b62_digits_len(n: nat, k: nat)
    requires
        n < pow(62, k),
    ensures
        b62_digits(n).len() <= k,
    decreases k,
{
    reveal(pow);
    if n > 0 {
        assert(k > 0) by {
            if k == 0 {
                assert(pow(62, 0) == 1);
            }
        }
        assert(pow(62, k) == 62 * pow(62, (k - 1) as nat));
        assert(n / 62 < pow(62, (k - 1) as nat)) by (nonlinear_arith)
            requires
                n < 62 * pow(62, (k - 1) as nat),
        ;
        lemma_b62_digits_len(n / 62, (k - 1) as nat);
    }
}

/// Taking the digits of a value and reading them back gives the value.
proof fn lemma_b62_digits_val(n: nat)
    ensures
        digits_val(b62_digits(n)) == n,
    decreases n,
{
    if n > 0 {
        lemma_b62_digits_val(n / 62);
        let d = b62_digits(n);
        assert(d.drop_last() =~= b62_digits(n / 62));
        lemma_fundamental_div_mod(n as int, 62);
    }
}

/// Every digit the digit expansion produces is below 62.
proof fn lemma_b62_digits_in_range(n: nat)
    ensures
        forall|i: int| 0 <= i < b62_digits(n).len() ==> #[trigger] b62_digits(n)[i] < 62,
    decreases n,
{
    if n > 0 {
        lemma_b62_digits_in_range(n / 62);
        let prev = b62_digits(n / 62);
        assert(forall|i: int|
            0 <= i < prev.len() ==> #[trigger] b62_digits(n)[i] == prev[i]);
    }
}

/// Leading zero digits do not change the value digits denote.
proof fn lemma_digits_val_pad(z: Seq<u8>, s: Seq<u8>)
    requires
        forall|i: int| 0 <= i < z.len() ==> z[i] == 0,
    ensures
        digits_val(z + s) == digits_val(s),
    decreases s.len(),
{
    if s.len() == 0 {
        assert(z + s =~= z);
        lemma_digits_val_all_zero(z);
    } else {
        lemma_digits_val_pad(z, s.drop_last());
        assert((z + s).drop_last() =~= z + s.drop_last());
        assert((z + s).last() == s.last());
    }
}

/// All-zero digits denote zero.
proof fn lemma_digits_val_all_zero(z: Seq<u8>)
    requires
        forall|i: int| 0 <= i < z.len() ==> z[i] == 0,
    ensures
        digits_val(z) == 0,
    decreases z.len(),
{
    if z.len() > 0 {
        assert(forall|i: int|
            0 <= i < z.drop_last().len() ==> #[trigger] z.drop_last()[i] == z[i]);
        lemma_digits_val_all_zero(z.drop_last());
    }
}

/// Divide the big-endian number held in `v` by 62 in place; the remainder
/// is returned and the length is kept.
fn div62_in_place(v: &mut Vec<u8>) -> (rem: u8)
    ensures
        final(v)@.len() == old(v)@.len(),
        be_val(old(v)@) == be_val(final(v)@) * 62 + rem,
        rem < 62,
{
    let ghost orig: Seq<u8> = v@;
    let n: usize = v.len();
    let mut carry: u16 = 0;
    let mut i: usize = 0;
    while i < n
        invariant
            i <= n,
            n == v@.len(),
            orig.len() == n,
            carry < 62,
            forall|k: int| i <= k < n ==> v@[k] == orig[k],
            be_val(orig.take(i as int)) == be_val(v@.take(i as int)) * 62 + carry,
        decreases n - i,
    {
        let ghost pre: Seq<u8> = v@;
        let cur: u16 = carry * 256 + (v[i] as u16);
        let q: u8 = (cur / 62) as u8;
        let new_carry: u16 = cur % 62;
        v.set(i, q);
        proof {
            lemma_fundamental_div_mod(cur as int, 62);
            assert(v@.take(i as int) =~= pre.take(i as int));
            assert(v@.take(i + 1) =~= pre.take(i as int).push(q));
            assert(v@.take(i + 1).drop_last() =~= pre.take(i as int));
            assert(orig.take(i + 1).drop_last() =~= orig.take(i as int));
            assert(orig.take(i + 1).last() == orig[i as int]);
            // the value of the processed prefix advances by one base-256 digit
            let a = be_val(pre.take(i as int));
            let b = be_val(orig.take(i as int));
            assert(b * 256 == (a * 62 + carry) * 256) by (nonlinear_arith)
                requires
                    b == a * 62 + carry,
            ;
            assert((a * 62 + carry) * 256 + orig[i as int] == (a * 256 + q) * 62 + new_carry)
                by (nonlinear_arith)
                requires
                    carry * 256 + orig[i as int] == q * 62 + new_carry,
            ;
        }
        carry = new_carry;
        i = i + 1;
    }
    proof {
        assert(orig.take(n as int) =~= orig);
        assert(v@.take(n as int) =~= v@);
    }
    carry as u8
}

/// Any number that 20 bytes can hold fits in 27 base62 digits.
proof fn lemma_20_bytes_fit_27_digits()
    ensures
        pow(256, 20) < pow(62, 27),
{
    assert(pow(62, 9) == 13537086546263552) by {
        reveal_with_fuel(pow, 10);
    }
    lemma_pow_multiplies(62, 9, 3);
    assert(pow(13537086546263552, 3) == 13537086546263552 * 13537086546263552
        * 13537086546263552) by {
        reveal_with_fuel(pow, 4);
    }
    assert(pow(256, 5) == 1099511627776) by {
        reveal_with_fuel(pow, 6);
    }
    lemma_pow_multiplies(256, 5, 4);
    assert(pow(1099511627776, 4) == 1099511627776 * 1099511627776 * 1099511627776
        * 1099511627776) by {
        reveal_with_fuel(pow, 5);
    }
}

/// Rendering a digit gives a character of the alphabet, and reading the
/// character back gives the digit.
proof fn lemma_byte_char_inverse(d: u8)
    requires
        d < 62,
    ensures
        is_base62_char(b62_byte(d) as char),
        b62_char_val(b62_byte(d) as char) == d,
{
}

/// Mapping digit values to alphabet characters keeps the denoted value.
proof fn lemma_b62_val_of_mapped(s: Seq<u8>)
    requires
        forall|i: int| 0 <= i < s.len() ==> s[i] < 62,
    ensures
        b62_val(s.map_values(|d: u8| b62_byte(d) as char)) == digits_val(s),
    decreases s.len(),
{
    let f = |d: u8| b62_byte(d) as char;
    if s.len() > 0 {
        assert(forall|i: int|
            0 <= i < s.drop_last().len() ==> #[trigger] s.drop_last()[i] == s[i]);
        lemma_b62_val_of_mapped(s.drop_last());
        assert(s.map_values(f).drop_last() =~= s.drop_last().map_values(f));
        assert(s.map_values(f).last() == f(s.last()));
        lemma_byte_char_inverse(s.last());
    }
}

/// Law: base62 round trip. Reading the 27-character rendering of the number
/// a byte string denotes gives that number back, for every byte string.
pub proof fn lemma_base62_round_trip(bytes: Seq<u8>)
    ensures
        b62_val(b62_encoding(be_val(bytes))) == be_val(bytes),
{
    let n = be_val(bytes);
    let ds = b62_digits(n);
    let padded = zero_pad27(ds);
    lemma_b62_digits_in_range(n);
    assert(forall|i: int| 0 <= i < padded.len() ==> padded[i] < 62);
    lemma_b62_val_of_mapped(padded);
    if ds.len() < 27 {
        let z = Seq::new((27 - ds.len()) as nat, |i: int| 0u8);
        lemma_digits_val_pad(z, ds);
    }
    lemma_b62_digits_val(n);
}

/// The ASCII byte rendering digit `d`.
fn b62_byte_of(d: u8) -> (r: u8)
    requires
        d < 62,
    ensures
        r == b62_byte(d),
{
    if d < 10 {
        0x30 + d
    } else if d < 36 {
        0x37 + d
    } else {
        0x3D + d
    }
}

/// Relies on String::from_utf8: ASCII bytes are valid UTF-8 and decode to
/// exactly the characters with those code points.
#[verifier::external_body]
fn ascii_to_string(bytes: Vec<u8>) -> (r: String)
    requires
        forall|i: int| 0 <= i < bytes@.len() ==> bytes@[i] < 128,
    ensures
        r@.len() == bytes@.len(),
        forall|i: int| 0 <= i < bytes@.len() ==> r@[i] == bytes@[i] as char,
{
    String::from_utf8(bytes).unwrap()
}

/// Render the big-endian number in `data` in base62: its digits over the
/// alphabet `0-9A-Za-z`, zero-padded on the left to at least 27 characters.
/// For the 20-byte payloads of a KSUID the result is exactly 27 characters.
pub fn base62_encode(data: &[u8]) -> (r: String)
    ensures
        r@ == b62_encoding(be_val(data@)),
        data@.len() <= 20 ==> r@.len() == 27,
        forall|i: int| 0 <= i < r@.len() ==> is_base62_char(#[trigger] r@[i]),
{
    let ghost v0: nat = be_val(data@);
    let mut value: Vec<u8> = vstd::slice::slice_to_vec(data);
    let mut digits: Vec<u8> = Vec::new();  // digit values, least significant first
    let mut done: bool = is_zero(&value);
    proof {
        assert(b62_digits(v0) =~= b62_digits(be_val(value@)) + digits@.reverse());
    }
    while !done
        invariant
            done <==> be_val(value@) == 0,
            forall|k: int| 0 <= k < digits@.len() ==> digits@[k] < 62,
            b62_digits(v0) =~= b62_digits(be_val(value@)) + digits@.reverse(),
        decreases be_val(value@),
    {
        let ghost val_pre: nat = be_val(value@);
        let ghost digits_pre: Seq<u8> = digits@;
        let rem: u8 = div62_in_place(&mut value);
        digits.push(rem);
        proof {
            let val_post = be_val(value@);
            lemma_fundamental_div_mod_converse(
                val_pre as int,
                62,
                val_post as int,
                rem as int,
            );
            assert(b62_digits(val_pre) == b62_digits(val_post).push(rem));
            assert(digits@.reverse() =~= seq![rem] + digits_pre.reverse());
            assert(b62_digits(val_post) + digits@.reverse() =~= (b62_digits(val_post).push(
                rem,
            )) + digits_pre.reverse());
            // the value strictly shrinks, so the loop ends
            assert(val_post < val_pre);
        }
        done = is_zero(&value);
    }
    proof {
        assert(b62_digits(v0) =~= digits@.reverse());
    }
    let ghost base_len: int = b62_digits(v0).len() as int;
    while digits.len() < 27
        invariant
            digits@.len() >= base_len,
            base_len >= 27 ==> digits@.len() == base_len,
            base_len < 27 ==> digits@.len() <= 27,
            forall|k: int| 0 <= k < digits@.len() ==> digits@[k] < 62,
            digits@.reverse() =~= Seq::new((digits@.len() - base_len) as nat, |i: int| 0u8)
                + b62_digits(v0),
        decreases 27 - digits@.len(),
    {
        let ghost digits_pre: Seq<u8> = digits@;
        digits.push(0);
        proof {
            assert(digits@.reverse() =~= seq![0u8] + digits_pre.reverse());
            assert(digits@.reverse() =~= Seq::new(
                (digits@.len() - base_len) as nat,
                |i: int| 0u8,
            ) + b62_digits(v0));
        }
    }
    proof {
        assert(digits@.reverse() =~= zero_pad27(b62_digits(v0)));
    }
    let ghost padded: Seq<u8> = zero_pad27(b62_digits(v0));
    let mut out: Vec<u8> = Vec::new();
    let mut j: usize = digits.len();
    while j > 0
        invariant
            j <= digits@.len(),
            digits@.len() == padded.len(),
            digits@.reverse() =~= padded,
            forall|k: int| 0 <= k < digits@.len() ==> digits@[k] < 62,
            out@.len() == digits@.len() - j,
            forall|k: int| 0 <= k < out@.len() ==> out@[k] == b62_byte(padded[k]),
            forall|k: int| 0 <= k < out@.len() ==> out@[k] < 128,
        decreases j,
    {
        j = j - 1;
        let d: u8 = digits[j];
        proof {
            assert(padded[digits@.len() - 1 - j] == digits@.reverse()[digits@.len() - 1 - j]);
            assert(digits@.reverse()[digits@.len() - 1 - j] == d);
        }
        out.push(b62_byte_of(d));
    }
    let r = ascii_to_string(out);
    proof {
        assert(r@ =~= b62_encoding(v0));
        if data@.len() <= 20 {
            lemma_be_val_bound(data@);
            lemma_pow_increases(256, data@.len() as nat, 20);
            lemma_20_bytes_fit_27_digits();
            lemma_b62_digits_len(v0, 27);
            assert(padded.len() == 27);
        }
        assert(forall|i: int| 0 <= i < padded.len() ==> padded[i] < 62);
        assert forall|i: int| 0 <= i < r@.len() implies is_base62_char(#[trigger] r@[i]) by {
            lemma_byte_char_inverse(padded[i]);
        }
    }
    r
}

/// Whether `v` holds the number zero.
fn is_zero(v: &Vec<u8>) -> (r: bool)
    ensures
        r <==> be_val(v@) == 0,
{
    let n: usize = v.len();
    let mut i: usize = 0;
    while i < n
        invariant
            i <= n,
            n == v@.len(),
            forall|k: int| 0 <= k < i ==> v@[k] == 0,
        decreases n - i,
    {
        if v[i] != 0 {
            proof {
                lemma_be_val_zero(v@);
            }
            return false;
        }
        i = i + 1;
    }
    proof {
        lemma_be_val_zero(v@);
    }
    true
}

/// Prepending a byte adds its value at the position its place dictates.
proof fn lemma_be_val_prepend(b: u8, t: Seq<u8>)
    ensures
        be_val(seq![b] + t) == b * pow(256, t.len() as nat) + be_val(t),
    decreases t.len(),
{
    reveal(pow);
    if t.len() == 0 {
        assert(seq![b] + t =~= seq![b]);
        assert(be_val(seq![b]) == b) by {
            assert(seq![b].drop_last() =~= Seq::<u8>::empty());
            assert(be_val(Seq::<u8>::empty()) == 0);
            assert(seq![b].last() == b);
        }
    } else {
        assert((seq![b] + t).drop_last() =~= seq![b] + t.drop_last());
        assert((seq![b] + t).last() == t.last());
        lemma_be_val_prepend(b, t.drop_last());
        let p = pow(256, (t.len() - 1) as nat);
        assert((b * p + be_val(t.drop_last())) * 256 + t.last() == b * (256 * p) + (be_val(
            t.drop_last(),
        ) * 256 + t.last())) by (nonlinear_arith);
    }
}

/// Multiply the big-endian number in `v` by 62 and add `d`, in place.
/// Reports overflow instead of growing: `true` exactly when the result
/// does not fit the bytes of `v`, which are then meaningless.
fn mul62_add_in_place(v: &mut Vec<u8>, d: u8) -> (overflow: bool)
    requires
        d < 62,
    ensures
        final(v)@.len() == old(v)@.len(),
        !overflow ==> be_val(final(v)@) == be_val(old(v)@) * 62 + d,
        overflow <==> be_val(old(v)@) * 62 + d >= pow(256, old(v)@.len() as nat),
{
    let ghost orig: Seq<u8> = v@;
    let n: usize = v.len();
    let mut carry: u16 = d as u16;
    let mut i: usize = n;
    proof {
        reveal(pow);
        assert(orig.skip(n as int) =~= Seq::<u8>::empty());
        assert(v@.skip(n as int) =~= Seq::<u8>::empty());
    }
    while i > 0
        invariant
            i <= n,
            n == v@.len(),
            orig.len() == n,
            carry < 62,
            forall|k: int| 0 <= k < i ==> v@[k] == orig[k],
            be_val(orig.skip(i as int)) * 62 + d == be_val(v@.skip(i as int)) + carry * pow(
                256,
                (n - i) as nat,
            ),
        decreases i,
    {
        i = i - 1;
        let ghost pre: Seq<u8> = v@;
        let ghost carry_pre: u16 = carry;
        let cur: u16 = (v[i] as u16) * 62 + carry;
        let nb: u8 = (cur % 256) as u8;
        v.set(i, nb);
        carry = cur / 256;
        proof {
            reveal(pow);
            lemma_fundamental_div_mod(cur as int, 256);
            assert(carry < 62) by (nonlinear_arith)
                requires
                    carry == cur / 256,
                    cur < 15872,
            ;
            let p = pow(256, (n - i - 1) as nat);
            let p1 = pow(256, (n - i) as nat);
            assert(p1 == 256 * p);
            assert(p > 0) by {
                vstd::arithmetic::power::lemma_pow_positive(256, (n - i - 1) as nat);
            }
            assert(orig.skip(i as int) =~= seq![orig[i as int]] + orig.skip(i + 1));
            lemma_be_val_prepend(orig[i as int], orig.skip(i + 1));
            assert(orig.skip(i + 1).len() == n - i - 1);
            assert(v@.skip(i + 1) =~= pre.skip(i + 1));
            assert(v@.skip(i as int) =~= seq![nb] + v@.skip(i + 1));
            lemma_be_val_prepend(nb, v@.skip(i + 1));
            assert(v@.skip(i + 1).len() == n - i - 1);
            let ov = orig[i as int] as int;
            let a = be_val(orig.skip(i + 1)) as int;
            let bb = be_val(pre.skip(i + 1)) as int;
            assert((ov * p + a) * 62 + d == (carry as int) * (256 * p) + ((nb as int) * p + bb))
                by (nonlinear_arith)
                requires
                    a * 62 + d == bb + (carry_pre as int) * p,
                    ov * 62 + carry_pre == cur,
                    cur == (carry as int) * 256 + nb,
                    p > 0,
            ;
        }
    }
    proof {
        assert(orig.skip(0) =~= orig);
        assert(v@.skip(0) =~= v@);
    }
    if carry == 0 {
        proof {
            lemma_be_val_bound(v@);
        }
        false
    } else {
        proof {
            let pn = pow(256, n as nat);
            assert(pn > 0) by {
                vstd::arithmetic::power::lemma_pow_positive(256, n as nat);
            }
            assert((carry as int) * pn >= pn) by (nonlinear_arith)
                requires
                    carry >= 1,
                    pn > 0,
            ;
        }
        true
    }
}

/// The digit value of a character of the alphabet; `None` outside it.
fn b62_char_digit(c: char) -> (r: Option<u8>)
    ensures
        r is Some <==> is_base62_char(c),
        r matches Some(d) ==> d < 62 && d == b62_char_val(c),
{
    let u = c as u32;
    if 0x30 <= u && u <= 0x39 {
        Some((u - 0x30) as u8)
    } else if 0x41 <= u && u <= 0x5A {
        Some((u - 0x41 + 10) as u8)
    } else if 0x61 <= u && u <= 0x7A {
        Some((u - 0x61 + 36) as u8)
    } else {
        None
    }
}

/// A string's value never falls below the value of one of its prefixes.
proof fn lemma_b62_val_prefix(s: Seq<char>, i: int)
    requires
        0 <= i <= s.len(),
    ensures
        b62_val(s) >= b62_val(s.take(i)),
    decreases s.len() - i,
{
    if i < s.len() {
        assert(s.take(i + 1).drop_last() =~= s.take(i));
        assert(b62_val(s.take(i + 1)) == b62_val(s.take(i)) * 62 + b62_char_val(
            s.take(i + 1).last(),
        ));
        lemma_b62_val_prefix(s, i + 1);
    } else {
        assert(s.take(i) =~= s);
    }
}

/// Read a base62 rendering back into the 20 bytes of a KSUID payload,
/// big-endian. `None` exactly when a character falls outside the alphabet
/// or the denoted value needs more than 20 bytes.
pub fn base62_decode(s: &str) -> (r: Option<Vec<u8>>)
    ensures
        r is Some <==> ((forall|i: int| 0 <= i < s@.len() ==> is_base62_char(#[trigger] s@[i]))
            && b62_val(s@) < pow(256, 20)),
        r matches Some(v) ==> v@.len() == 20 && be_val(v@) == b62_val(s@),
{
    let n: usize = s.unicode_len();
    let mut buf: Vec<u8> = Vec::new();
    let mut z: usize = 0;
    while z < 20
        invariant
            buf@.len() == z,
            z <= 20,
            forall|k: int| 0 <= k < buf@.len() ==> buf@[k] == 0,
        decreases 20 - z,
    {
        buf.push(0);
        z = z + 1;
    }
    proof {
        lemma_be_val_zero(buf@);
        assert(s@.take(0) =~= Seq::<char>::empty());
    }
    let mut i: usize = 0;
    while i < n
        invariant
            i <= n,
            n == s@.len(),
            buf@.len() == 20,
            forall|k: int| 0 <= k < i ==> is_base62_char(#[trigger] s@[k]),
            be_val(buf@) == b62_val(s@.take(i as int)),
        decreases n - i,
    {
        let c = s.get_char(i);
        let d = match b62_char_digit(c) {
            Some(d) => d,
            None => {
                return None;
            },
        };
        let ghost buf_pre: Seq<u8> = buf@;
        let overflow = mul62_add_in_place(&mut buf, d);
        proof {
            assert(s@.take(i + 1).drop_last() =~= s@.take(i as int));
            assert(s@.take(i + 1).last() == c);
            assert(b62_val(s@.take(i + 1)) == b62_val(s@.take(i as int)) * 62 + d);
        }
        if overflow {
            proof {
                lemma_b62_val_prefix(s@, i + 1);
            }
            return None;
        }
        i = i + 1;
    }
    proof {
        assert(s@.take(n as int) =~= s@);
        lemma_be_val_bound(buf@);
    }
    Some(buf)
}

} // verus!

//! The checksummed Base58 codec: a payload is extended with its 4-byte
//! double-SHA-256 checksum, read as one big-endian integer, written in
//! base 58 over the 58-character alphabet, and prefixed with one `'1'` for
//! every leading zero byte of the payload.

use vstd::prelude::*;
use vstd::arithmetic::div_mod::{lemma_fundamental_div_mod, lemma_fundamental_div_mod_converse};
use crate::be_val;
use crate::hashing::{checksum, checksum_of};

verus! {

/// The alphabet: the 58 digit characters, digit value to character.
pub open spec fn b58_char(d: u8) -> char {
    if d == 0 { '1' }
    else if d == 1 { '2' }
    else if d == 2 { '3' }
    else if d == 3 { '4' }
    else if d == 4 { '5' }
    else if d == 5 { '6' }
    else if d == 6 { '7' }
    else if d == 7 { '8' }
    else if d == 8 { '9' }
    else if d == 9 { 'A' }
    else if d == 10 { 'B' }
    else if d == 11 { 'C' }
    else if d == 12 { 'D' }
    else if d == 13 { 'E' }
    else if d == 14 { 'F' }
    else if d == 15 { 'G' }
    else if d == 16 { 'H' }
    else if d == 17 { 'J' }
    else if d == 18 { 'K' }
    else if d == 19 { 'L' }
    else if d == 20 { 'M' }
    else if d == 21 { 'N' }
    else if d == 22 { 'P' }
    else if d == 23 { 'Q' }
    else if d == 24 { 'R' }
    else if d == 25 { 'S' }
    else if d == 26 { 'T' }
    else if d == 27 { 'U' }
    else if d == 28 { 'V' }
    else if d == 29 { 'W' }
    else if d == 30 { 'X' }
    else if d == 31 { 'Y' }
    else if d == 32 { 'Z' }
    else if d == 33 { 'a' }
    else if d == 34 { 'b' }
    else if d == 35 { 'c' }
    else if d == 36 { 'd' }
    else if d == 37 { 'e' }
    else if d == 38 { 'f' }
    else if d == 39 { 'g' }
    else if d == 40 { 'h' }
    else if d == 41 { 'i' }
    else if d == 42 { 'j' }
    else if d == 43 { 'k' }
    else if d == 44 { 'm' }
    else if d == 45 { 'n' }
    else if d == 46 { 'o' }
    else if d == 47 { 'p' }
    else if d == 48 { 'q' }
    else if d == 49 { 'r' }
    else if d == 50 { 's' }
    else if d == 51 { 't' }
    else if d == 52 { 'u' }
    else if d == 53 { 'v' }
    else if d == 54 { 'w' }
    else if d == 55 { 'x' }
    else if d == 56 { 'y' }
    else { 'z' }
}

/// The alphabet, digit value to character, executable form.
fn b58_char_exec(d: u8) -> (r: char)
    requires
        d < 58,
    ensures
        r == b58_char(d),
{
    match d {
        0 => '1',
        1 => '2',
        2 => '3',
        3 => '4',
        4 => '5',
        5 => '6',
        6 => '7',
        7 => '8',
        8 => '9',
        9 => 'A',
        10 => 'B',
        11 => 'C',
        12 => 'D',
        13 => 'E',
        14 => 'F',
        15 => 'G',
        16 => 'H',
        17 => 'J',
        18 => 'K',
        19 => 'L',
        20 => 'M',
        21 => 'N',
        22 => 'P',
        23 => 'Q',
        24 => 'R',
        25 => 'S',
        26 => 'T',
        27 => 'U',
        28 => 'V',
        29 => 'W',
        30 => 'X',
        31 => 'Y',
        32 => 'Z',
        33 => 'a',
        34 => 'b',
        35 => 'c',
        36 => 'd',
        37 => 'e',
        38 => 'f',
        39 => 'g',
        40 => 'h',
        41 => 'i',
        42 => 'j',
        43 => 'k',
        44 => 'm',
        45 => 'n',
        46 => 'o',
        47 => 'p',
        48 => 'q',
        49 => 'r',
        50 => 's',
        51 => 't',
        52 => 'u',
        53 => 'v',
        54 => 'w',
        55 => 'x',
        56 => 'y',
        _ => 'z',
    }
}

/// How many zero bytes the sequence begins with.
pub open spec fn leading_zero_count(s: Seq<u8>) -> nat
    decreases s.len(),
{
    if s.len() == 0 || s[0] != 0 {
        0
    } else {
        1 + leading_zero_count(s.skip(1))
    }
}

/// The base-58 digits of `v`, most significant first, no leading zero
/// digit; zero has no digits.
pub open spec fn b58_digits(v: nat) -> Seq<u8>
    decreases v,
{
    if v == 0 {
        Seq::empty()
    } else {
        b58_digits(v / 58).push((v % 58) as u8)
    }
}

/// `k` copies of one character.
pub open spec fn char_repeat(c: char, k: nat) -> Seq<char> {
    Seq::new(k, |i| c)
}

/// The checksummed Base58 encoding of a payload: the digits of the
/// big-endian value of payload-plus-checksum, behind one `'1'` for every
/// leading zero byte of the payload.
pub open spec fn b58check_chars(payload: Seq<u8>) -> Seq<char> {
    char_repeat('1', leading_zero_count(payload)) + b58_digits(
        be_val(payload + checksum_of(payload)),
    ).map_values(|d: u8| b58_char(d))
}

/// Relies on String::push: appends the character to the end of the string.
#[verifier::external_body]
fn push_char(s: &mut String, c: char)
    ensures
        final(s)@ == old(s)@.push(c),
{
    s.push(c);
}

/// One long-division step: quotient digits and remainder of the big-endian
/// byte string divided by 58.
fn divmod58(v: &Vec<u8>) -> (r: (Vec<u8>, u8))
    ensures
        r.0@.len() == v@.len(),
        be_val(v@) == be_val(r.0@) * 58 + r.1,
        r.1 < 58,
{
    let mut out: Vec<u8> = Vec::new();
    let mut rem: u64 = 0;
    let mut i: usize = 0;
    while i < v.len()
        invariant
            i <= v@.len(),
            out@.len() == i,
            rem < 58,
            be_val(v@.take(i as int)) == be_val(out@) * 58 + rem,
        decreases v@.len() - i,
    {
        let ghost q_v = be_val(out@);
        let ghost rem_v = rem;
        let cur: u64 = rem * 256 + v[i] as u64;
        let q: u64 = cur / 58;
        proof {
            lemma_fundamental_div_mod(cur as int, 58);
            assert(q < 256);
        }
        let ghost out_before = out@;
        out.push(q as u8);
        rem = cur % 58;
        i = i + 1;
        proof {
            assert(v@.take(i as int).drop_last() =~= v@.take(i - 1));
            assert(out@.drop_last() =~= out_before);
            assert(be_val(v@.take(i as int)) == be_val(v@.take(i - 1)) * 256 + v@[i - 1]);
            assert(be_val(out@) == q_v * 256 + q);
            assert((q_v * 58 + rem_v) * 256 + v@[i - 1] == (q_v * 256 + q) * 58 + rem)
                by (nonlinear_arith)
                requires
                    rem_v * 256 + v@[i - 1] == q * 58 + rem,
            ;
        }
    }
    proof {
        assert(v@.take(v@.len() as int) =~= v@);
    }
    (out, rem as u8)
}

/// Whether every byte is zero, which is exactly when the big-endian value
/// is zero.
fn bytes_all_zero(v: &Vec<u8>) -> (r: bool)
    ensures
        r <==> be_val(v@) == 0,
{
    let mut i: usize = 0;
    while i < v.len()
        invariant
            i <= v@.len(),
            forall|j: int| 0 <= j < i ==> v@[j] == 0,
        decreases v@.len() - i,
    {
        if v[i] != 0 {
            proof {
                lemma_be_val_zero_iff(v@);
            }
            return false;
        }
        i = i + 1;
    }
    proof {
        lemma_be_val_zero_iff(v@);
    }
    true
}

/// The big-endian value is zero exactly when every byte is zero.
pub proof fn lemma_be_val_zero_iff(s: Seq<u8>)
    ensures
        be_val(s) == 0 <==> (forall|j: int| 0 <= j < s.len() ==> s[j] == 0),
    decreases s.len(),
{
    if s.len() == 0 {
    } else {
        lemma_be_val_zero_iff(s.drop_last());
        assert(forall|j: int| 0 <= j < s.len() - 1 ==> s.drop_last()[j] == s[j]);
        if be_val(s) == 0 {
            assert(be_val(s.drop_last()) * 256 + (s.last() as nat) == 0);
        } else {
            if forall|j: int| 0 <= j < s.len() ==> s[j] == 0 {
                assert(s.last() == 0);
                assert(be_val(s.drop_last()) == 0);
            }
        }
    }
}

/// Counts the leading zero bytes.
fn count_leading_zero_bytes(v: &Vec<u8>) -> (r: usize)
    ensures
        r == leading_zero_count(v@),
{
    let mut i: usize = 0;
    while i < v.len() && v[i] == 0
        invariant
            i <= v@.len(),
            forall|j: int| 0 <= j < i ==> v@[j] == 0,
        decreases v@.len() - i,
    {
        i = i + 1;
    }
    proof {
        lemma_leading_zero_scan(v@, i as int);
    }
    i
}

/// A scan that stops at the first nonzero byte counts the leading zeros.
pub proof fn lemma_leading_zero_scan(s: Seq<u8>, i: int)
    requires
        0 <= i <= s.len(),
        forall|j: int| 0 <= j < i ==> s[j] == 0,
        i < s.len() ==> s[i] != 0,
    ensures
        leading_zero_count(s) == i,
    decreases s.len(),
{
    if i == 0 {
    } else {
        assert(s[0] == 0);
        lemma_leading_zero_scan(s.skip(1), i - 1);
    }
}

/// Encodes a payload in checksummed Base58.
pub fn b58check_encode(payload: &Vec<u8>) -> (r: String)
    requires
        payload@.len() > 0,
        payload@.len() + 4 <= usize::MAX,
    ensures
        r@ == b58check_chars(payload@),
{
    let mut work: Vec<u8> = Vec::new();
    let mut i: usize = 0;
    while i < payload.len()
        invariant
            i <= payload@.len(),
            work@ == payload@.take(i as int),
        decreases payload@.len() - i,
    {
        work.push(payload[i]);
        i = i + 1;
        proof {
            assert(payload@.take(i as int) =~= payload@.take(i - 1).push(payload@[i - 1]));
        }
    }
    proof {
        assert(payload@.take(payload@.len() as int) =~= payload@);
    }
    let cs = checksum(payload.as_slice());
    work.push(cs[0]);
    work.push(cs[1]);
    work.push(cs[2]);
    work.push(cs[3]);
    proof {
        assert(work@ =~= payload@ + checksum_of(payload@));
    }
    let ghost full_v = be_val(work@);

    let mut digits: Vec<u8> = Vec::new();
    while !bytes_all_zero(&work)
        invariant
            b58_digits(full_v) =~= b58_digits(be_val(work@)) + digits@,
            forall|j: int| 0 <= j < digits@.len() ==> digits@[j] < 58,
        decreases be_val(work@),
    {
        let ghost v_before = be_val(work@);
        let (q, rem) = divmod58(&work);
        proof {
            lemma_fundamental_div_mod_converse(
                v_before as int,
                58,
                be_val(q@) as int,
                rem as int,
            );
            assert(be_val(q@) < v_before) by (nonlinear_arith)
                requires
                    v_before == be_val(q@) * 58 + rem && v_before > 0 && rem >= 0 && be_val(q@)
                        >= 0,
            ;
        }
        work = q;
        let ghost digits_before = digits@;
        digits.insert(0, rem);
        proof {
            assert(b58_digits(v_before) == b58_digits(be_val(work@)).push(rem));
            assert(b58_digits(be_val(work@)).push(rem) + digits_before =~= b58_digits(
                be_val(work@),
            ) + digits@);
        }
    }
    proof {
        assert(b58_digits(full_v) =~= digits@);
    }

    let z = count_leading_zero_bytes(payload);
    let mut s = String::new();
    let mut k: usize = 0;
    while k < z
        invariant
            k <= z,
            z == leading_zero_count(payload@),
            s@ =~= char_repeat('1', k as nat),
        decreases z - k,
    {
        push_char(&mut s, '1');
        k = k + 1;
        proof {
            assert(char_repeat('1', (k - 1) as nat).push('1') =~= char_repeat('1', k as nat));
        }
    }
    let ghost mapped = b58_digits(full_v).map_values(|d: u8| b58_char(d));
    let mut j: usize = 0;
    while j < digits.len()
        invariant
            j <= digits@.len(),
            digits@ == b58_digits(full_v),
            forall|t: int| 0 <= t < digits@.len() ==> digits@[t] < 58,
            mapped == b58_digits(full_v).map_values(|d: u8| b58_char(d)),
            s@ =~= char_repeat('1', leading_zero_count(payload@)) + mapped.take(j as int),
        decreases digits@.len() - j,
    {
        let c = b58_char_exec(digits[j]);
        push_char(&mut s, c);
        j = j + 1;
        proof {
            assert(mapped.take(j as int) =~= mapped.take(j - 1).push(c));
            assert(char_repeat('1', leading_zero_count(payload@)) + mapped.take(j - 1).push(c)
                =~= (char_repeat('1', leading_zero_count(payload@)) + mapped.take(j - 1)).push(
                c,
            ));
        }
    }
    proof {
        assert(mapped.take(digits@.len() as int) =~= mapped);
        assert(s@ =~= b58check_chars(payload@));
    }
    s
}

/// How many times the character `c` repeats at the front.
pub open spec fn leading_char_count(s: Seq<char>, c: char) -> nat
    decreases s.len(),
{
    if s.len() == 0 || s[0] != c {
        0
    } else {
        1 + leading_char_count(s.skip(1), c)
    }
}

/// The digits of a positive value begin with a nonzero digit.
pub proof fn lemma_b58_digits_no_leading_zero(v: nat)
    requires
        v > 0,
    ensures
        b58_digits(v).len() > 0,
        b58_digits(v)[0] != 0,
    decreases v,
{
    lemma_fundamental_div_mod(v as int, 58);
    if v / 58 == 0 {
        assert(v % 58 == v);
        assert(b58_digits(0) == Seq::<u8>::empty());
        assert(b58_digits(v) == Seq::<u8>::empty().push((v % 58) as u8));
        assert(b58_digits(v)[0] == (v % 58) as u8);
    } else {
        lemma_b58_digits_no_leading_zero(v / 58);
        assert(b58_digits(v) == b58_digits(v / 58).push((v % 58) as u8));
        assert(b58_digits(v)[0] == b58_digits(v / 58)[0]);
    }
}

/// Every digit is below 58.
pub proof fn lemma_b58_digits_in_range(v: nat)
    ensures
        forall|j: int| 0 <= j < b58_digits(v).len() ==> b58_digits(v)[j] < 58,
    decreases v,
{
    if v > 0 {
        lemma_fundamental_div_mod(v as int, 58);
        lemma_b58_digits_in_range(v / 58);
        assert(forall|j: int|
            0 <= j < b58_digits(v).len() - 1 ==> b58_digits(v)[j] == b58_digits(v / 58)[j]);
    }
}

/// A block of `z` copies of `c` before a string that does not begin with
/// `c` is counted exactly.
pub proof fn lemma_leading_char_count_concat(z: nat, t: Seq<char>, c: char)
    requires
        t.len() > 0 ==> t[0] != c,
    ensures
        leading_char_count(char_repeat(c, z) + t, c) == z,
    decreases z,
{
    let s = char_repeat(c, z) + t;
    if z == 0 {
        assert(s =~= t);
    } else {
        assert(s[0] == c);
        assert(s.skip(1) =~= char_repeat(c, (z - 1) as nat) + t);
        lemma_leading_char_count_concat((z - 1) as nat, t, c);
    }
}

/// Leading zero bytes of the payload, and they alone, come out as leading
/// `'1'` characters: the encoding begins with exactly as many `'1'`s as
/// the payload has leading zero bytes.
pub proof fn lemma_encode_leading_ones(payload: Seq<u8>)
    requires
        payload.len() > 0,
    ensures
        leading_char_count(b58check_chars(payload), '1') == leading_zero_count(payload),
{
    let v = be_val(payload + checksum_of(payload));
    let mapped = b58_digits(v).map_values(|d: u8| b58_char(d));
    if mapped.len() > 0 {
        lemma_b58_digits_no_leading_zero(v);
        lemma_b58_digits_in_range(v);
        assert(mapped[0] == b58_char(b58_digits(v)[0]));
        assert(mapped[0] != '1');
    }
    lemma_leading_char_count_concat(leading_zero_count(payload), mapped, '1');
}

/// The digit value of a character of the alphabet.
pub open spec fn b58_digit_of(c: char) -> u8 {
    if c == '1' { 0 }
    else if c == '2' { 1 }
    else if c == '3' { 2 }
    else if c == '4' { 3 }
    else if c == '5' { 4 }
    else if c == '6' { 5 }
    else if c == '7' { 6 }
    else if c == '8' { 7 }
    else if c == '9' { 8 }
    else if c == 'A' { 9 }
    else if c == 'B' { 10 }
    else if c == 'C' { 11 }
    else if c == 'D' { 12 }
    else if c == 'E' { 13 }
    else if c == 'F' { 14 }
    else if c == 'G' { 15 }
    else if c == 'H' { 16 }
    else if c == 'J' { 17 }
    else if c == 'K' { 18 }
    else if c == 'L' { 19 }
    else if c == 'M' { 20 }
    else if c == 'N' { 21 }
    else if c == 'P' { 22 }
    else if c == 'Q' { 23 }
    else if c == 'R' { 24 }
    else if c == 'S' { 25 }
    else if c == 'T' { 26 }
    else if c == 'U' { 27 }
    else if c == 'V' { 28 }
    else if c == 'W' { 29 }
    else if c == 'X' { 30 }
    else if c == 'Y' { 31 }
    else if c == 'Z' { 32 }
    else if c == 'a' { 33 }
    else if c == 'b' { 34 }
    else if c == 'c' { 35 }
    else if c == 'd' { 36 }
    else if c == 'e' { 37 }
    else if c == 'f' { 38 }
    else if c == 'g' { 39 }
    else if c == 'h' { 40 }
    else if c == 'i' { 41 }
    else if c == 'j' { 42 }
    else if c == 'k' { 43 }
    else if c == 'm' { 44 }
    else if c == 'n' { 45 }
    else if c == 'o' { 46 }
    else if c == 'p' { 47 }
    else if c == 'q' { 48 }
    else if c == 'r' { 49 }
    else if c == 's' { 50 }
    else if c == 't' { 51 }
    else if c == 'u' { 52 }
    else if c == 'v' { 53 }
    else if c == 'w' { 54 }
    else if c == 'x' { 55 }
    else if c == 'y' { 56 }
    else { 57 }
}

/// Reading a digit character back gives the digit.
pub proof fn lemma_b58_char_inverse(d: u8)
    requires
        d < 58,
    ensures
        b58_digit_of(b58_char(d)) == d,
{
}

/// The value of a digit string, most significant digit first.
pub open spec fn b58_val(digs: Seq<u8>) -> nat
    decreases digs.len(),
{
    if digs.len() == 0 {
        0
    } else {
        b58_val(digs.drop_last()) * 58 + (digs.last() as nat)
    }
}

/// The digits of a value read back as that value.
pub proof fn lemma_b58_digits_val(v: nat)
    ensures
        b58_val(b58_digits(v)) == v,
    decreases v,
{
    if v > 0 {
        lemma_fundamental_div_mod(v as int, 58);
        lemma_b58_digits_val(v / 58);
        assert(b58_digits(v).drop_last() =~= b58_digits(v / 58));
        assert(b58_digits(v).last() == (v % 58) as u8);
    }
}

/// The shortest big-endian bytes of a value: no leading zero byte; zero
/// has no bytes.
pub open spec fn be_bytes_min(v: nat) -> Seq<u8>
    decreases v,
{
    if v == 0 {
        Seq::empty()
    } else {
        be_bytes_min(v / 256).push((v % 256) as u8)
    }
}

/// A byte string with a nonzero first byte is recovered from its value.
pub proof fn lemma_be_bytes_min_roundtrip(t: Seq<u8>)
    requires
        t.len() > 0,
        t[0] != 0,
    ensures
        be_bytes_min(be_val(t)) == t,
    decreases t.len(),
{
    if t.len() == 1 {
        assert(t.drop_last().len() == 0);
        assert(be_val(t.drop_last()) == 0);
        assert(t.last() == t[0]);
        assert(be_val(t) == t[0]);
        assert(be_bytes_min((t[0] as nat) / 256) =~= Seq::<u8>::empty());
        assert(be_bytes_min(be_val(t)) =~= t);
    } else {
        let u = t.drop_last();
        let b = t.last();
        assert(u[0] == t[0]);
        lemma_be_val_zero_iff(u);
        assert(be_val(u) > 0);
        let v = be_val(t);
        assert(v == be_val(u) * 256 + b);
        assert(v > 0) by (nonlinear_arith)
            requires
                v == be_val(u) * 256 + b && be_val(u) > 0,
        ;
        lemma_fundamental_div_mod_converse(v as int, 256, be_val(u) as int, b as int);
        lemma_be_bytes_min_roundtrip(u);
        assert(be_bytes_min(v) =~= t);
    }
}

/// Zero bytes at the front do not change the value.
pub proof fn lemma_be_val_skip_zeros(s: Seq<u8>, k: int)
    requires
        0 <= k <= s.len(),
        forall|j: int| 0 <= j < k ==> s[j] == 0,
    ensures
        be_val(s) == be_val(s.skip(k)),
    decreases k,
{
    if k > 0 {
        lemma_be_val_drop_first_zero(s);
        assert(s.skip(1).skip(k - 1) =~= s.skip(k));
        lemma_be_val_skip_zeros(s.skip(1), k - 1);
    } else {
        assert(s.skip(0) =~= s);
    }
}

/// One zero byte at the front does not change the value.
pub proof fn lemma_be_val_drop_first_zero(s: Seq<u8>)
    requires
        s.len() > 0,
        s[0] == 0,
    ensures
        be_val(s) == be_val(s.skip(1)),
    decreases s.len(),
{
    if s.len() == 1 {
        assert(s.last() == s[0]);
        assert(be_val(s.drop_last()) == 0);
        assert(be_val(s) == 0);
        assert(s.skip(1).len() == 0);
        assert(be_val(s.skip(1)) == 0);
    } else {
        let dl = s.drop_last();
        lemma_be_val_drop_first_zero(dl);
        assert(dl.skip(1) =~= s.skip(1).drop_last());
        assert(s.skip(1).last() == s.last());
        assert(be_val(s) == be_val(dl) * 256 + s.last());
        assert(be_val(dl) == be_val(s.skip(1).drop_last()));
        assert(be_val(s.skip(1)) == be_val(s.skip(1).drop_last()) * 256 + s.skip(1).last());
    }
}

/// Properties of the leading-zero count: the counted bytes are zero and
/// the byte after them, if any, is not.
pub proof fn lemma_leading_zero_props(s: Seq<u8>)
    ensures
        leading_zero_count(s) <= s.len(),
        forall|j: int| 0 <= j < leading_zero_count(s) ==> s[j] == 0,
        leading_zero_count(s) < s.len() ==> s[leading_zero_count(s) as int] != 0,
    decreases s.len(),
{
    if s.len() == 0 || s[0] != 0 {
    } else {
        lemma_leading_zero_props(s.skip(1));
        let z = leading_zero_count(s);
        assert(z == 1 + leading_zero_count(s.skip(1)));
        assert forall|j: int| 0 <= j < z implies s[j] == 0 by {
            if j >= 1 {
                assert(s.skip(1)[j - 1] == 0);
                assert(s.skip(1)[j - 1] == s[j]);
            }
        };
        assert(z < s.len() ==> s[z as int] == s.skip(1)[z - 1]);
    }
}

/// The decoding of a checksummed Base58 string: every leading `'1'`
/// becomes a zero byte, the remaining characters are read as base-58
/// digits, and their value is written out in big-endian bytes.
pub open spec fn b58check_decode(s: Seq<char>) -> Seq<u8> {
    let k = leading_char_count(s, '1');
    let digs = s.skip(k as int).map_values(|c: char| b58_digit_of(c));
    Seq::new(k, |i| 0u8) + be_bytes_min(b58_val(digs))
}

/// Encoding round-trips: decoding the encoding of a payload that is not
/// all zero bytes yields the payload followed by its checksum, whose last
/// four bytes therefore match the checksum of the bytes before them.
pub proof fn lemma_b58check_roundtrip(payload: Seq<u8>)
    requires
        payload.len() > 0,
        leading_zero_count(payload) < payload.len(),
    ensures
        b58check_decode(b58check_chars(payload)) == payload + checksum_of(payload),
        b58check_decode(b58check_chars(payload)).skip(payload.len() as int) == checksum_of(
            b58check_decode(b58check_chars(payload)).take(payload.len() as int),
        ),
{
    let full = payload + checksum_of(payload);
    let v = be_val(full);
    let z = leading_zero_count(payload);
    let s = b58check_chars(payload);
    let digits = b58_digits(v);
    let mapped = digits.map_values(|d: u8| b58_char(d));

    lemma_encode_leading_ones(payload);
    assert(leading_char_count(s, '1') == z);
    assert(s.skip(z as int) =~= mapped);

    lemma_b58_digits_in_range(v);
    let digs_back = mapped.map_values(|c: char| b58_digit_of(c));
    assert(digs_back =~= digits) by {
        assert(forall|j: int| 0 <= j < digits.len() ==> digs_back[j] == b58_digit_of(
            b58_char(digits[j]),
        ));
        assert forall|j: int| 0 <= j < digits.len() implies digs_back[j] == digits[j] by {
            lemma_b58_char_inverse(digits[j]);
        };
    };
    lemma_b58_digits_val(v);
    assert(b58_val(digs_back) == v);

    lemma_leading_zero_props(payload);
    assert(forall|j: int| 0 <= j < z ==> full[j] == 0);
    lemma_be_val_skip_zeros(full, z as int);
    let t = full.skip(z as int);
    assert(t[0] == payload[z as int]);
    assert(t[0] != 0);
    lemma_be_bytes_min_roundtrip(t);
    assert(be_bytes_min(v) == t);

    assert(b58check_decode(s) =~= full);
    assert(b58check_decode(s).skip(payload.len() as int) =~= checksum_of(payload));
    assert(b58check_decode(s).take(payload.len() as int) =~= payload);
}

} // verus!

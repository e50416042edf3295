//! Small helpers shared by the engine: base-64 rendering of integers, string
//! hashes and compute work-group counts.
use vstd::prelude::*;
use std::hash::{BuildHasher, BuildHasherDefault, DefaultHasher};

verus! {

/// The base-64 digit of value `d` (`d < 64`): `0-9`, then `A-Z`, then `a-z`,
/// then `+` and `/`.
pub open spec fn base64_digit(d: int) -> char {
    if d < 10 {
        (48 + d) as char
    } else if d < 36 {
        (55 + d) as char
    } else if d < 62 {
        (61 + d) as char
    } else if d == 62 {
        '+'
    } else {
        '/'
    }
}

/// The value of a base-64 digit; the inverse of [`base64_digit`].
pub open spec fn base64_digit_value(c: char) -> int {
    if '0' <= c && c <= '9' {
        c as int - 48
    } else if 'A' <= c && c <= 'Z' {
        c as int - 55
    } else if 'a' <= c && c <= 'z' {
        c as int - 61
    } else if c == '+' {
        62
    } else {
        63
    }
}

/// The base-64 digits of `m`, most significant first, without leading zeros
/// (empty for zero).
pub open spec fn base64_digits(m: nat) -> Seq<char>
    decreases m,
{
    if m == 0 {
        Seq::empty()
    } else {
        base64_digits(m / 64).push(base64_digit((m % 64) as int))
    }
}

/// The base-64 rendering of `n`: `"0"` for zero, else its digits.
pub open spec fn base64_of(n: nat) -> Seq<char> {
    if n == 0 {
        seq!['0']
    } else {
        base64_digits(n)
    }
}

/// The number that a string of base-64 digits stands for.
pub open spec fn base64_value(s: Seq<char>) -> nat
    decreases s.len(),
{
    if s.len() == 0 {
        0
    } else {
        (base64_value(s.drop_last()) * 64 + base64_digit_value(s.last())) as nat
    }
}

proof fn lemma_digit_roundtrip(d: int)
    requires
        0 <= d < 64,
    ensures
        base64_digit_value(base64_digit(d)) == d,
{
}

proof fn lemma_digits_value(m: nat)
    ensures
        base64_value(base64_digits(m)) == m,
    decreases m,
{
    if m > 0 {
        lemma_digits_value(m / 64);
        lemma_digit_roundtrip((m % 64) as int);
        let s = base64_digits(m);
        assert(s.drop_last() == base64_digits(m / 64));
        assert(m == (m / 64) * 64 + m % 64) by (nonlinear_arith);
    }
}

/// Reading back the base-64 rendering of a number gives the number: the
/// rendering loses nothing, and different numbers render differently.
pub proof fn lemma_base64_roundtrip(n: nat)
    ensures
        base64_value(base64_of(n)) == n,
{
    if n == 0 {
        assert(base64_of(0).drop_last() =~= Seq::<char>::empty());
        assert(base64_of(0).last() == '0');
        assert(base64_digit_value('0') == 0);
        assert(base64_value(Seq::<char>::empty()) == 0);
        assert(base64_value(base64_of(0).drop_last()) == 0);
    } else {
        lemma_digits_value(n);
    }
}

/// The base-64 digit of `d`.
fn digit_char(d: u64) -> (c: char)
    requires
        d < 64,
    ensures
        c == base64_digit(d as int),
{
    if d < 10 {
        ((48 + d) as u8) as char
    } else if d < 36 {
        ((55 + d) as u8) as char
    } else if d < 62 {
        ((61 + d) as u8) as char
    } else if d == 62 {
        '+'
    } else {
        '/'
    }
}

/// Collects characters into a `String`, in order (`FromIterator<char>` of
/// std, whose documentation gives the string made of the iterator's
/// characters).
#[verifier::external_body]
fn string_from_chars(chars: Vec<char>) -> (s: String)
    ensures
        s@ == chars@,
{
    chars.into_iter().collect()
}

/// Renders an integer in base 64.
pub trait Base64 {
    /// The base-64 rendering of the value.
    fn to_base64(self) -> String;
}

impl Base64 for u64 {
    fn to_base64(self) -> (s: String)
        ensures
            s@ == base64_of(self as nat),
    {
        if self == 0 {
            return string_from_chars(vec!['0']);
        }
        let mut value = self;
        // digits, least significant first
        let mut result: Vec<char> = Vec::new();
        while value > 0
            invariant
                base64_digits(self as nat) == base64_digits(value as nat) + result@.reverse(),
            decreases value,
        {
            let remainder = value % 64;
            let d = digit_char(remainder);
            proof {
                let r = result@;
                assert(r.push(d).reverse() =~= seq![d] + r.reverse());
                assert(base64_digits(value as nat) == base64_digits((value / 64) as nat).push(d));
                assert(base64_digits((value / 64) as nat).push(d) + r.reverse() =~= base64_digits(
                    (value / 64) as nat,
                ) + (seq![d] + r.reverse()));
            }
            result.push(d);
            value = value / 64;
        }
        assert(base64_digits(0) =~= Seq::<char>::empty());
        let mut reversed: Vec<char> = Vec::new();
        let mut i = result.len();
        while i > 0
            invariant
                i <= result.len(),
                reversed@ == result@.subrange(i as int, result.len() as int).reverse(),
            decreases i,
        {
            i = i - 1;
            proof {
                let a = result@.subrange(i as int, result.len() as int);
                let b = result@.subrange(i as int + 1, result.len() as int);
                assert(a =~= seq![result@[i as int]] + b);
                assert(a.reverse() =~= b.reverse().push(result@[i as int]));
            }
            reversed.push(result[i]);
        }
        assert(result@.subrange(0, result.len() as int) =~= result@);
        assert(reversed@ =~= base64_digits(self as nat));
        string_from_chars(reversed)
    }
}

/// The hash that std's `DefaultHasher`, created with `new`, gives a string.
pub uninterp spec fn default_str_hash(s: Seq<char>) -> u64;

/// Hashes `s` with a `DefaultHasher` created by `new`, as `BuildHasher::hash_one`
/// of std does; the contract names the result [`default_str_hash`] of the
/// string's characters. The algorithm is left unsaid: std does not specify
/// it beyond that hashers created with `new` agree with each other.
#[verifier::external_body]
fn hash_str(s: &str) -> (h: u64)
    ensures
        h == default_str_hash(s@),
{
    BuildHasherDefault::<DefaultHasher>::default().hash_one(s)
}

/// Hashes a value into a short string.
pub trait ToHash {
    /// The base-64 rendering of the value's hash.
    fn to_hash(self) -> String;
}

impl ToHash for &str {
    fn to_hash(self) -> (s: String)
        ensures
            s@ == base64_of(default_str_hash(self@) as nat),
    {
        let hash = hash_str(self);
        hash.to_base64()
    }
}

/// The number of work groups of `work_group_size` invocations needed to
/// cover `size` invocations: `size` divided by `work_group_size`, rounded up.
pub fn compute_work_group_count(size: u32, work_group_size: u32) -> (count: u32)
    requires
        work_group_size > 0,
        size + work_group_size <= u32::MAX,
    ensures
        count == (size + work_group_size - 1) / (work_group_size as int),
        count * work_group_size >= size,
        count == 0 || (count - 1) * work_group_size < size,
{
    let count = (size + work_group_size - 1) / work_group_size;
    proof {
        let w = work_group_size as int;
        let t = size + w - 1;
        vstd::arithmetic::div_mod::lemma_fundamental_div_mod(t, w);
        assert(count * w >= size) by (nonlinear_arith)
            requires
                t == w * (t / w) + t % w,
                0 <= t % w < w,
                count == t / w,
                t == size + w - 1,
        ;
        assert(count == 0 || (count - 1) * w < size) by (nonlinear_arith)
            requires
                t == w * (t / w) + t % w,
                0 <= t % w < w,
                count == t / w,
                t == size + w - 1,
        ;
    }
    count
}

} // verus!

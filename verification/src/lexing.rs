//! Lexing of the line-based Wavefront formats (`.obj` models and `.mtl`
//! material libraries): whitespace tokens, `/`-separated fields and
//! unsigned decimal numbers.
use vstd::prelude::*;

verus! {

/// The length in bytes of the whitespace character whose UTF-8 encoding
/// starts at position `i` of `s`, or 0 where none does. The whitespace
/// characters are those of Unicode's `White_Space` property, as std's
/// `char::is_whitespace` documents them: U+0009 to U+000D, U+0020, U+0085,
/// U+00A0, U+1680, U+2000 to U+200A, U+2028, U+2029, U+202F, U+205F and
/// U+3000.
pub open spec fn space_len(s: Seq<u8>, i: int) -> int {
    if !(0 <= i < s.len()) {
        0
    } else if (9 <= s[i] && s[i] <= 13) || s[i] == 32 {
        1
    } else if i + 1 < s.len() && s[i] == 0xC2 && (s[i + 1] == 0x85 || s[i + 1] == 0xA0) {
        2
    } else if i + 2 < s.len() && ((s[i] == 0xE1 && s[i + 1] == 0x9A && s[i + 2] == 0x80) || (s[i]
        == 0xE2 && s[i + 1] == 0x80 && ((0x80 <= s[i + 2] && s[i + 2] <= 0x8A) || s[i + 2] == 0xA8
        || s[i + 2] == 0xA9 || s[i + 2] == 0xAF)) || (s[i] == 0xE2 && s[i + 1] == 0x81 && s[i + 2]
        == 0x9F) || (s[i] == 0xE3 && s[i + 1] == 0x80 && s[i + 2] == 0x80)) {
        3
    } else {
        0
    }
}

/// The bytes of an ASCII text.
pub open spec fn ascii_bytes(text: Seq<char>) -> Seq<u8> {
    text.map_values(|c: char| c as u8)
}

/// The code points of Unicode's `White_Space` property.
pub open spec fn is_white_space(c: nat) -> bool {
    (0x09 <= c && c <= 0x0D) || c == 0x20 || c == 0x85 || c == 0xA0 || c == 0x1680 || (0x2000 <= c
        && c <= 0x200A) || c == 0x2028 || c == 0x2029 || c == 0x202F || c == 0x205F || c == 0x3000
}

/// The UTF-8 encoding of a code point below U+10000.
pub open spec fn utf8_encoding(c: nat) -> Seq<u8> {
    if c < 0x80 {
        seq![c as u8]
    } else if c < 0x800 {
        seq![(0xC0 + c / 64) as u8, (0x80 + c % 64) as u8]
    } else {
        seq![(0xE0 + c / 4096) as u8, (0x80 + (c / 64) % 64) as u8, (0x80 + c % 64) as u8]
    }
}

/// Whether the UTF-8 encoding of `c` stands in `s` at position `i`.
pub open spec fn encoded_at(s: Seq<u8>, i: int, c: nat) -> bool {
    0 <= i && i + utf8_encoding(c).len() <= s.len() && s.subrange(i, i + utf8_encoding(c).len() as int)
        == utf8_encoding(c)
}

/// The separators are exactly the whitespace characters: where the UTF-8
/// encoding of a `White_Space` code point stands, a separator of that length
/// starts, and every separator is such an encoding. In particular no other
/// ASCII byte (a sign, a digit, a slash) ever separates tokens.
pub proof fn lemma_separators_are_white_space(s: Seq<u8>, i: int)
    ensures
        forall|c: nat| is_white_space(c) && encoded_at(s, i, c) ==> space_len(s, i) == utf8_encoding(c).len(),
        space_len(s, i) > 0 ==> exists|c: nat| is_white_space(c) && encoded_at(s, i, c) && space_len(s, i)
            == utf8_encoding(c).len(),
        0 <= i < s.len() && s[i] < 0x80 && !is_white_space(s[i] as nat) ==> space_len(s, i) == 0,
{
    assert forall|c: nat| is_white_space(c) && encoded_at(s, i, c) implies space_len(s, i) == utf8_encoding(c).len() by {
        let e = utf8_encoding(c);
        assert(s.subrange(i, i + e.len() as int)[0] == s[i]);
        if e.len() > 1 {
            assert(s.subrange(i, i + e.len() as int)[1] == s[i + 1]);
        }
        if e.len() > 2 {
            assert(s.subrange(i, i + e.len() as int)[2] == s[i + 2]);
        }
    }
    if space_len(s, i) > 0 {
        let k = space_len(s, i);
        let c: nat = if k == 1 {
            s[i] as nat
        } else if k == 2 {
            ((s[i] - 0xC0) * 64 + (s[i + 1] - 0x80)) as nat
        } else {
            ((s[i] - 0xE0) * 4096 + (s[i + 1] - 0x80) * 64 + (s[i + 2] - 0x80)) as nat
        };
        assert(utf8_encoding(c) =~= s.subrange(i, i + k));
        assert(is_white_space(c) && encoded_at(s, i, c));
    }
}

/// The tokens of `s` from position `i` on, `cur` being the part of a token
/// read just before `i`.
pub open spec fn tokens_from(s: Seq<u8>, i: nat, cur: Seq<u8>) -> Seq<Seq<u8>>
    decreases s.len() - i,
{
    if i >= s.len() {
        if cur.len() > 0 {
            seq![cur]
        } else {
            Seq::empty()
        }
    } else if space_len(s, i as int) > 0 {
        let rest = tokens_from(s, (i + space_len(s, i as int)) as nat, Seq::empty());
        if cur.len() > 0 {
            seq![cur] + rest
        } else {
            rest
        }
    } else {
        tokens_from(s, i + 1, cur.push(s[i as int]))
    }
}

/// The whitespace-separated tokens of a line: its maximal runs of bytes
/// that start no whitespace character, in order.
pub open spec fn line_tokens(s: Seq<u8>) -> Seq<Seq<u8>> {
    tokens_from(s, 0, Seq::empty())
}

/// The contents of a vector of byte vectors.
pub open spec fn byte_strings(v: Seq<Vec<u8>>) -> Seq<Seq<u8>> {
    v.map_values(|t: Vec<u8>| t@)
}

/// A token holds at least one byte and no whitespace character.
pub open spec fn is_token(t: Seq<u8>) -> bool {
    t.len() > 0 && forall|j: int| 0 <= j < t.len() ==> #[trigger] space_len(t, j) == 0
}

/// A run of positions of `s` at none of which a whitespace character
/// starts holds none itself.
proof fn lemma_run_is_token(s: Seq<u8>, a: int, b: int)
    requires
        0 <= a < b <= s.len(),
        forall|p: int| a <= p < b ==> #[trigger] space_len(s, p) == 0,
    ensures
        is_token(s.subrange(a, b)),
{
    let t = s.subrange(a, b);
    assert forall|j: int| 0 <= j < t.len() implies #[trigger] space_len(t, j) == 0 by {
        assert(space_len(s, a + j) == 0);
        if j + 1 < t.len() {
            assert(t[j + 1] == s[a + j + 1]);
        }
        if j + 2 < t.len() {
            assert(t[j + 2] == s[a + j + 2]);
        }
    }
}

proof fn lemma_tokens_from_are_tokens(s: Seq<u8>, i: nat, cur: Seq<u8>)
    requires
        i <= s.len(),
        cur.len() <= i,
        cur == s.subrange(i - cur.len(), i as int),
        forall|p: int| i - cur.len() <= p < i ==> #[trigger] space_len(s, p) == 0,
    ensures
        forall|k: int| 0 <= k < tokens_from(s, i, cur).len() ==> is_token(#[trigger] tokens_from(s, i, cur)[k]),
    decreases s.len() - i,
{
    if cur.len() > 0 {
        lemma_run_is_token(s, i - cur.len(), i as int);
    }
    if i >= s.len() {
        if cur.len() > 0 {
            assert(tokens_from(s, i, cur) =~= seq![cur]);
            assert(tokens_from(s, i, cur)[0] == cur);
        }
    } else if space_len(s, i as int) > 0 {
        let n = (i + space_len(s, i as int)) as nat;
        assert(Seq::<u8>::empty() =~= s.subrange(n as int, n as int));
        lemma_tokens_from_are_tokens(s, n, Seq::empty());
        let rest = tokens_from(s, n, Seq::empty());
        if cur.len() > 0 {
            assert forall|k: int| 0 <= k < (seq![cur] + rest).len() implies is_token(#[trigger] (seq![cur] + rest)[k]) by {
                if k > 0 {
                    assert((seq![cur] + rest)[k] == rest[k - 1]);
                }
            }
            assert(tokens_from(s, i, cur) == seq![cur] + rest);
        } else {
            assert(tokens_from(s, i, cur) == rest);
        }
    } else {
        assert(cur.push(s[i as int]) =~= s.subrange(i - cur.len(), i + 1 as int));
        lemma_tokens_from_are_tokens(s, i + 1, cur.push(s[i as int]));
        assert(tokens_from(s, i, cur) == tokens_from(s, i + 1, cur.push(s[i as int])));
    }
}

/// Every token of a line is non-empty and holds no whitespace character.
pub proof fn lemma_line_tokens_are_tokens(s: Seq<u8>)
    ensures
        forall|k: int| 0 <= k < line_tokens(s).len() ==> is_token(#[trigger] line_tokens(s)[k]),
{
    assert(Seq::<u8>::empty() =~= s.subrange(0, 0));
    lemma_tokens_from_are_tokens(s, 0, Seq::empty());
}

/// The length of the whitespace character that starts at position `i` of
/// `s`, or 0.
fn space_len_at(s: &[u8], i: usize) -> (n: usize)
    requires
        i < s.len(),
    ensures
        n == space_len(s@, i as int),
{
    let b = s[i];
    if (9 <= b && b <= 13) || b == 32 {
        1
    } else if i + 1 < s.len() && b == 0xC2 && (s[i + 1] == 0x85 || s[i + 1] == 0xA0) {
        2
    } else if i + 1 < s.len() && i + 2 < s.len() {
        let b1 = s[i + 1];
        let b2 = s[i + 2];
        if (b == 0xE1 && b1 == 0x9A && b2 == 0x80) || (b == 0xE2 && b1 == 0x80 && ((0x80 <= b2 && b2
            <= 0x8A) || b2 == 0xA8 || b2 == 0xA9 || b2 == 0xAF)) || (b == 0xE2 && b1 == 0x81 && b2
            == 0x9F) || (b == 0xE3 && b1 == 0x80 && b2 == 0x80) {
            3
        } else {
            0
        }
    } else {
        0
    }
}

/// Splits a line into its whitespace-separated tokens.
pub fn split_tokens(line: &[u8]) -> (tokens: Vec<Vec<u8>>)
    ensures
        byte_strings(tokens@) == line_tokens(line@),
{
    let mut done: Vec<Vec<u8>> = Vec::new();
    let mut cur: Vec<u8> = Vec::new();
    let mut i: usize = 0;
    assert(byte_strings(done@) =~= Seq::<Seq<u8>>::empty());
    assert(cur@ =~= Seq::<u8>::empty());
    while i < line.len()
        invariant
            i <= line.len(),
            byte_strings(done@) + tokens_from(line@, i as nat, cur@) == line_tokens(line@),
        decreases line.len() - i,
    {
        let k = space_len_at(line, i);
        if k > 0 {
            let ghost rest = tokens_from(line@, (i + k) as nat, Seq::empty());
            if cur.len() > 0 {
                let token = cur;
                proof {
                    assert(byte_strings(done@.push(token)) =~= byte_strings(done@).push(token@));
                    assert(byte_strings(done@) + (seq![token@] + rest) =~= byte_strings(done@).push(token@) + rest);
                }
                done.push(token);
            }
            cur = Vec::new();
            proof {
                assert(cur@ =~= Seq::<u8>::empty());
            }
            i = i + k;
        } else {
            cur.push(line[i]);
            i = i + 1;
        }
    }
    if cur.len() > 0 {
        proof {
            assert(byte_strings(done@.push(cur)) =~= byte_strings(done@).push(cur@));
            assert(byte_strings(done@) + seq![cur@] =~= byte_strings(done@).push(cur@));
        }
        done.push(cur);
    } else {
        assert(byte_strings(done@) + Seq::<Seq<u8>>::empty() =~= byte_strings(done@));
    }
    done
}

/// A copy of a byte string.
pub fn copy_bytes(b: &Vec<u8>) -> (c: Vec<u8>)
    ensures
        c@ == b@,
{
    let mut c: Vec<u8> = Vec::new();
    let mut i: usize = 0;
    while i < b.len()
        invariant
            i <= b.len(),
            c@ == b@.subrange(0, i as int),
        decreases b.len() - i,
    {
        c.push(b[i]);
        proof {
            assert(b@.subrange(0, i + 1) =~= b@.subrange(0, i as int).push(b@[i as int]));
        }
        i = i + 1;
    }
    assert(b@.subrange(0, b.len() as int) =~= b@);
    c
}

/// The fields completed so far and the field in progress after reading `s`,
/// fields being separated by `sep`.
pub open spec fn scan_fields(s: Seq<u8>, sep: u8) -> (Seq<Seq<u8>>, Seq<u8>)
    decreases s.len(),
{
    if s.len() == 0 {
        (Seq::empty(), Seq::empty())
    } else {
        let (done, cur) = scan_fields(s.drop_last(), sep);
        if s.last() == sep {
            (done.push(cur), Seq::empty())
        } else {
            (done, cur.push(s.last()))
        }
    }
}

/// The fields of `s` separated by `sep`, empty ones included; there is
/// always at least one.
pub open spec fn split_fields(s: Seq<u8>, sep: u8) -> Seq<Seq<u8>> {
    scan_fields(s, sep).0.push(scan_fields(s, sep).1)
}

/// Reading bytes without a separator extends the field in progress.
proof fn lemma_scan_fields_run(p: Seq<u8>, s: Seq<u8>, sep: u8)
    requires
        forall|i: int| 0 <= i < s.len() ==> #[trigger] s[i] != sep,
    ensures
        scan_fields(p + s, sep) == (scan_fields(p, sep).0, scan_fields(p, sep).1 + s),
    decreases s.len(),
{
    if s.len() == 0 {
        assert(p + s =~= p);
        assert(scan_fields(p, sep).1 + s =~= scan_fields(p, sep).1);
    } else {
        let t = s.drop_last();
        lemma_scan_fields_run(p, t, sep);
        assert((p + s).drop_last() =~= p + t);
        assert((p + s).last() == s.last());
        assert(scan_fields(p, sep).1 + t.push(s.last()) =~= scan_fields(p, sep).1 + s);
        assert((scan_fields(p, sep).1 + t).push(s.last()) =~= scan_fields(p, sep).1 + s);
    }
}

/// A separator closes the field in progress.
proof fn lemma_scan_fields_sep(p: Seq<u8>, sep: u8)
    ensures
        scan_fields(p.push(sep), sep) == (scan_fields(p, sep).0.push(scan_fields(p, sep).1), Seq::<u8>::empty()),
{
    assert(p.push(sep).drop_last() =~= p);
}

/// Three fields joined by the separator split back into those three fields.
pub proof fn lemma_split_three_fields(x: Seq<u8>, y: Seq<u8>, z: Seq<u8>, sep: u8)
    requires
        forall|i: int| 0 <= i < x.len() ==> #[trigger] x[i] != sep,
        forall|i: int| 0 <= i < y.len() ==> #[trigger] y[i] != sep,
        forall|i: int| 0 <= i < z.len() ==> #[trigger] z[i] != sep,
    ensures
        split_fields(x + seq![sep] + y + seq![sep] + z, sep) == seq![x, y, z],
{
    let e = Seq::<u8>::empty();
    assert(scan_fields(e, sep) == (Seq::<Seq<u8>>::empty(), e));
    lemma_scan_fields_run(e, x, sep);
    assert(e + x =~= x);
    assert(e + x =~= x);
    let p1 = x + seq![sep];
    assert(p1 =~= x.push(sep));
    lemma_scan_fields_sep(x, sep);
    lemma_scan_fields_run(p1, y, sep);
    let p2 = p1 + y + seq![sep];
    assert(p2 =~= (p1 + y).push(sep));
    lemma_scan_fields_sep(p1 + y, sep);
    lemma_scan_fields_run(p2, z, sep);
    assert(e + y =~= y);
    assert(e + z =~= z);
    assert(Seq::<Seq<u8>>::empty().push(x).push(y).push(z) =~= seq![x, y, z]);
}

/// Splits `s` at every `sep`.
pub fn split_on(s: &[u8], sep: u8) -> (fields: Vec<Vec<u8>>)
    ensures
        byte_strings(fields@) == split_fields(s@, sep),
        fields.len() >= 1,
{
    let mut done: Vec<Vec<u8>> = Vec::new();
    let mut cur: Vec<u8> = Vec::new();
    let mut i: usize = 0;
    while i < s.len()
        invariant
            i <= s.len(),
            (byte_strings(done@), cur@) == scan_fields(s@.subrange(0, i as int), sep),
        decreases s.len() - i,
    {
        let b = s[i];
        proof {
            let next = s@.subrange(0, i + 1);
            assert(next.drop_last() =~= s@.subrange(0, i as int));
            assert(next.last() == b);
        }
        if b == sep {
            let field = cur;
            cur = Vec::new();
            proof {
                assert(byte_strings(done@.push(field)) =~= byte_strings(done@).push(field@));
            }
            done.push(field);
        } else {
            cur.push(b);
        }
        i = i + 1;
    }
    assert(s@.subrange(0, s.len() as int) =~= s@);
    proof {
        assert(byte_strings(done@.push(cur)) =~= byte_strings(done@).push(cur@));
    }
    done.push(cur);
    done
}

/// An ASCII decimal digit.
pub open spec fn is_digit(b: u8) -> bool {
    48 <= b && b <= 57
}

/// The number a string of decimal digits stands for.
pub open spec fn digits_value(s: Seq<u8>) -> nat
    decreases s.len(),
{
    if s.len() == 0 {
        0
    } else {
        digits_value(s.drop_last()) * 10 + (s.last() - 48) as nat
    }
}

/// The digits of an unsigned number: the text without a leading `+`.
pub open spec fn unsigned_digits(s: Seq<u8>) -> Seq<u8> {
    if s.len() > 0 && s[0] == 43 {
        s.subrange(1, s.len() as int)
    } else {
        s
    }
}

/// What std's `from_str` of an unsigned integer type with maximum `max`
/// gives for `s`: an optional `+`, then one or more decimal digits whose
/// value is at most `max`; anything else is an error.
pub open spec fn parse_unsigned(s: Seq<u8>, max: nat) -> Option<nat> {
    let d = unsigned_digits(s);
    if d.len() > 0 && (forall|i: int| 0 <= i < d.len() ==> is_digit(#[trigger] d[i])) && digits_value(d)
        <= max {
        Some(digits_value(d))
    } else {
        None
    }
}

/// The decimal text of `n`: its digits, most significant first, without
/// leading zeros.
pub open spec fn decimal_text(n: nat) -> Seq<u8>
    decreases n,
{
    if n < 10 {
        seq![(48 + n) as u8]
    } else {
        decimal_text(n / 10).push((48 + n % 10) as u8)
    }
}

/// The decimal text of a number is a non-empty run of digits that stands
/// for the number.
pub proof fn lemma_decimal_text(n: nat)
    ensures
        decimal_text(n).len() > 0,
        forall|i: int| 0 <= i < decimal_text(n).len() ==> is_digit(#[trigger] decimal_text(n)[i]),
        digits_value(decimal_text(n)) == n,
    decreases n,
{
    if n >= 10 {
        lemma_decimal_text(n / 10);
        let d = decimal_text(n / 10);
        assert(decimal_text(n).drop_last() =~= d);
        assert forall|i: int| 0 <= i < decimal_text(n).len() implies is_digit(#[trigger] decimal_text(n)[i]) by {
            if i < d.len() {
                assert(decimal_text(n)[i] == d[i]);
            }
        }
        assert(decimal_text(n).last() == (48 + n % 10) as u8);
        assert(digits_value(decimal_text(n)) == digits_value(d) * 10 + (n % 10));
        assert(n == (n / 10) * 10 + n % 10) by (nonlinear_arith);
    } else {
        assert(decimal_text(n).drop_last() =~= Seq::<u8>::empty());
        assert(digits_value(Seq::<u8>::empty()) == 0);
        assert(digits_value(decimal_text(n)) == n);
    }
}

/// The decimal text of a number parses back to that number, as std's
/// `from_str` does, wherever the number fits.
pub proof fn lemma_decimal_text_parses(n: nat, max: nat)
    requires
        n <= max,
    ensures
        parse_unsigned(decimal_text(n), max) == Some(n),
{
    lemma_decimal_text(n);
    assert(is_digit(decimal_text(n)[0]));
    assert(unsigned_digits(decimal_text(n)) == decimal_text(n));
}

proof fn lemma_digits_value_grows(s: Seq<u8>, j: int)
    requires
        0 <= j <= s.len(),
        forall|i: int| 0 <= i < s.len() ==> is_digit(#[trigger] s[i]),
    ensures
        digits_value(s.subrange(0, j)) <= digits_value(s),
    decreases s.len() - j,
{
    if j < s.len() {
        lemma_digits_value_grows(s, j + 1);
        let a = s.subrange(0, j + 1);
        assert(a.drop_last() =~= s.subrange(0, j));
    } else {
        assert(s.subrange(0, j) =~= s);
    }
}

/// Parses an unsigned decimal number no larger than `max`, as std's
/// `from_str` of unsigned integer types does.
pub fn parse_decimal(s: &[u8], max: u64) -> (r: Option<u64>)
    ensures
        match r {
            Some(v) => parse_unsigned(s@, max as nat) == Some(v as nat),
            None => parse_unsigned(s@, max as nat) is None,
        },
{
    let start: usize = if s.len() > 0 && s[0] == 43 { 1 } else { 0 };
    let ghost d = unsigned_digits(s@);
    assert(d =~= s@.subrange(start as int, s.len() as int));
    if start >= s.len() {
        return None;
    }
    let mut value: u64 = 0;
    let mut i: usize = start;
    while i < s.len()
        invariant
            start <= i <= s.len(),
            start < s.len(),
            d == s@.subrange(start as int, s.len() as int),
            d == unsigned_digits(s@),
            forall|k: int| 0 <= k < i - start ==> is_digit(#[trigger] d[k]),
            value as nat == digits_value(d.subrange(0, i - start)),
            value <= max,
        decreases s.len() - i,
    {
        let b = s[i];
        if b < 48 || b > 57 {
            assert(!is_digit(d[i - start]));
            assert(!(forall|k: int| 0 <= k < d.len() ==> is_digit(#[trigger] d[k])));
            assert(parse_unsigned(s@, max as nat) is None);
            return None;
        }
        let next: u128 = (value as u128) * 10 + ((b - 48) as u128);
        proof {
            let a = d.subrange(0, i - start + 1);
            assert(a.drop_last() =~= d.subrange(0, i - start));
            assert(a.last() == b);
        }
        if next > max as u128 {
            proof {
                let j = i - start + 1;
                if forall|k: int| 0 <= k < d.len() ==> is_digit(#[trigger] d[k]) {
                    lemma_digits_value_grows(d, j);
                    assert(digits_value(d) > max);
                }
                assert(parse_unsigned(s@, max as nat) is None);
            }
            return None;
        }
        value = next as u64;
        i = i + 1;
    }
    assert(d.subrange(0, d.len() as int) =~= d);
    Some(value)
}

} // verus!

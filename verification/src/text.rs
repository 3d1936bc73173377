//! Text: UTF-8 decoding, decimal numbers and small string helpers.

use vstd::prelude::*;
use vstd::string::*;
use vstd::utf8;

verus! {

/// `String::from_utf8`: the text that `bytes` encode in UTF-8, or `None` where they are not
/// valid UTF-8. Claimed: it succeeds exactly on valid UTF-8, and the characters of the result
/// are those that the bytes encode.
#[verifier::external_body]
fn utf8_string(bytes: Vec<u8>) -> (r: Option<String>)
    ensures
        r is Some <==> utf8::valid_utf8(bytes@),
        r matches Some(s) ==> s@ == utf8::decode_utf8(bytes@),
{
    String::from_utf8(bytes).ok()
}

/// `String::push`: appends one character.
pub assume_specification[ String::push ](s: &mut String, c: char)
    ensures
        final(s)@ == old(s)@.push(c),
;

/// `String::push_str`: appends a string slice.
pub assume_specification[ String::push_str ](s: &mut String, other: &str)
    ensures
        final(s)@ == old(s)@ + other@,
;

/// What decoding `bytes` as UTF-8 text gives.
pub open spec fn text_of(bytes: Seq<u8>) -> Option<Seq<char>> {
    if utf8::valid_utf8(bytes) {
        Some(utf8::decode_utf8(bytes))
    } else {
        None
    }
}

/// An optional string as its characters.
pub open spec fn opt_text(s: Option<String>) -> Option<Seq<char>> {
    match s {
        Some(t) => Some(t@),
        None => None,
    }
}

/// Decode UTF-8 text.
pub fn from_utf8(bytes: &[u8]) -> (r: Option<String>)
    ensures
        opt_text(r) == text_of(bytes@),
{
    utf8_string(crate::bytes::copy(bytes))
}

/// Decoding what a string encodes to gives the string back.
pub proof fn lemma_text_roundtrip(s: Seq<char>)
    ensures
        text_of(utf8::encode_utf8(s)) == Some(s),
{
    utf8::encode_utf8_valid_utf8(s);
    utf8::encode_utf8_decode_utf8(s);
}

/// The UTF-8 bytes of `s`.
pub fn utf8_bytes(s: &str) -> (r: &[u8])
    ensures
        r@ == utf8::encode_utf8(s@),
{
    s.as_bytes()
}

/// The decimal digit for `d`.
pub open spec fn digit(d: nat) -> char {
    if d == 0 {
        '0'
    } else if d == 1 {
        '1'
    } else if d == 2 {
        '2'
    } else if d == 3 {
        '3'
    } else if d == 4 {
        '4'
    } else if d == 5 {
        '5'
    } else if d == 6 {
        '6'
    } else if d == 7 {
        '7'
    } else if d == 8 {
        '8'
    } else {
        '9'
    }
}

/// `n` written in decimal, without leading zeros.
pub open spec fn decimal(n: nat) -> Seq<char>
    decreases n,
{
    if n < 10 {
        seq![digit(n)]
    } else {
        decimal(n / 10).push(digit(n % 10))
    }
}

/// `n` written in decimal, padded with zeros on the left to at least `width` digits.
pub open spec fn padded(n: nat, width: nat) -> Seq<char>
    decreases width,
{
    if width == 0 {
        if n == 0 {
            Seq::empty()
        } else {
            decimal(n)
        }
    } else {
        padded(n / 10, (width - 1) as nat).push(digit(n % 10))
    }
}

fn digit_char(d: u64) -> (c: char)
    requires
        d < 10,
    ensures
        c == digit(d as nat),
{
    if d == 0 {
        '0'
    } else if d == 1 {
        '1'
    } else if d == 2 {
        '2'
    } else if d == 3 {
        '3'
    } else if d == 4 {
        '4'
    } else if d == 5 {
        '5'
    } else if d == 6 {
        '6'
    } else if d == 7 {
        '7'
    } else if d == 8 {
        '8'
    } else {
        '9'
    }
}

/// Append `n` in decimal.
pub fn push_decimal(out: &mut String, n: u64)
    ensures
        final(out)@ == old(out)@ + decimal(n as nat),
    decreases n,
{
    let ghost before = out@;
    if n >= 10 {
        push_decimal(out, n / 10);
    }
    out.push(digit_char(n % 10));
    assert(out@ =~= before + decimal(n as nat));
}

/// Append `n` in decimal, zero-padded to `width` digits.
pub fn push_padded(out: &mut String, n: u64, width: u32)
    ensures
        final(out)@ == old(out)@ + padded(n as nat, width as nat),
    decreases width,
{
    let ghost before = out@;
    if width == 0 {
        if n != 0 {
            push_decimal(out, n);
        }
    } else {
        push_padded(out, n / 10, width - 1);
        out.push(digit_char(n % 10));
    }
    assert(out@ =~= before + padded(n as nat, width as nat));
}

/// The items of a byte list from `i` on, in decimal, separated by `", "`.
pub open spec fn listed_from(b: Seq<u8>, i: int) -> Seq<char>
    decreases b.len() - i,
{
    if i < 0 || i >= b.len() {
        Seq::empty()
    } else if i == b.len() - 1 {
        decimal(b[i] as nat)
    } else {
        decimal(b[i] as nat) + seq![',', ' '] + listed_from(b, i + 1)
    }
}

/// A byte string written as a list of numbers, `[1, 2, 3]`.
pub open spec fn byte_list(b: Seq<u8>) -> Seq<char> {
    seq!['['] + listed_from(b, 0) + seq![']']
}

/// Append `b` written as a list of numbers.
pub fn push_byte_list(out: &mut String, b: &[u8])
    ensures
        final(out)@ == old(out)@ + byte_list(b@),
{
    let ghost before = out@;
    out.push('[');
    let ghost opened = out@;
    let mut i: usize = 0;
    while i < b.len()
        invariant
            0 <= i <= b@.len(),
            out@ + listed_from(b@, i as int) == opened + listed_from(b@, 0),
        decreases b@.len() - i,
    {
        let ghost prev = out@;
        push_decimal(out, b[i] as u64);
        if i < b.len() - 1 {
            out.push(',');
            out.push(' ');
        }
        proof {
            assert(out@ + listed_from(b@, i + 1) =~= prev + listed_from(b@, i as int));
        }
        i = i + 1;
    }
    assert(out@ =~= opened + listed_from(b@, 0));
    out.push(']');
    assert(out@ =~= before + byte_list(b@));
}

/// The value of a decimal digit.
pub open spec fn digit_value(c: char) -> Option<nat> {
    if '0' <= c <= '9' {
        Some((c as u32 - '0' as u32) as nat)
    } else {
        None
    }
}

/// The number that a run of decimal digits writes; `None` at anything else.
pub open spec fn digits_value(s: Seq<char>) -> Option<nat>
    decreases s.len(),
{
    if s.len() == 0 {
        Some(0)
    } else {
        match (digits_value(s.drop_last()), digit_value(s.last())) {
            (Some(v), Some(d)) => Some(v * 10 + d),
            _ => None,
        }
    }
}

/// The digits of a number text: what follows an optional leading `+`.
pub open spec fn unsigned_digits(s: Seq<char>) -> Seq<char> {
    if s.len() > 0 && s[0] == '+' {
        s.skip(1)
    } else {
        s
    }
}

/// The unsigned number at most `max` that `s` writes: an optional `+`, then at least one decimal
/// digit and nothing else.
pub open spec fn parse_unsigned(s: Seq<char>, max: nat) -> Option<nat> {
    let d = unsigned_digits(s);
    if d.len() == 0 {
        None
    } else {
        match digits_value(d) {
            Some(v) => if v <= max {
                Some(v)
            } else {
                None
            },
            None => None,
        }
    }
}

/// A digit run only grows when it is extended, and a bad prefix stays bad.
proof fn lemma_digits_prefix(s: Seq<char>, k: int)
    requires
        0 <= k <= s.len(),
    ensures
        digits_value(s.take(k)) is None ==> digits_value(s) is None,
        (digits_value(s) is Some && digits_value(s.take(k)) is Some) ==> digits_value(s.take(k)).unwrap() <= digits_value(s).unwrap(),
    decreases s.len() - k,
{
    if k < s.len() {
        lemma_digits_prefix(s, k + 1);
        assert(s.take(k + 1).drop_last() =~= s.take(k));
        assert(s.take(k + 1).last() == s[k]);
    } else {
        assert(s.take(k) =~= s);
    }
}

/// Parse an unsigned decimal number no larger than `max`.
pub fn parse_u64(s: &str, max: u64) -> (r: Option<u64>)
    ensures
        match r {
            Some(v) => parse_unsigned(s@, max as nat) == Some(v as nat),
            None => parse_unsigned(s@, max as nat) is None,
        },
{
    let n: usize = s.unicode_len();
    let mut start: usize = 0;
    if n > 0 && s.get_char(0) == '+' {
        start = 1;
    }
    if start >= n {
        proof {
            assert(unsigned_digits(s@).len() == 0);
        }
        return None;
    }
    let ghost d = unsigned_digits(s@);
    let mut v: u64 = 0;
    let mut i: usize = start;
    proof {
        assert(d == s@.skip(start as int)) by {
            if start == 0 {
                assert(s@.skip(0) =~= s@);
            }
        }
        assert(d.take(0) =~= Seq::<char>::empty());
    }
    while i < n
        invariant
            start <= i <= n,
            start <= 1,
            n == s@.len(),
            d == s@.skip(start as int),
            d == unsigned_digits(s@),
            d.len() > 0,
            digits_value(d.take(i - start)) == Some(v as nat),
            v <= max,
        decreases n - i,
    {
        let c: char = s.get_char(i);
        proof {
            assert(d[i - start] == c);
            assert(d.take(i - start + 1).drop_last() =~= d.take(i - start));
            assert(d.take(i - start + 1).last() == c);
            lemma_digits_prefix(d, i - start + 1);
        }
        if c < '0' || c > '9' {
            return None;
        }
        let dv: u64 = (c as u32 - '0' as u32) as u64;
        if dv > max || v > max / 10 || v * 10 > max - dv {
            return None;
        }
        v = v * 10 + dv;
        i = i + 1;
    }
    proof {
        assert(d.take(i - start) =~= d);
    }
    Some(v)
}

/// The characters with the Unicode `White_Space` property.
pub open spec fn is_white(c: char) -> bool {
    ||| '\u{9}' <= c <= '\u{d}'
    ||| c == ' '
    ||| c == '\u{85}'
    ||| c == '\u{a0}'
    ||| c == '\u{1680}'
    ||| '\u{2000}' <= c <= '\u{200a}'
    ||| c == '\u{2028}'
    ||| c == '\u{2029}'
    ||| c == '\u{202f}'
    ||| c == '\u{205f}'
    ||| c == '\u{3000}'
}

/// Whether `c` is white space.
pub fn white(c: char) -> (r: bool)
    ensures
        r == is_white(c),
{
    (c >= '\u{9}' && c <= '\u{d}') || c == ' ' || c == '\u{85}' || c == '\u{a0}' || c
        == '\u{1680}' || (c >= '\u{2000}' && c <= '\u{200a}') || c == '\u{2028}' || c
        == '\u{2029}' || c == '\u{202f}' || c == '\u{205f}' || c == '\u{3000}'
}

/// Whether two strings are equal.
pub fn str_eq(a: &str, b: &str) -> (r: bool)
    ensures
        r == (a@ == b@),
{
    let r: bool = crate::bytes::bytes_eq(a.as_bytes(), b.as_bytes());
    proof {
        utf8::encode_utf8_decode_utf8(a@);
        utf8::encode_utf8_decode_utf8(b@);
    }
    r
}

/// What is left of `s` without the white space at its start.
pub open spec fn trim_start(s: Seq<char>) -> Seq<char>
    decreases s.len(),
{
    if s.len() > 0 && is_white(s[0]) {
        trim_start(s.skip(1))
    } else {
        s
    }
}

/// What is left of `s` without the white space at its end.
pub open spec fn trim_end(s: Seq<char>) -> Seq<char>
    decreases s.len(),
{
    if s.len() > 0 && is_white(s.last()) {
        trim_end(s.drop_last())
    } else {
        s
    }
}

/// What is left of `s` without the white space around it.
pub open spec fn trimmed(s: Seq<char>) -> Seq<char> {
    trim_end(trim_start(s))
}

/// `s` without the white space around it.
pub fn trim(s: &str) -> (r: &str)
    ensures
        r@ == trimmed(s@),
{
    let n: usize = s.unicode_len();
    let mut a: usize = 0;
    assert(s@.skip(0) =~= s@);
    while a < n && white(s.get_char(a))
        invariant
            0 <= a <= n,
            n == s@.len(),
            trim_start(s@) == trim_start(s@.skip(a as int)),
        decreases n - a,
    {
        assert(s@.skip(a as int).skip(1) =~= s@.skip(a + 1));
        a = a + 1;
    }
    let mut b: usize = n;
    assert(s@.skip(a as int) =~= s@.subrange(a as int, n as int));
    while b > a && white(s.get_char(b - 1))
        invariant
            0 <= a <= b <= n,
            n == s@.len(),
            trim_end(s@.subrange(a as int, n as int)) == trim_end(s@.subrange(a as int, b as int)),
        decreases b - a,
    {
        assert(s@.subrange(a as int, b as int).drop_last() =~= s@.subrange(a as int, b - 1));
        b = b - 1;
    }
    s.substring_char(a, b)
}

/// Whether `s` begins with `p`.
pub open spec fn begins(s: Seq<char>, p: Seq<char>) -> bool {
    p.len() <= s.len() && s.take(p.len() as int) == p
}

/// Whether `s` begins with `p`.
pub fn starts_with(s: &str, p: &str) -> (r: bool)
    ensures
        r == begins(s@, p@),
{
    let n: usize = p.unicode_len();
    if n > s.unicode_len() {
        return false;
    }
    str_eq(s.substring_char(0, n), p)
}

/// What follows `p` in `s`, where `s` begins with it.
pub fn strip_prefix<'a>(s: &'a str, p: &str) -> (r: Option<&'a str>)
    ensures
        match r {
            Some(t) => begins(s@, p@) && t@ == s@.skip(p@.len() as int),
            None => !begins(s@, p@),
        },
{
    if starts_with(s, p) {
        let t = s.substring_char(p.unicode_len(), s.unicode_len());
        assert(t@ =~= s@.skip(p@.len() as int));
        Some(t)
    } else {
        None
    }
}

/// The characters of a list of strings.
pub open spec fn strings(v: Seq<String>) -> Seq<Seq<char>> {
    Seq::new(v.len(), |i: int| v[i]@)
}

/// The parts of `s` between the places where `c` stands.
pub open spec fn parts(s: Seq<char>, c: char) -> Seq<Seq<char>>
    decreases s.len(),
{
    if s.len() == 0 {
        seq![Seq::empty()]
    } else {
        let before = parts(s.drop_last(), c);
        if s.last() == c {
            before.push(Seq::empty())
        } else {
            before.drop_last().push(before.last().push(s.last()))
        }
    }
}

/// The parts of `s` between the places where `c` stands.
pub fn split(s: &str, c: char) -> (r: Vec<String>)
    ensures
        strings(r@) == parts(s@, c),
{
    let n: usize = s.unicode_len();
    let mut out: Vec<String> = Vec::new();
    let mut cur: String = String::new();
    let mut i: usize = 0;
    proof {
        assert(s@.take(0) =~= Seq::<char>::empty());
        assert(strings(out@).push(cur@) =~= parts(s@.take(0), c));
    }
    while i < n
        invariant
            0 <= i <= n,
            n == s@.len(),
            strings(out@).push(cur@) == parts(s@.take(i as int), c),
        decreases n - i,
    {
        let ghost before = strings(out@);
        let ghost last = cur@;
        let x: char = s.get_char(i);
        proof {
            assert(s@.take(i + 1).drop_last() =~= s@.take(i as int));
            assert(before.push(last).drop_last() =~= before);
        }
        if x == c {
            out.push(cur);
            cur = String::new();
            assert(strings(out@) =~= before.push(last));
            assert(cur@ =~= Seq::<char>::empty());
        } else {
            cur.push(x);
        }
        i = i + 1;
    }
    assert(s@.take(i as int) =~= s@);
    let ghost before = strings(out@);
    let ghost last = cur@;
    out.push(cur);
    assert(strings(out@) =~= before.push(last));
    out
}

/// A name for what `{:?}` writes for a string: the string in double quotes, with its quotes,
/// backslashes and unprintable characters escaped.
pub uninterp spec fn quoted_text(s: Seq<char>) -> Seq<char>;

/// `<str as Debug>::fmt`, through `format!`: the string as `{:?}` writes it. Claimed: that is a
/// function of the string alone.
#[verifier::external_body]
pub(crate) fn quoted(s: &str) -> (r: String)
    ensures
        r@ == quoted_text(s@),
{
    format!("{s:?}")
}

/// An owned copy of `s`.
pub fn owned(s: &str) -> (r: String)
    ensures
        r@ == s@,
{
    s.to_owned()
}

proof fn lemma_digit(d: nat)
    requires
        d < 10,
    ensures
        digit_value(digit(d)) == Some(d),
        !is_white(digit(d)),
        digit(d) != '+',
{
}

/// A number in decimal is digits, and those read back.
pub proof fn lemma_decimal(n: nat)
    ensures
        digits_value(decimal(n)) == Some(n),
        decimal(n).len() > 0,
        forall|i: int|
            0 <= i < decimal(n).len() ==> !is_white(#[trigger] decimal(n)[i]) && decimal(n)[i]
                != '+',
    decreases n,
{
    if n < 10 {
        lemma_digit(n);
        let s = seq![digit(n)];
        assert(s.drop_last() =~= Seq::<char>::empty());
        assert(digits_value(s.drop_last()) == Some(0nat));
        assert(s.last() == digit(n));
    } else {
        lemma_decimal(n / 10);
        lemma_digit(n % 10);
        let s = decimal(n);
        assert(s.drop_last() =~= decimal(n / 10));
        assert(n == (n / 10) * 10 + n % 10);
    }
}

/// A number that is written in decimal reads back, where it is not above the limit, and is refused
/// where it is.
pub proof fn law_decimal_roundtrip(n: nat, max: nat)
    ensures
        parse_unsigned(decimal(n), max) == if n <= max {
            Some(n)
        } else {
            None
        },
{
    lemma_decimal(n);
    assert(decimal(n)[0] != '+');
}

/// A number with zeros in front is digits, as many as asked for at least, and those read back.
pub proof fn lemma_padded(n: nat, width: nat)
    ensures
        digits_value(padded(n, width)) == Some(n),
        padded(n, width).len() >= width,
        forall|i: int|
            0 <= i < padded(n, width).len() ==> (#[trigger] padded(n, width)[i]) != '+',
    decreases width,
{
    if width == 0 {
        if n > 0 {
            lemma_decimal(n);
        }
    } else {
        lemma_padded(n / 10, (width - 1) as nat);
        lemma_digit(n % 10);
        let s = padded(n, width);
        assert(s.drop_last() =~= padded(n / 10, (width - 1) as nat));
        assert(n == (n / 10) * 10 + n % 10);
    }
}

/// A number with zeros in front reads back as itself.
pub proof fn law_padded_roundtrip(n: nat, width: nat, max: nat)
    requires
        width > 0,
        n <= max,
    ensures
        parse_unsigned(padded(n, width), max) == Some(n),
        padded(n, width).len() >= width,
{
    lemma_padded(n, width);
    assert(padded(n, width)[0] != '+');
}

/// Two numbers that are written alike are the same.
pub proof fn law_decimal_injective(m: nat, n: nat)
    requires
        decimal(m) == decimal(n),
    ensures
        m == n,
{
    lemma_decimal(m);
    lemma_decimal(n);
}

/// Trimming takes off white space at both ends, all of it, and nothing else.
pub proof fn law_trimmed(s: Seq<char>) -> (r: (Seq<char>, Seq<char>))
    ensures
        s == r.0 + trimmed(s) + r.1,
        forall|i: int| 0 <= i < r.0.len() ==> is_white(#[trigger] r.0[i]),
        forall|i: int| 0 <= i < r.1.len() ==> is_white(#[trigger] r.1[i]),
        trimmed(s).len() > 0 ==> !is_white(trimmed(s)[0]) && !is_white(trimmed(s).last()),
{
    let a = lemma_trim_start(s);
    let t = trim_start(s);
    let b = lemma_trim_end(t);
    let u = trimmed(s);
    assert(s =~= a + u + b);
    if u.len() > 0 {
        assert(u[0] == t[0]);
    }
    (a, b)
}

proof fn lemma_trim_start(s: Seq<char>) -> (a: Seq<char>)
    ensures
        s == a + trim_start(s),
        forall|i: int| 0 <= i < a.len() ==> is_white(#[trigger] a[i]),
        trim_start(s).len() > 0 ==> !is_white(trim_start(s)[0]),
    decreases s.len(),
{
    if s.len() > 0 && is_white(s[0]) {
        let b = lemma_trim_start(s.skip(1));
        let a = seq![s[0]] + b;
        assert(s =~= seq![s[0]] + s.skip(1));
        assert(a + trim_start(s) =~= seq![s[0]] + (b + trim_start(s.skip(1))));
        assert forall|i: int| 0 <= i < a.len() implies is_white(#[trigger] a[i]) by {
            if i > 0 {
                assert(a[i] == b[i - 1]);
            }
        }
        a
    } else {
        let a = Seq::<char>::empty();
        assert(s =~= a + s);
        a
    }
}

proof fn lemma_trim_end(s: Seq<char>) -> (b: Seq<char>)
    ensures
        s == trim_end(s) + b,
        forall|i: int| 0 <= i < b.len() ==> is_white(#[trigger] b[i]),
        trim_end(s).len() > 0 ==> !is_white(trim_end(s).last()) && trim_end(s)[0] == s[0],
    decreases s.len(),
{
    if s.len() > 0 && is_white(s.last()) {
        let c = lemma_trim_end(s.drop_last());
        let b = c.push(s.last());
        assert(s =~= s.drop_last().push(s.last()));
        assert(trim_end(s) + b =~= (trim_end(s.drop_last()) + c).push(s.last()));
        b
    } else {
        let b = Seq::<char>::empty();
        assert(s =~= s + b);
        b
    }
}

/// The parts with the separator between each two.
pub open spec fn rejoined(ps: Seq<Seq<char>>, c: char) -> Seq<char>
    decreases ps.len(),
{
    if ps.len() == 0 {
        Seq::empty()
    } else if ps.len() == 1 {
        ps[0]
    } else {
        rejoined(ps.drop_last(), c).push(c) + ps.last()
    }
}

/// A text falls into the parts between its separators: none of them holds one, and with a
/// separator between each two they are the text again.
pub proof fn law_parts(s: Seq<char>, c: char)
    ensures
        parts(s, c).len() > 0,
        rejoined(parts(s, c), c) == s,
        forall|i: int| 0 <= i < parts(s, c).len() ==> !(#[trigger] parts(s, c)[i]).contains(c),
    decreases s.len(),
{
    if s.len() > 0 {
        let d = s.drop_last();
        let before = parts(d, c);
        let p = parts(s, c);
        law_parts(d, c);
        assert(before.last() == before[before.len() - 1]);
        if s.last() == c {
            assert(p.drop_last() =~= before);
            assert(rejoined(p, c) =~= d.push(c));
            assert forall|i: int| 0 <= i < p.len() implies !(#[trigger] p[i]).contains(c) by {
                if i < before.len() {
                    assert(p[i] == before[i]);
                }
            }
        } else {
            let x = before.last().push(s.last());
            assert(p.drop_last() =~= before.drop_last());
            if p.len() == 1 {
                assert(p[0] == x);
                assert(rejoined(p, c) =~= d.push(s.last()));
            } else {
                assert(rejoined(p, c) =~= d.push(s.last()));
            }
            assert forall|i: int| 0 <= i < p.len() implies !(#[trigger] p[i]).contains(c) by {
                if i < before.len() - 1 {
                    assert(p[i] == before[i]);
                } else {
                    if x.contains(c) {
                        let k = choose|k: int| 0 <= k < x.len() && x[k] == c;
                        assert(before.last()[k] == c);
                        assert(before.last().contains(c));
                    }
                }
            }
        }
        assert(d.push(s.last()) =~= s);
    } else {
        assert(parts(s, c)[0] =~= s);
    }
}

} // verus!

//! The byte codec of the placement driver: numbers, length-prefixed strings and counted lists.

use vstd::prelude::*;
use crate::bytes;
use crate::engine::encoding;
use crate::text;

verus! {

broadcast use bytes::group_be_len;

/// The `u32` at a position, and the position behind it.
pub open spec fn u32_from(b: Seq<u8>, pos: int) -> Option<(u32, int)> {
    if 0 <= pos && pos + 4 <= b.len() {
        Some((bytes::u32_at(b, pos), pos + 4))
    } else {
        None
    }
}

/// The `u64` at a position, and the position behind it.
pub open spec fn u64_from(b: Seq<u8>, pos: int) -> Option<(u64, int)> {
    if 0 <= pos && pos + 8 <= b.len() {
        Some((bytes::u64_at(b, pos), pos + 8))
    } else {
        None
    }
}

/// The byte at a position, and the position behind it.
pub open spec fn byte_from(b: Seq<u8>, pos: int) -> Option<(u8, int)> {
    if 0 <= pos < b.len() {
        Some((b[pos], pos + 1))
    } else {
        None
    }
}

/// The length-prefixed byte string at a position, and the position behind it.
pub open spec fn bytes_from(b: Seq<u8>, pos: int) -> Option<(Seq<u8>, int)> {
    if 0 <= pos {
        encoding::length_prefixed_at(b, pos)
    } else {
        None
    }
}

/// The length-prefixed text at a position, and the position behind it.
pub open spec fn text_from(b: Seq<u8>, pos: int) -> Option<(Seq<char>, int)> {
    match bytes_from(b, pos) {
        Some((s, end)) => match text::text_of(s) {
            Some(t) => Some((t, end)),
            None => None,
        },
        None => None,
    }
}

/// A text with its length in front.
pub open spec fn text_bytes(t: Seq<char>) -> Seq<u8> {
    encoding::length_prefixed(vstd::utf8::encode_utf8(t))
}

/// `n` items that stand one behind the other.
pub open spec fn list_from<T>(
    f: spec_fn(Seq<u8>, int) -> Option<(T, int)>,
    b: Seq<u8>,
    pos: int,
    n: nat,
) -> Option<(Seq<T>, int)>
    decreases n,
{
    if n == 0 {
        Some((Seq::empty(), pos))
    } else {
        match list_from(f, b, pos, (n - 1) as nat) {
            Some((s, p)) => match f(b, p) {
                Some((x, end)) => Some((s.push(x), end)),
                None => None,
            },
            None => None,
        }
    }
}

/// A list with its length in front.
pub open spec fn counted_from<T>(
    f: spec_fn(Seq<u8>, int) -> Option<(T, int)>,
    b: Seq<u8>,
    pos: int,
) -> Option<(Seq<T>, int)> {
    match u32_from(b, pos) {
        Some((n, p)) => list_from(f, b, p, n as nat),
        None => None,
    }
}

/// The items of a list, one behind the other.
pub open spec fn list_bytes<T>(enc: spec_fn(T) -> Seq<u8>, s: Seq<T>) -> Seq<u8>
    decreases s.len(),
{
    if s.len() == 0 {
        Seq::empty()
    } else {
        list_bytes(enc, s.drop_last()) + enc(s.last())
    }
}

/// A list with its length in front.
pub open spec fn counted_bytes<T>(enc: spec_fn(T) -> Seq<u8>, s: Seq<T>) -> Seq<u8> {
    bytes::be32(encoding::len32(s.len())) + list_bytes(enc, s)
}

/// How a `u64` of a list is read.
pub open spec fn u64_parser() -> spec_fn(Seq<u8>, int) -> Option<(u64, int)> {
    |b: Seq<u8>, pos: int| u64_from(b, pos)
}

/// How a `u64` of a list is written.
pub open spec fn u64_writer() -> spec_fn(u64) -> Seq<u8> {
    |x: u64| bytes::be64(x)
}

/// A value is read back from its bytes, wherever they stand.
pub open spec fn codes<T>(
    f: spec_fn(Seq<u8>, int) -> Option<(T, int)>,
    enc: Seq<u8>,
    x: T,
) -> bool {
    forall|before: Seq<u8>, after: Seq<u8>| #[trigger]
        f(before + enc + after, before.len() as int) == Some(
            (x, (before.len() + enc.len()) as int),
        )
}

/// A parser reads no further than the position that it returns, and fails on less.
pub open spec fn exact<T>(f: spec_fn(Seq<u8>, int) -> Option<(T, int)>) -> bool {
    forall|b: Seq<u8>, pos: int, cut: int| 0 <= pos && 0 <= cut <= b.len() ==> #[trigger] exact_at(
        f,
        b,
        pos,
        cut,
    )
}

/// The same, for one input that is cut short.
pub open spec fn exact_at<T>(
    f: spec_fn(Seq<u8>, int) -> Option<(T, int)>,
    b: Seq<u8>,
    pos: int,
    cut: int,
) -> bool {
    match f(b, pos) {
        Some((x, end)) => {
            &&& pos <= end <= b.len()
            &&& cut >= end ==> f(b.take(cut), pos) == Some((x, end))
            &&& cut < end ==> f(b.take(cut), pos) is None
        },
        None => f(b.take(cut), pos) is None,
    }
}

/// A list that failed early fails as a whole.
pub proof fn lemma_list_none<T>(
    f: spec_fn(Seq<u8>, int) -> Option<(T, int)>,
    b: Seq<u8>,
    pos: int,
    n: nat,
    m: nat,
)
    requires
        list_from(f, b, pos, n) is None,
        n <= m,
    ensures
        list_from(f, b, pos, m) is None,
    decreases m,
{
    if n < m {
        lemma_list_none(f, b, pos, n, (m - 1) as nat);
    }
}

/// A list is read back from its bytes.
pub proof fn lemma_list_codes<T>(
    f: spec_fn(Seq<u8>, int) -> Option<(T, int)>,
    enc: spec_fn(T) -> Seq<u8>,
    s: Seq<T>,
    before: Seq<u8>,
    after: Seq<u8>,
)
    requires
        forall|k: int| 0 <= k < s.len() ==> codes(f, #[trigger] enc(s[k]), s[k]),
    ensures
        list_from(f, before + list_bytes(enc, s) + after, before.len() as int, s.len()) == Some(
            (s, (before.len() + list_bytes(enc, s).len()) as int),
        ),
    decreases s.len(),
{
    if s.len() > 0 {
        let init = s.drop_last();
        let x = s.last();
        let head = list_bytes(enc, init);
        assert forall|k: int| 0 <= k < init.len() implies codes(
            f,
            #[trigger] enc(init[k]),
            init[k],
        ) by {
            assert(init[k] == s[k]);
        }
        lemma_list_codes(f, enc, init, before, enc(x) + after);
        let whole = before + list_bytes(enc, s) + after;
        assert(whole =~= before + head + (enc(x) + after));
        assert(codes(f, enc(s[s.len() - 1]), s[s.len() - 1]));
        assert(whole =~= (before + head) + enc(x) + after);
        assert(f((before + head) + enc(x) + after, (before + head).len() as int) == Some(
            (x, ((before + head).len() + enc(x).len()) as int),
        ));
        assert(init.push(x) =~= s);
    } else {
        assert(before + list_bytes(enc, s) + after =~= before + after);
    }
}

/// A counted list is read back from its bytes.
pub proof fn lemma_counted_codes<T>(
    f: spec_fn(Seq<u8>, int) -> Option<(T, int)>,
    enc: spec_fn(T) -> Seq<u8>,
    s: Seq<T>,
    before: Seq<u8>,
    after: Seq<u8>,
)
    requires
        forall|k: int| 0 <= k < s.len() ==> codes(f, #[trigger] enc(s[k]), s[k]),
        s.len() < 0x1_0000_0000,
    ensures
        counted_from(f, before + counted_bytes(enc, s) + after, before.len() as int) == Some(
            (s, (before.len() + counted_bytes(enc, s).len()) as int),
        ),
{
    let n = bytes::be32(encoding::len32(s.len()));
    let whole = before + counted_bytes(enc, s) + after;
    assert(whole.subrange(before.len() as int, before.len() as int + 4) =~= n);
    bytes::lemma_u32_at(whole, before.len() as int, encoding::len32(s.len()));
    lemma_list_codes(f, enc, s, before + n, after);
    assert(whole =~= (before + n) + list_bytes(enc, s) + after);
}

/// A number is read back from its bytes.
pub proof fn lemma_u64_codes(x: u64, before: Seq<u8>, after: Seq<u8>)
    ensures
        u64_from(before + bytes::be64(x) + after, before.len() as int) == Some(
            (x, (before.len() + 8) as int),
        ),
{
    let whole = before + bytes::be64(x) + after;
    assert(whole.subrange(before.len() as int, before.len() as int + 8) =~= bytes::be64(x));
    bytes::lemma_u64_at(whole, before.len() as int, x);
}

/// A number is read back from its bytes.
pub proof fn lemma_u32_codes(x: u32, before: Seq<u8>, after: Seq<u8>)
    ensures
        u32_from(before + bytes::be32(x) + after, before.len() as int) == Some(
            (x, (before.len() + 4) as int),
        ),
{
    let whole = before + bytes::be32(x) + after;
    assert(whole.subrange(before.len() as int, before.len() as int + 4) =~= bytes::be32(x));
    bytes::lemma_u32_at(whole, before.len() as int, x);
}

/// A byte string is read back from its bytes.
pub proof fn lemma_bytes_codes(x: Seq<u8>, before: Seq<u8>, after: Seq<u8>)
    requires
        x.len() < 0x1_0000_0000,
    ensures
        bytes_from(before + encoding::length_prefixed(x) + after, before.len() as int) == Some(
            (x, (before.len() + encoding::length_prefixed(x).len()) as int),
        ),
{
    encoding::law_length_prefixed_roundtrip(before, x, after);
}

/// A text is read back from its bytes.
pub proof fn lemma_text_codes(x: Seq<char>, before: Seq<u8>, after: Seq<u8>)
    requires
        vstd::utf8::encode_utf8(x).len() < 0x1_0000_0000,
    ensures
        text_from(before + text_bytes(x) + after, before.len() as int) == Some(
            (x, (before.len() + text_bytes(x).len()) as int),
        ),
{
    lemma_bytes_codes(vstd::utf8::encode_utf8(x), before, after);
    text::lemma_text_roundtrip(x);
}

/// The numbers of a list are read back from their bytes.
pub proof fn lemma_u64s_code(s: Seq<u64>)
    ensures
        forall|k: int| 0 <= k < s.len() ==> codes(u64_parser(), #[trigger] u64_writer()(s[k]), s[k]),
{
    assert forall|k: int| 0 <= k < s.len() implies codes(
        u64_parser(),
        #[trigger] u64_writer()(s[k]),
        s[k],
    ) by {
        let f = u64_parser();
        let enc = u64_writer()(s[k]);
        assert forall|before: Seq<u8>, after: Seq<u8>| #[trigger]
            f(before + enc + after, before.len() as int) == Some(
                (s[k], (before.len() + enc.len()) as int),
            ) by {
            lemma_u64_codes(s[k], before, after);
        }
    }
}

/// Cutting keeps the numbers in front of the cut.
pub proof fn lemma_cut(b: Seq<u8>, pos: int, cut: int)
    requires
        0 <= pos,
        0 <= cut <= b.len(),
    ensures
        pos + 4 <= cut ==> bytes::u32_at(b.take(cut), pos) == bytes::u32_at(b, pos),
        pos + 8 <= cut ==> bytes::u64_at(b.take(cut), pos) == bytes::u64_at(b, pos),
{
    let c = b.take(cut);
    if pos + 4 <= cut {
        assert(c.subrange(pos, pos + 4) =~= b.subrange(pos, pos + 4));
    }
    if pos + 8 <= cut {
        assert(c.subrange(pos, pos + 8) =~= b.subrange(pos, pos + 8));
    }
}

/// Byte strings are read exactly.
pub proof fn lemma_bytes_exact(b: Seq<u8>, pos: int, cut: int)
    requires
        0 <= pos,
        0 <= cut <= b.len(),
    ensures
        match bytes_from(b, pos) {
            Some((x, end)) => {
                &&& pos <= end <= b.len()
                &&& cut >= end ==> bytes_from(b.take(cut), pos) == Some((x, end))
                &&& cut < end ==> bytes_from(b.take(cut), pos) is None
            },
            None => bytes_from(b.take(cut), pos) is None,
        },
{
    lemma_cut(b, pos, cut);
    let c = b.take(cut);
    if pos + 4 <= cut {
        let n = bytes::u32_at(b, pos) as int;
        if pos + 4 + n <= cut {
            assert(c.subrange(pos + 4, pos + 4 + n) =~= b.subrange(pos + 4, pos + 4 + n));
        }
    }
}

/// A list of exactly read items is read exactly.
pub proof fn lemma_list_exact<T>(
    f: spec_fn(Seq<u8>, int) -> Option<(T, int)>,
    b: Seq<u8>,
    pos: int,
    n: nat,
    cut: int,
)
    requires
        exact(f),
        0 <= pos <= b.len(),
        0 <= cut <= b.len(),
    ensures
        match list_from(f, b, pos, n) {
            Some((x, end)) => {
                &&& pos <= end <= b.len()
                &&& cut >= end ==> list_from(f, b.take(cut), pos, n) == Some((x, end))
                &&& pos <= cut < end ==> list_from(f, b.take(cut), pos, n) is None
            },
            None => pos <= cut ==> list_from(f, b.take(cut), pos, n) is None,
        },
    decreases n,
{
    if n > 0 {
        let m = (n - 1) as nat;
        lemma_list_exact(f, b, pos, m, cut);
        if let Some((s, p)) = list_from(f, b, pos, m) {
            assert(exact_at(f, b, p, cut));
        }
    }
}

/// A counted list of exactly read items is read exactly.
pub proof fn lemma_counted_exact<T>(
    f: spec_fn(Seq<u8>, int) -> Option<(T, int)>,
    b: Seq<u8>,
    pos: int,
    cut: int,
)
    requires
        exact(f),
        0 <= pos,
        0 <= cut <= b.len(),
    ensures
        match counted_from(f, b, pos) {
            Some((x, end)) => {
                &&& pos <= end <= b.len()
                &&& cut >= end ==> counted_from(f, b.take(cut), pos) == Some((x, end))
                &&& cut < end ==> counted_from(f, b.take(cut), pos) is None
            },
            None => counted_from(f, b.take(cut), pos) is None,
        },
{
    lemma_cut(b, pos, cut);
    if let Some((n, p)) = u32_from(b, pos) {
        lemma_list_exact(f, b, p, n as nat, cut);
    }
}

/// Numbers are read exactly.
pub proof fn lemma_u64_exact()
    ensures
        exact(u64_parser()),
{
    let f = u64_parser();
    assert forall|b: Seq<u8>, pos: int, cut: int| 0 <= pos && 0 <= cut
        <= b.len() implies #[trigger] exact_at(f, b, pos, cut) by {
        lemma_cut(b, pos, cut);
    }
}

/// Read a `u32`.
pub fn get_u32(buf: &[u8], pos: usize) -> (r: Option<(u32, usize)>)
    ensures
        match u32_from(buf@, pos as int) {
            Some((x, end)) => r matches Some((y, p)) && y == x && p == end,
            None => r is None,
        },
{
    if pos > buf.len() || buf.len() - pos < 4 {
        None
    } else {
        Some((bytes::read_u32(buf, pos), pos + 4))
    }
}

/// Read a `u64`.
pub fn get_u64(buf: &[u8], pos: usize) -> (r: Option<(u64, usize)>)
    ensures
        match u64_from(buf@, pos as int) {
            Some((x, end)) => r matches Some((y, p)) && y == x && p == end,
            None => r is None,
        },
{
    if pos > buf.len() || buf.len() - pos < 8 {
        None
    } else {
        Some((bytes::read_u64(buf, pos), pos + 8))
    }
}

/// Read one byte.
pub fn get_byte(buf: &[u8], pos: usize) -> (r: Option<(u8, usize)>)
    ensures
        match byte_from(buf@, pos as int) {
            Some((x, end)) => r matches Some((y, p)) && y == x && p == end,
            None => r is None,
        },
{
    if pos >= buf.len() {
        None
    } else {
        Some((buf[pos], pos + 1))
    }
}

/// Read a length-prefixed byte string.
pub fn get_bytes(buf: &[u8], pos: usize) -> (r: Option<(Vec<u8>, usize)>)
    ensures
        match bytes_from(buf@, pos as int) {
            Some((x, end)) => r matches Some((y, p)) && y@ == x && p == end,
            None => r is None,
        },
{
    let (n, start) = match get_u32(buf, pos) {
        Some(x) => x,
        None => {
            return None;
        },
    };
    if buf.len() - start < n as usize {
        return None;
    }
    let end: usize = start + n as usize;
    Some((bytes::copy(bytes::slice(buf, start, end)), end))
}

/// Read a length-prefixed text.
pub fn get_text(buf: &[u8], pos: usize) -> (r: Option<(String, usize)>)
    ensures
        match text_from(buf@, pos as int) {
            Some((x, end)) => r matches Some((y, p)) && y@ == x && p == end,
            None => r is None,
        },
{
    let (b, end) = match get_bytes(buf, pos) {
        Some(x) => x,
        None => {
            return None;
        },
    };
    match text::from_utf8(b.as_slice()) {
        Some(t) => Some((t, end)),
        None => None,
    }
}

/// Read a counted list of numbers.
pub fn get_u64s(buf: &[u8], pos: usize) -> (r: Option<(Vec<u64>, usize)>)
    ensures
        match counted_from(u64_parser(), buf@, pos as int) {
            Some((x, end)) => r matches Some((y, p)) && y@ == x && p == end,
            None => r is None,
        },
{
    let (n, start) = match get_u32(buf, pos) {
        Some(x) => x,
        None => {
            return None;
        },
    };
    let ghost f = u64_parser();
    let mut out: Vec<u64> = Vec::new();
    let mut p: usize = start;
    let mut i: u32 = 0;
    while i < n
        invariant
            0 <= i <= n,
            f == u64_parser(),
            u32_from(buf@, pos as int) == Some((n, start as int)),
            list_from(f, buf@, start as int, i as nat) == Some((out@, p as int)),
        decreases n - i,
    {
        match get_u64(buf, p) {
            Some((x, end)) => {
                out.push(x);
                p = end;
            },
            None => {
                proof {
                    assert(list_from(f, buf@, start as int, (i + 1) as nat) is None);
                    lemma_list_none(f, buf@, start as int, (i + 1) as nat, n as nat);
                }
                return None;
            },
        }
        i = i + 1;
    }
    Some((out, p))
}

/// Append a text with its length in front.
pub fn put_text(out: &mut Vec<u8>, t: &str)
    ensures
        final(out)@ == old(out)@ + text_bytes(t@),
{
    encoding::put_length_prefixed(out, text::utf8_bytes(t));
}

/// Append a counted list of numbers.
pub fn put_u64s(out: &mut Vec<u8>, s: &[u64])
    ensures
        final(out)@ == old(out)@ + counted_bytes(u64_writer(), s@),
{
    let ghost before = out@;
    bytes::put_u32(out, encoding::low32(s.len()));
    let ghost head = out@;
    let mut i: usize = 0;
    assert(s@.take(0) =~= Seq::<u64>::empty());
    assert(out@ =~= head + list_bytes(u64_writer(), s@.take(0)));
    while i < s.len()
        invariant
            0 <= i <= s@.len(),
            out@ == head + list_bytes(u64_writer(), s@.take(i as int)),
        decreases s@.len() - i,
    {
        assert(s@.take(i + 1).drop_last() =~= s@.take(i as int));
        bytes::put_u64(out, s[i]);
        assert(out@ =~= head + list_bytes(u64_writer(), s@.take(i + 1)));
        i = i + 1;
    }
    assert(s@.take(i as int) =~= s@);
    assert(out@ =~= before + counted_bytes(u64_writer(), s@));
}

} // verus!

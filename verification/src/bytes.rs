//! Byte strings: big-endian integers, lexicographic order, equality and slicing.

use vstd::prelude::*;

verus! {

/// The `n` big-endian base-256 digits of `x` (the low `n` digits when `x` is wider).
pub open spec fn be_bytes(x: nat, n: nat) -> Seq<u8>
    decreases n,
{
    if n == 0 {
        Seq::empty()
    } else {
        be_bytes(x / 256, (n - 1) as nat).push((x % 256) as u8)
    }
}

/// The number whose big-endian base-256 digits are `s`.
pub open spec fn be_value(s: Seq<u8>) -> nat
    decreases s.len(),
{
    if s.len() == 0 {
        0
    } else {
        be_value(s.drop_last()) * 256 + s.last() as nat
    }
}

/// `256` to the power `n`.
pub open spec fn pow256(n: nat) -> nat
    decreases n,
{
    if n == 0 {
        1
    } else {
        pow256((n - 1) as nat) * 256
    }
}

/// The four big-endian bytes of a `u32`.
pub open spec fn be32(x: u32) -> Seq<u8> {
    be_bytes(x as nat, 4)
}

/// The eight big-endian bytes of a `u64`.
pub open spec fn be64(x: u64) -> Seq<u8> {
    be_bytes(x as nat, 8)
}

/// The `u32` written at `pos` in `s`.
pub open spec fn u32_at(s: Seq<u8>, pos: int) -> u32 {
    be_value(s.subrange(pos, pos + 4)) as u32
}

/// The `u64` written at `pos` in `s`.
pub open spec fn u64_at(s: Seq<u8>, pos: int) -> u64 {
    be_value(s.subrange(pos, pos + 8)) as u64
}

pub proof fn lemma_be_bytes_len(x: nat, n: nat)
    ensures
        be_bytes(x, n).len() == n,
    decreases n,
{
    if n > 0 {
        lemma_be_bytes_len(x / 256, (n - 1) as nat);
    }
}

/// Reading back what was written: the digits of a number that fits give that number.
pub proof fn lemma_be_roundtrip(x: nat, n: nat)
    requires
        x < pow256(n),
    ensures
        be_value(be_bytes(x, n)) == x,
    decreases n,
{
    if n > 0 {
        lemma_be_bytes_len(x / 256, (n - 1) as nat);
        let p = pow256((n - 1) as nat);
        assert(x / 256 < p) by (nonlinear_arith)
            requires
                x < p * 256,
        ;
        lemma_be_roundtrip(x / 256, (n - 1) as nat);
        assert(be_bytes(x, n).drop_last() =~= be_bytes(x / 256, (n - 1) as nat));
        assert(be_bytes(x, n).last() == (x % 256) as u8);
    }
}

pub proof fn lemma_be_value_bound(s: Seq<u8>)
    ensures
        be_value(s) < pow256(s.len()),
    decreases s.len(),
{
    if s.len() > 0 {
        lemma_be_value_bound(s.drop_last());
        let p = pow256((s.len() - 1) as nat);
        let v = be_value(s.drop_last());
        assert(v * 256 + 255 < p * 256) by (nonlinear_arith)
            requires
                v < p,
        ;
    }
}

/// Writing back what was read: a byte string is the digits of its value.
pub proof fn lemma_be_value_inverse(s: Seq<u8>)
    ensures
        be_bytes(be_value(s), s.len()) == s,
    decreases s.len(),
{
    if s.len() > 0 {
        lemma_be_value_inverse(s.drop_last());
        let v = be_value(s);
        assert(v / 256 == be_value(s.drop_last()) && v % 256 == s.last() as nat);
        assert(be_bytes(v, s.len()) =~= s.drop_last().push(s.last()));
        assert(s.drop_last().push(s.last()) =~= s);
    } else {
        assert(be_bytes(0, 0) =~= s);
    }
}

pub proof fn lemma_pow256_values()
    ensures
        pow256(1) == 0x100,
        pow256(4) == 0x1_0000_0000,
        pow256(8) == 0x1_0000_0000_0000_0000,
{
    reveal_with_fuel(pow256, 9);
}

/// A `u32` written at `pos` reads back.
pub proof fn lemma_u32_at(s: Seq<u8>, pos: int, x: u32)
    requires
        0 <= pos,
        pos + 4 <= s.len(),
        s.subrange(pos, pos + 4) == be32(x),
    ensures
        u32_at(s, pos) == x,
{
    lemma_pow256_values();
    lemma_be_roundtrip(x as nat, 4);
}

/// A `u64` written at `pos` reads back.
pub proof fn lemma_u64_at(s: Seq<u8>, pos: int, x: u64)
    requires
        0 <= pos,
        pos + 8 <= s.len(),
        s.subrange(pos, pos + 8) == be64(x),
    ensures
        u64_at(s, pos) == x,
{
    lemma_pow256_values();
    lemma_be_roundtrip(x as nat, 8);
}

pub broadcast proof fn lemma_be32_len(x: u32)
    ensures
        #[trigger] be32(x).len() == 4,
{
    lemma_be_bytes_len(x as nat, 4);
}

pub broadcast proof fn lemma_be64_len(x: u64)
    ensures
        #[trigger] be64(x).len() == 8,
{
    lemma_be_bytes_len(x as nat, 8);
}

pub broadcast group group_be_len {
    lemma_be32_len,
    lemma_be64_len,
}

/// Append `bytes` to `out`.
pub fn push_all(out: &mut Vec<u8>, bytes: &[u8])
    ensures
        final(out)@ == old(out)@ + bytes@,
{
    let ghost before = out@;
    out.extend_from_slice(bytes);
    assert(out@ =~= before + bytes@);
}

/// Append the big-endian bytes of `x` to `out`.
pub fn put_u32(out: &mut Vec<u8>, x: u32)
    ensures
        final(out)@ == old(out)@ + be32(x),
{
    let ghost before = out@;
    let x1: u32 = x / 256;
    let x2: u32 = x1 / 256;
    let x3: u32 = x2 / 256;
    out.push((x3 % 256) as u8);
    out.push((x2 % 256) as u8);
    out.push((x1 % 256) as u8);
    out.push((x % 256) as u8);
    proof {
        reveal_with_fuel(be_bytes, 5);
        assert(out@ =~= before + be32(x));
    }
}

/// Append the big-endian bytes of `x` to `out`.
pub fn put_u64(out: &mut Vec<u8>, x: u64)
    ensures
        final(out)@ == old(out)@ + be64(x),
{
    let ghost before = out@;
    let x1: u64 = x / 256;
    let x2: u64 = x1 / 256;
    let x3: u64 = x2 / 256;
    let x4: u64 = x3 / 256;
    let x5: u64 = x4 / 256;
    let x6: u64 = x5 / 256;
    let x7: u64 = x6 / 256;
    out.push((x7 % 256) as u8);
    out.push((x6 % 256) as u8);
    out.push((x5 % 256) as u8);
    out.push((x4 % 256) as u8);
    out.push((x3 % 256) as u8);
    out.push((x2 % 256) as u8);
    out.push((x1 % 256) as u8);
    out.push((x % 256) as u8);
    proof {
        reveal_with_fuel(be_bytes, 9);
        assert(out@ =~= before + be64(x));
    }
}

/// Read the big-endian `u32` at `pos`.
pub fn read_u32(buf: &[u8], pos: usize) -> (v: u32)
    requires
        pos + 4 <= buf@.len(),
    ensures
        v == u32_at(buf@, pos as int),
{
    let n: usize = buf.len();
    let mut v: u32 = 0;
    let mut i: usize = 0;
    proof {
        lemma_pow256_values();
        assert(buf@.subrange(pos as int, pos as int) =~= Seq::<u8>::empty());
    }
    while i < 4
        invariant
            0 <= i <= 4,
            pos + 4 <= buf@.len(),
            n == buf@.len(),
            v as nat == be_value(buf@.subrange(pos as int, pos + i)),
        decreases 4 - i,
    {
        let ghost next = buf@.subrange(pos as int, pos + i + 1);
        proof {
            assert(next.drop_last() =~= buf@.subrange(pos as int, pos + i));
            lemma_be_value_bound(next);
            reveal_with_fuel(pow256, 5);
        }
        v = v * 256 + buf[pos + i] as u32;
        i = i + 1;
    }
    v
}

/// Read the big-endian `u64` at `pos`.
pub fn read_u64(buf: &[u8], pos: usize) -> (v: u64)
    requires
        pos + 8 <= buf@.len(),
    ensures
        v == u64_at(buf@, pos as int),
{
    let n: usize = buf.len();
    let mut v: u64 = 0;
    let mut i: usize = 0;
    proof {
        assert(buf@.subrange(pos as int, pos as int) =~= Seq::<u8>::empty());
    }
    while i < 8
        invariant
            0 <= i <= 8,
            pos + 8 <= buf@.len(),
            n == buf@.len(),
            v as nat == be_value(buf@.subrange(pos as int, pos + i)),
        decreases 8 - i,
    {
        let ghost next = buf@.subrange(pos as int, pos + i + 1);
        proof {
            assert(next.drop_last() =~= buf@.subrange(pos as int, pos + i));
            lemma_be_value_bound(next);
            reveal_with_fuel(pow256, 9);
        }
        v = v * 256 + buf[pos + i] as u64;
        i = i + 1;
    }
    v
}

/// Strict lexicographic order on byte strings.
pub open spec fn lex_lt(a: Seq<u8>, b: Seq<u8>) -> bool
    decreases a.len(),
{
    if b.len() == 0 {
        false
    } else if a.len() == 0 {
        true
    } else if a[0] != b[0] {
        a[0] < b[0]
    } else {
        lex_lt(a.skip(1), b.skip(1))
    }
}

/// Lexicographic order on byte strings.
pub open spec fn lex_le(a: Seq<u8>, b: Seq<u8>) -> bool {
    !lex_lt(b, a)
}

pub proof fn lemma_lex_irreflexive(a: Seq<u8>)
    ensures
        !lex_lt(a, a),
    decreases a.len(),
{
    if a.len() > 0 {
        lemma_lex_irreflexive(a.skip(1));
    }
}

pub proof fn lemma_lex_total(a: Seq<u8>, b: Seq<u8>)
    ensures
        lex_lt(a, b) || a == b || lex_lt(b, a),
        !(lex_lt(a, b) && lex_lt(b, a)),
    decreases a.len(),
{
    if a.len() > 0 && b.len() > 0 && a[0] == b[0] {
        lemma_lex_total(a.skip(1), b.skip(1));
        if a.skip(1) == b.skip(1) {
            assert(a =~= seq![a[0]] + a.skip(1));
            assert(b =~= seq![b[0]] + b.skip(1));
        }
    } else if a.len() == 0 && b.len() == 0 {
        assert(a =~= b);
    }
}

pub proof fn lemma_lex_transitive(a: Seq<u8>, b: Seq<u8>, c: Seq<u8>)
    requires
        lex_lt(a, b),
        lex_lt(b, c),
    ensures
        lex_lt(a, c),
    decreases a.len(),
{
    if a.len() > 0 && b.len() > 0 && c.len() > 0 && a[0] == b[0] && b[0] == c[0] {
        lemma_lex_transitive(a.skip(1), b.skip(1), c.skip(1));
    }
}

/// All the order facts about three byte strings.
pub proof fn lemma_lex_facts(a: Seq<u8>, b: Seq<u8>, c: Seq<u8>)
    ensures
        lex_le(a, a),
        lex_le(a, b) || lex_lt(b, a),
        lex_le(a, b) && lex_le(b, a) ==> a == b,
        lex_le(a, b) <==> (lex_lt(a, b) || a == b),
        lex_lt(a, b) && lex_lt(b, c) ==> lex_lt(a, c),
        lex_le(a, b) && lex_lt(b, c) ==> lex_lt(a, c),
        lex_lt(a, b) && lex_le(b, c) ==> lex_lt(a, c),
        lex_le(a, b) && lex_le(b, c) ==> lex_le(a, c),
{
    lemma_lex_irreflexive(a);
    lemma_lex_irreflexive(b);
    lemma_lex_total(a, b);
    lemma_lex_total(b, c);
    lemma_lex_total(a, c);
    if lex_lt(a, b) && lex_lt(b, c) {
        lemma_lex_transitive(a, b, c);
    }
}

/// A common prefix does not matter to the order.
pub proof fn lemma_lex_common_prefix(p: Seq<u8>, a: Seq<u8>, b: Seq<u8>)
    ensures
        lex_lt(p + a, p + b) == lex_lt(a, b),
    decreases p.len(),
{
    if p.len() > 0 {
        lemma_lex_common_prefix(p.skip(1), a, b);
        assert((p + a).skip(1) =~= p.skip(1) + a);
        assert((p + b).skip(1) =~= p.skip(1) + b);
    } else {
        assert(p + a =~= a);
        assert(p + b =~= b);
    }
}

/// `k ‖ 0x00` is the immediate successor of `k`.
pub proof fn lemma_lex_successor(k: Seq<u8>, x: Seq<u8>)
    ensures
        lex_le(k.push(0u8), x) <==> lex_lt(k, x),
    decreases k.len(),
{
    let s = k.push(0u8);
    if k.len() == 0 {
        if x.len() > 0 {
            assert(s.skip(1).len() == 0);
            assert(!lex_lt(x.skip(1), s.skip(1)));
        }
    } else if x.len() > 0 && k[0] == x[0] {
        lemma_lex_successor(k.skip(1), x.skip(1));
        assert(s.skip(1) =~= k.skip(1).push(0u8));
    }
}

/// Equal-length digit strings order as their numbers do.
pub proof fn lemma_be_order(x: nat, y: nat, n: nat)
    requires
        x < pow256(n),
        y < pow256(n),
    ensures
        lex_lt(be_bytes(x, n), be_bytes(y, n)) == (x < y),
    decreases n,
{
    if n == 0 {
    } else {
        let m = (n - 1) as nat;
        let p = pow256(m);
        assert(x / 256 < p) by (nonlinear_arith)
            requires
                x < p * 256,
        ;
        assert(y / 256 < p) by (nonlinear_arith)
            requires
                y < p * 256,
        ;
        lemma_be_order(x / 256, y / 256, m);
        let a = be_bytes(x / 256, m);
        let b = be_bytes(y / 256, m);
        lemma_be_bytes_len(x / 256, m);
        lemma_be_bytes_len(y / 256, m);
        lemma_be_roundtrip(x / 256, m);
        lemma_be_roundtrip(y / 256, m);
        lemma_lex_push(a, b, (x % 256) as u8, (y % 256) as u8);
    }
}

proof fn lemma_lex_push(a: Seq<u8>, b: Seq<u8>, x: u8, y: u8)
    requires
        a.len() == b.len(),
    ensures
        lex_lt(a.push(x), b.push(y)) == (lex_lt(a, b) || (a == b && x < y)),
    decreases a.len(),
{
    if a.len() == 0 {
        assert(a =~= b);
        assert(a.push(x).skip(1) =~= Seq::<u8>::empty());
        assert(b.push(y).skip(1) =~= Seq::<u8>::empty());
        assert(!lex_lt(Seq::<u8>::empty(), Seq::<u8>::empty()));
    } else {
        assert(a.push(x).skip(1) =~= a.skip(1).push(x));
        assert(b.push(y).skip(1) =~= b.skip(1).push(y));
        lemma_lex_push(a.skip(1), b.skip(1), x, y);
        if a[0] == b[0] {
            if a.skip(1) == b.skip(1) {
                assert(a =~= seq![a[0]] + a.skip(1));
                assert(b =~= seq![b[0]] + b.skip(1));
            }
        }
    }
}

/// Whether `a` sorts strictly before `b`.
pub fn bytes_lt(a: &[u8], b: &[u8]) -> (r: bool)
    ensures
        r == lex_lt(a@, b@),
{
    let mut i: usize = 0;
    proof {
        assert(a@.skip(0) =~= a@);
        assert(b@.skip(0) =~= b@);
    }
    while i < a.len() && i < b.len()
        invariant
            0 <= i <= a@.len(),
            i <= b@.len(),
            lex_lt(a@, b@) == lex_lt(a@.skip(i as int), b@.skip(i as int)),
        decreases a@.len() - i,
    {
        if a[i] != b[i] {
            return a[i] < b[i];
        }
        proof {
            assert(a@.skip(i as int).skip(1) =~= a@.skip(i + 1));
            assert(b@.skip(i as int).skip(1) =~= b@.skip(i + 1));
        }
        i = i + 1;
    }
    i < b.len()
}

/// Whether `a` sorts at or before `b`.
pub fn bytes_le(a: &[u8], b: &[u8]) -> (r: bool)
    ensures
        r == lex_le(a@, b@),
{
    !bytes_lt(b, a)
}

/// Whether two byte strings are equal.
pub fn bytes_eq(a: &[u8], b: &[u8]) -> (r: bool)
    ensures
        r == (a@ == b@),
{
    if a.len() != b.len() {
        return false;
    }
    let mut i: usize = 0;
    while i < a.len()
        invariant
            0 <= i <= a@.len(),
            a@.len() == b@.len(),
            forall|j: int| 0 <= j < i ==> a@[j] == b@[j],
        decreases a@.len() - i,
    {
        if a[i] != b[i] {
            return false;
        }
        i = i + 1;
    }
    assert(a@ =~= b@);
    true
}

/// An owned copy of `s`.
pub fn copy(s: &[u8]) -> (r: Vec<u8>)
    ensures
        r@ == s@,
{
    let mut out: Vec<u8> = Vec::new();
    push_all(&mut out, s);
    assert(out@ =~= s@);
    out
}

/// The bytes `[from, to)` of `s`.
pub fn slice(s: &[u8], from: usize, to: usize) -> (r: &[u8])
    requires
        from <= to <= s@.len(),
    ensures
        r@ == s@.subrange(from as int, to as int),
{
    vstd::slice::slice_subrange(s, from, to)
}

/// Numbers in big-endian form, one after another.
pub open spec fn be64_list(s: Seq<u64>) -> Seq<u8>
    decreases s.len(),
{
    if s.len() == 0 {
        Seq::empty()
    } else {
        be64_list(s.drop_last()) + be64(s.last())
    }
}

/// The `n` big-endian numbers from `pos` on.
pub open spec fn u64s_at(b: Seq<u8>, pos: int, n: nat) -> Seq<u64> {
    Seq::new(n, |i: int| u64_at(b, pos + 8 * i))
}

pub broadcast proof fn lemma_be64_list_len(s: Seq<u64>)
    ensures
        #[trigger] be64_list(s).len() == 8 * s.len(),
    decreases s.len(),
{
    broadcast use group_be_len;
    if s.len() > 0 {
        lemma_be64_list_len(s.drop_last());
    }
}

pub proof fn lemma_be64_list_at(s: Seq<u64>, i: int)
    requires
        0 <= i < s.len(),
    ensures
        be64_list(s).subrange(8 * i, 8 * i + 8) == be64(s[i]),
    decreases s.len(),
{
    broadcast use {group_be_len, lemma_be64_list_len};
    if i == s.len() - 1 {
        assert(be64_list(s).subrange(8 * i, 8 * i + 8) =~= be64(s[i]));
    } else {
        lemma_be64_list_at(s.drop_last(), i);
        assert(be64_list(s).subrange(8 * i, 8 * i + 8) =~= be64_list(s.drop_last()).subrange(
            8 * i,
            8 * i + 8,
        ));
    }
}

/// A list of numbers reads back, wherever it stands.
pub proof fn lemma_u64s_at(before: Seq<u8>, s: Seq<u64>, after: Seq<u8>)
    ensures
        u64s_at(before + be64_list(s) + after, before.len() as int, s.len()) == s,
{
    broadcast use lemma_be64_list_len;
    let b = before + be64_list(s) + after;
    let pos = before.len() as int;
    assert forall|i: int| 0 <= i < s.len() implies u64s_at(b, pos, s.len())[i] == #[trigger] s[i] by {
        lemma_be64_list_at(s, i);
        assert(b.subrange(pos + 8 * i, pos + 8 * i + 8) =~= be64_list(s).subrange(
            8 * i,
            8 * i + 8,
        ));
        lemma_u64_at(b, pos + 8 * i, s[i]);
    }
    assert(u64s_at(b, pos, s.len()) =~= s);
}

/// Append numbers in big-endian form.
pub fn put_u64s(out: &mut Vec<u8>, s: &[u64])
    ensures
        final(out)@ == old(out)@ + be64_list(s@),
{
    let ghost head = out@;
    let mut i: usize = 0;
    proof {
        assert(s@.take(0) =~= Seq::<u64>::empty());
        assert(out@ =~= head + be64_list(s@.take(0)));
    }
    while i < s.len()
        invariant
            0 <= i <= s@.len(),
            out@ == head + be64_list(s@.take(i as int)),
        decreases s@.len() - i,
    {
        put_u64(out, s[i]);
        proof {
            let t = s@.take(i + 1);
            assert(t.drop_last() =~= s@.take(i as int));
            assert(out@ =~= head + be64_list(t));
        }
        i = i + 1;
    }
    assert(s@.take(i as int) =~= s@);
}

/// Read `count` big-endian numbers from `pos` on; `None` where `buf` ends too early.
pub fn read_u64s(buf: &[u8], pos: usize, count: u32) -> (r: Option<Vec<u64>>)
    requires
        pos <= buf@.len(),
    ensures
        match r {
            Some(v) => pos + 8 * count <= buf@.len() && v@ == u64s_at(
                buf@,
                pos as int,
                count as nat,
            ),
            None => pos + 8 * count > buf@.len(),
        },
{
    let mut out: Vec<u64> = Vec::new();
    let mut at: usize = pos;
    let mut i: u32 = 0;
    while i < count
        invariant
            0 <= i <= count,
            at == pos + 8 * i,
            at <= buf@.len(),
            out@ =~= u64s_at(buf@, pos as int, i as nat),
        decreases count - i,
    {
        if buf.len() - at < 8 {
            return None;
        }
        out.push(read_u64(buf, at));
        at = at + 8;
        i = i + 1;
    }
    Some(out)
}

} // verus!

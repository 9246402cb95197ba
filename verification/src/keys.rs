//! Keys of the trees that are made of integers: fixed-width, big-endian, so
//! that the order of the keys as byte strings is the order of the numbers.

use vstd::prelude::*;
use crate::bytes::lex_lt;

verus! {

/// The number that the bytes of `s` spell, most significant byte first.
pub open spec fn be_value(s: Seq<u8>) -> nat
    decreases s.len(),
{
    if s.len() == 0 {
        0
    } else {
        be_value(s.drop_last()) * 256 + s.last() as nat
    }
}

/// The `width` low-order bytes of `x`, most significant byte first.
pub open spec fn be_bytes(x: nat, width: nat) -> Seq<u8>
    decreases width,
{
    if width == 0 {
        Seq::empty()
    } else {
        be_bytes(x / 256, (width - 1) as nat).push((x % 256) as u8)
    }
}

/// 256 to the power `n`.
pub open spec fn pow256(n: nat) -> nat
    decreases n,
{
    if n == 0 {
        1
    } else {
        256 * pow256((n - 1) as nat)
    }
}

/// The key of an update, and of its result: the id in eight bytes.
pub open spec fn update_key_spec(id: u64) -> Seq<u8> {
    be_bytes(id as nat, 8)
}

/// A number is written in as many bytes as the width says.
pub proof fn lemma_be_bytes_len(x: nat, width: nat)
    ensures
        be_bytes(x, width).len() == width,
    decreases width,
{
    if width > 0 {
        lemma_be_bytes_len(x / 256, (width - 1) as nat);
    }
}

/// Bytes spell a number below 256 to the power of their count.
pub proof fn lemma_be_value_bound(s: Seq<u8>)
    ensures
        be_value(s) < pow256(s.len()),
    decreases s.len(),
{
    if s.len() > 0 {
        lemma_be_value_bound(s.drop_last());
    }
}

/// Decoding what was encoded gives the number back, if the width holds it.
pub proof fn lemma_be_value_of_bytes(x: nat, width: nat)
    requires
        x < pow256(width),
    ensures
        be_value(be_bytes(x, width)) == x,
    decreases width,
{
    if width > 0 {
        let w = (width - 1) as nat;
        lemma_be_bytes_len(x / 256, w);
        lemma_be_value_of_bytes(x / 256, w);
        let s = be_bytes(x, width);
        assert(s.drop_last() =~= be_bytes(x / 256, w));
    }
}

/// Encoding what was decoded gives the bytes back.
pub proof fn lemma_be_bytes_of_value(s: Seq<u8>)
    ensures
        be_bytes(be_value(s), s.len()) == s,
    decreases s.len(),
{
    if s.len() > 0 {
        lemma_be_bytes_of_value(s.drop_last());
        let v = be_value(s);
        assert(v / 256 == be_value(s.drop_last()));
        assert(v % 256 == s.last() as nat);
        assert(be_bytes(v, s.len()) =~= s);
    } else {
        assert(be_bytes(0, 0) =~= s);
    }
}

/// Among byte strings of one length, the lexicographic order is the order of
/// the numbers they spell.
pub proof fn lemma_be_order(a: Seq<u8>, b: Seq<u8>)
    requires
        a.len() == b.len(),
    ensures
        lex_lt(a, b) <==> be_value(a) < be_value(b),
        a == b <==> be_value(a) == be_value(b),
    decreases a.len(),
{
    if a.len() == 0 {
        assert(a =~= b);
    } else {
        let a1 = a.drop_last();
        let b1 = b.drop_last();
        lemma_be_order(a1, b1);
        lemma_lex_push(a1, b1, a.last(), b.last());
        assert(a =~= a1.push(a.last()));
        assert(b =~= b1.push(b.last()));
    }
}

proof fn lemma_lex_push(a: Seq<u8>, b: Seq<u8>, x: u8, y: u8)
    requires
        a.len() == b.len(),
    ensures
        lex_lt(a.push(x), b.push(y)) <==> lex_lt(a, b) || (a == b && x < y),
    decreases a.len(),
{
    let ax = a.push(x);
    let by = b.push(y);
    if a.len() == 0 {
        assert(a =~= b);
        assert(ax.drop_first() =~= Seq::<u8>::empty());
        assert(by.drop_first() =~= Seq::<u8>::empty());
        assert(ax[0] == x && by[0] == y);
        assert(!lex_lt(ax.drop_first(), by.drop_first()));
        assert(!lex_lt(a, b));
    } else {
        let a1 = a.drop_first();
        let b1 = b.drop_first();
        assert(ax.drop_first() =~= a1.push(x));
        assert(by.drop_first() =~= b1.push(y));
        assert(ax[0] == a[0] && by[0] == b[0]);
        lemma_lex_push(a1, b1, x, y);
        if a[0] == b[0] {
            assert(lex_lt(ax, by) == lex_lt(a1.push(x), b1.push(y)));
            assert(lex_lt(a, b) == lex_lt(a1, b1));
            if a1 == b1 {
                assert(a =~= seq![a[0]] + a1);
                assert(b =~= seq![b[0]] + b1);
            }
        } else {
            assert(lex_lt(ax, by) == (a[0] < b[0]));
            assert(lex_lt(a, b) == (a[0] < b[0]));
        }
    }
}

/// The keys of two ids stand as the ids do: the key of the smaller id comes
/// first, and equal keys belong to equal ids.
pub proof fn lemma_update_key_order(x: u64, y: u64)
    ensures
        update_key_spec(x).len() == 8,
        lex_lt(update_key_spec(x), update_key_spec(y)) <==> x < y,
        update_key_spec(x) == update_key_spec(y) <==> x == y,
        be_value(update_key_spec(x)) == x,
{
    lemma_pow256_8();
    lemma_be_bytes_len(x as nat, 8);
    lemma_be_bytes_len(y as nat, 8);
    lemma_be_value_of_bytes(x as nat, 8);
    lemma_be_value_of_bytes(y as nat, 8);
    lemma_be_order(update_key_spec(x), update_key_spec(y));
}

/// The powers of 256 that the keys use.
pub proof fn lemma_pow256_8()
    ensures
        pow256(8) == 0x1_0000_0000_0000_0000,
        pow256(2) == 0x1_0000,
{
    reveal_with_fuel(pow256, 9);
}

/// Writes `x` in `width` bytes, most significant first.
pub fn encode_be(x: u64, width: usize) -> (r: Vec<u8>)
    requires
        width <= 8,
    ensures
        r@ == be_bytes(x as nat, width as nat),
{
    let mut out: Vec<u8> = Vec::new();
    let mut i: usize = 0;
    while i < width
        invariant
            i <= width,
            out@.len() == i,
        decreases width - i,
    {
        out.push(0u8);
        i = i + 1;
    }
    let mut rest: u64 = x;
    let mut k: usize = width;
    while k > 0
        invariant
            k <= width,
            out@.len() == width,
            be_bytes(x as nat, width as nat) =~= be_bytes(rest as nat, k as nat) + out@.subrange(
                k as int,
                width as int,
            ),
        decreases k,
    {
        let low: u8 = (rest % 256) as u8;
        let ghost before = out@;
        out.set(k - 1, low);
        proof {
            lemma_be_bytes_len(rest as nat / 256, (k - 1) as nat);
            assert(out@.subrange(k as int, width as int) =~= before.subrange(
                k as int,
                width as int,
            ));
            assert(be_bytes(rest as nat, k as nat) + before.subrange(k as int, width as int)
                =~= be_bytes(rest as nat / 256, (k - 1) as nat) + out@.subrange(
                k - 1,
                width as int,
            ));
        }
        rest = rest / 256;
        k = k - 1;
    }
    proof {
        assert(be_bytes(rest as nat, 0) =~= Seq::<u8>::empty());
        assert(out@.subrange(0, width as int) =~= out@);
    }
    out
}

/// Reads the number that at most eight bytes spell, most significant first.
pub fn decode_be(s: &[u8]) -> (r: u64)
    requires
        s@.len() <= 8,
    ensures
        r == be_value(s@),
{
    let mut acc: u64 = 0;
    let mut i: usize = 0;
    while i < s.len()
        invariant
            i <= s@.len() <= 8,
            acc == be_value(s@.subrange(0, i as int)),
        decreases s@.len() - i,
    {
        proof {
            let p = s@.subrange(0, i as int);
            let q = s@.subrange(0, i + 1);
            assert(q.drop_last() =~= p);
            assert(q.last() == s@[i as int]);
            lemma_be_value_bound(q);
            lemma_pow256_mono(q.len(), 8);
            lemma_pow256_8();
        }
        acc = acc * 256 + s[i] as u64;
        i = i + 1;
    }
    proof {
        assert(s@.subrange(0, i as int) =~= s@);
    }
    acc
}

proof fn lemma_pow256_mono(a: nat, b: nat)
    requires
        a <= b,
    ensures
        pow256(a) <= pow256(b),
    decreases b,
{
    if a < b {
        lemma_pow256_mono(a, (b - 1) as nat);
    }
}

/// The key under which update `id` is queued and its result is kept.
pub fn update_key(id: u64) -> (key: Vec<u8>)
    ensures
        key@ == update_key_spec(id),
        key@.len() == 8,
{
    proof {
        lemma_be_bytes_len(id as nat, 8);
    }
    encode_be(id, 8)
}

/// The id that a key of the update trees stands for: `None` for a byte string
/// that is not eight bytes long, and so is no such key.
pub fn update_id_of_key(key: &[u8]) -> (id: Option<u64>)
    ensures
        key@.len() != 8 ==> id is None,
        key@.len() == 8 ==> id == Some(be_value(key@) as u64) && update_key_spec(id.unwrap())
            == key@,
        forall|x: u64| key@ == #[trigger] update_key_spec(x) ==> id == Some(x),
{
    proof {
        assert forall|x: u64| key@ == #[trigger] update_key_spec(x) implies key@.len() == 8
            && be_value(key@) == x by {
            lemma_update_key_order(x, x);
        }
    }
    if key.len() != 8 {
        return None;
    }
    let id = decode_be(key);
    proof {
        lemma_be_bytes_of_value(key@);
    }
    Some(id)
}

} // verus!

//! The wire format that queued updates and their results are written in:
//! integers in eight bytes, most significant first; byte strings and lists
//! behind their length. Each writer has a reader that takes back exactly what
//! was written.

use vstd::prelude::*;
use vstd::slice::slice_subrange;
use crate::keys::{
    be_bytes, be_value, decode_be, encode_be, lemma_be_bytes_len, lemma_be_value_of_bytes,
    lemma_pow256_8,
};

verus! {

/// A reader: from the input and a position in it to the value read and the
/// position behind it, or `None` where no value stands.
pub type Reader<T> = spec_fn(Seq<u8>, int) -> Option<(T, int)>;

/// A writer: from a value to its bytes.
pub type Writer<T> = spec_fn(T) -> Seq<u8>;

/// The bytes of an integer.
pub open spec fn enc_u64(x: u64) -> Seq<u8> {
    be_bytes(x as nat, 8)
}

/// The integer that stands at `pos`.
pub open spec fn dec_u64(s: Seq<u8>, pos: int) -> Option<(u64, int)> {
    if 0 <= pos && pos + 8 <= s.len() {
        Some((be_value(s.subrange(pos, pos + 8)) as u64, pos + 8))
    } else {
        None
    }
}

/// The bytes of a byte string: its length, then its bytes.
pub open spec fn enc_bytes(b: Seq<u8>) -> Seq<u8> {
    enc_u64(b.len() as u64) + b
}

/// The byte string that stands at `pos`.
pub open spec fn dec_bytes(s: Seq<u8>, pos: int) -> Option<(Seq<u8>, int)> {
    match dec_u64(s, pos) {
        Some((n, p)) => if p + n <= s.len() {
            Some((s.subrange(p, p + n), p + n))
        } else {
            None
        },
        None => None,
    }
}

/// The bytes of the items of a list, one after the other.
pub open spec fn enc_items<T>(l: Seq<T>, f: Writer<T>) -> Seq<u8>
    decreases l.len(),
{
    if l.len() == 0 {
        Seq::empty()
    } else {
        enc_items(l.drop_last(), f) + f(l.last())
    }
}

/// The bytes of a list: the number of its items, then the items.
pub open spec fn enc_list<T>(l: Seq<T>, f: Writer<T>) -> Seq<u8> {
    enc_u64(l.len() as u64) + enc_items(l, f)
}

/// The `n` items that stand one after the other from `pos` on.
pub open spec fn dec_items<T>(s: Seq<u8>, pos: int, n: nat, p: Reader<T>) -> Option<(Seq<T>, int)>
    decreases n,
{
    if n == 0 {
        Some((Seq::empty(), pos))
    } else {
        match dec_items(s, pos, (n - 1) as nat, p) {
            Some((init, q)) => match p(s, q) {
                Some((x, r)) => Some((init.push(x), r)),
                None => None,
            },
            None => None,
        }
    }
}

/// The list that stands at `pos`.
pub open spec fn dec_list<T>(s: Seq<u8>, pos: int, p: Reader<T>) -> Option<(Seq<T>, int)> {
    match dec_u64(s, pos) {
        Some((n, q)) => dec_items(s, q, n as nat, p),
        None => None,
    }
}

/// `p` reads back whatever `f` wrote of a value that `ok` accepts, wherever it
/// stands in the input.
pub open spec fn inverts<T>(p: Reader<T>, f: Writer<T>, ok: spec_fn(T) -> bool) -> bool {
    forall|s: Seq<u8>, pos: int, v: T|
        ok(v) && 0 <= pos && pos + f(v).len() <= s.len() && s.subrange(pos, pos + f(v).len())
            == #[trigger] f(v) ==> #[trigger] p(s, pos) == Some((v, pos + f(v).len()))
}

/// Every item of `l` is accepted by `ok`.
pub open spec fn all_ok<T>(l: Seq<T>, ok: spec_fn(T) -> bool) -> bool {
    forall|i: int| 0 <= i < l.len() ==> ok(#[trigger] l[i])
}

/// An integer is written in eight bytes.
pub proof fn lemma_enc_u64_len(x: u64)
    ensures
        enc_u64(x).len() == 8,
{
    lemma_be_bytes_len(x as nat, 8);
}

/// An integer is read back as it was written.
pub proof fn lemma_u64_round_trip(s: Seq<u8>, pos: int, x: u64)
    requires
        0 <= pos,
        pos + 8 <= s.len(),
        s.subrange(pos, pos + 8) == enc_u64(x),
    ensures
        dec_u64(s, pos) == Some((x, pos + 8)),
{
    lemma_pow256_8();
    lemma_be_value_of_bytes(x as nat, 8);
}

/// A byte string is read back as it was written.
pub proof fn lemma_bytes_round_trip(s: Seq<u8>, pos: int, b: Seq<u8>)
    requires
        b.len() <= u64::MAX,
        0 <= pos,
        pos + enc_bytes(b).len() <= s.len(),
        s.subrange(pos, pos + enc_bytes(b).len()) == enc_bytes(b),
    ensures
        dec_bytes(s, pos) == Some((b, pos + enc_bytes(b).len())),
        enc_bytes(b).len() == 8 + b.len(),
{
    let e = enc_bytes(b);
    lemma_enc_u64_len(b.len() as u64);
    assert(s.subrange(pos, pos + 8) =~= e.subrange(0, 8));
    assert(e.subrange(0, 8) =~= enc_u64(b.len() as u64));
    lemma_u64_round_trip(s, pos, b.len() as u64);
    assert(s.subrange(pos + 8, pos + 8 + b.len()) =~= e.subrange(8, e.len() as int));
    assert(e.subrange(8, e.len() as int) =~= b);
}

/// The items of a list are read back as they were written.
pub proof fn lemma_items_round_trip<T>(
    s: Seq<u8>,
    pos: int,
    l: Seq<T>,
    f: Writer<T>,
    p: Reader<T>,
    ok: spec_fn(T) -> bool,
)
    requires
        inverts(p, f, ok),
        all_ok(l, ok),
        0 <= pos,
        pos + enc_items(l, f).len() <= s.len(),
        s.subrange(pos, pos + enc_items(l, f).len()) == enc_items(l, f),
    ensures
        dec_items(s, pos, l.len(), p) == Some((l, pos + enc_items(l, f).len())),
    decreases l.len(),
{
    if l.len() == 0 {
        assert(l =~= Seq::<T>::empty());
    } else {
        let init = l.drop_last();
        let e = enc_items(l, f);
        let ei = enc_items(init, f);
        let el = f(l.last());
        assert(e == ei + el);
        assert(s.subrange(pos, pos + ei.len()) =~= e.subrange(0, ei.len() as int));
        assert(e.subrange(0, ei.len() as int) =~= ei);
        lemma_items_round_trip(s, pos, init, f, p, ok);
        let q = pos + ei.len();
        assert(s.subrange(q, q + el.len()) =~= e.subrange(ei.len() as int, e.len() as int));
        assert(e.subrange(ei.len() as int, e.len() as int) =~= el);
        assert(ok(l[l.len() - 1]));
        assert(p(s, q) == Some((l.last(), q + f(l.last()).len())));
        assert(init.push(l.last()) =~= l);
    }
}

/// A list is read back as it was written.
pub proof fn lemma_list_round_trip<T>(
    s: Seq<u8>,
    pos: int,
    l: Seq<T>,
    f: Writer<T>,
    p: Reader<T>,
    ok: spec_fn(T) -> bool,
)
    requires
        inverts(p, f, ok),
        all_ok(l, ok),
        l.len() <= u64::MAX,
        0 <= pos,
        pos + enc_list(l, f).len() <= s.len(),
        s.subrange(pos, pos + enc_list(l, f).len()) == enc_list(l, f),
    ensures
        dec_list(s, pos, p) == Some((l, pos + enc_list(l, f).len())),
        enc_list(l, f).len() == 8 + enc_items(l, f).len(),
{
    let e = enc_list(l, f);
    let ei = enc_items(l, f);
    lemma_enc_u64_len(l.len() as u64);
    assert(s.subrange(pos, pos + 8) =~= e.subrange(0, 8));
    assert(e.subrange(0, 8) =~= enc_u64(l.len() as u64));
    lemma_u64_round_trip(s, pos, l.len() as u64);
    assert(s.subrange(pos + 8, pos + 8 + ei.len()) =~= e.subrange(8, e.len() as int));
    assert(e.subrange(8, e.len() as int) =~= ei);
    lemma_items_round_trip(s, pos + 8, l, f, p, ok);
}

/// Where fewer items cannot be read, more cannot either.
pub proof fn lemma_dec_items_none<T>(s: Seq<u8>, pos: int, k: nat, n: nat, p: Reader<T>)
    requires
        k <= n,
        dec_items(s, pos, k, p) is None,
    ensures
        dec_items(s, pos, n, p) is None,
    decreases n,
{
    if k < n {
        lemma_dec_items_none(s, pos, k, (n - 1) as nat, p);
    }
}

/// Appends the bytes of `x` to `out`.
pub fn put_u64(out: &mut Vec<u8>, x: u64)
    ensures
        final(out)@ == old(out)@ + enc_u64(x),
{
    let mut b = encode_be(x, 8);
    out.append(&mut b);
}

/// Appends the bytes of the byte string `b` to `out`.
pub fn put_bytes(out: &mut Vec<u8>, b: &[u8])
    ensures
        final(out)@ == old(out)@ + enc_bytes(b@),
{
    put_u64(out, b.len() as u64);
    let ghost mid = out@;
    let mut i: usize = 0;
    while i < b.len()
        invariant
            i <= b@.len(),
            out@ == mid + b@.subrange(0, i as int),
        decreases b@.len() - i,
    {
        out.push(b[i]);
        proof {
            assert(b@.subrange(0, i + 1) =~= b@.subrange(0, i as int).push(b@[i as int]));
            assert(mid + b@.subrange(0, i + 1) =~= (mid + b@.subrange(0, i as int)).push(
                b@[i as int],
            ));
        }
        i = i + 1;
    }
    proof {
        assert(b@.subrange(0, i as int) =~= b@);
        assert(out@ =~= old(out)@ + enc_bytes(b@));
    }
}

/// Reads the integer at `pos`.
pub fn take_u64(s: &[u8], pos: usize) -> (r: Option<(u64, usize)>)
    ensures
        match r {
            Some((x, q)) => dec_u64(s@, pos as int) == Some((x, q as int)),
            None => dec_u64(s@, pos as int) is None,
        },
{
    if s.len() < 8 || pos > s.len() - 8 {
        return None;
    }
    let part = slice_subrange(s, pos, pos + 8);
    let x = decode_be(part);
    Some((x, pos + 8))
}

/// Reads the byte string at `pos`.
pub fn take_bytes(s: &[u8], pos: usize) -> (r: Option<(Vec<u8>, usize)>)
    ensures
        match r {
            Some((b, q)) => dec_bytes(s@, pos as int) == Some((b@, q as int)),
            None => dec_bytes(s@, pos as int) is None,
        },
{
    match take_u64(s, pos) {
        None => None,
        Some((n, p)) => {
            if n > (s.len() - p) as u64 {
                return None;
            }
            let end = p + n as usize;
            let mut out: Vec<u8> = Vec::new();
            let mut i: usize = p;
            while i < end
                invariant
                    p <= i <= end <= s@.len(),
                    out@ == s@.subrange(p as int, i as int),
                decreases end - i,
            {
                out.push(s[i]);
                proof {
                    assert(s@.subrange(p as int, i + 1) =~= s@.subrange(p as int, i as int).push(
                        s@[i as int],
                    ));
                }
                i = i + 1;
            }
            Some((out, end))
        },
    }
}

} // verus!

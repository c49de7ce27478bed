//! Canonical binary encoding shared by every persisted record.
//!
//! Integers are little-endian and fixed-width; byte strings, text and lists
//! carry a 64-bit length prefix. The chain's validity depends bit-for-bit on
//! this encoding, so both directions are specified exactly and the decoder is
//! proved to invert the encoder.

use vstd::prelude::*;
use vstd::utf8::{decode_utf8, encode_utf8, valid_utf8};

verus! {

// ---------------------------------------------------------------------------
// Little-endian integers
// ---------------------------------------------------------------------------

/// The four little-endian bytes of a 32-bit value.
pub open spec fn le32(n: u32) -> Seq<u8> {
    seq![
        (n & 0xff) as u8,
        ((n >> 8) & 0xff) as u8,
        ((n >> 16) & 0xff) as u8,
        ((n >> 24) & 0xff) as u8,
    ]
}

/// The eight little-endian bytes of a 64-bit value.
pub open spec fn le64(n: u64) -> Seq<u8> {
    seq![
        (n & 0xff) as u8,
        ((n >> 8) & 0xff) as u8,
        ((n >> 16) & 0xff) as u8,
        ((n >> 24) & 0xff) as u8,
        ((n >> 32) & 0xff) as u8,
        ((n >> 40) & 0xff) as u8,
        ((n >> 48) & 0xff) as u8,
        ((n >> 56) & 0xff) as u8,
    ]
}

/// The sixteen little-endian bytes of a 128-bit value.
pub open spec fn le128(n: u128) -> Seq<u8> {
    le64((n & 0xffff_ffff_ffff_ffff) as u64) + le64((n >> 64) as u64)
}

/// A signed 32-bit value is encoded as its two's-complement bit pattern.
pub open spec fn enc_i32(n: i32) -> Seq<u8> {
    le32(n as u32)
}

/// Recombine four little-endian bytes.
pub open spec fn u32_of_le(b0: u8, b1: u8, b2: u8, b3: u8) -> u32 {
    (b0 as u32) | ((b1 as u32) << 8) | ((b2 as u32) << 16) | ((b3 as u32) << 24)
}

/// Recombine eight little-endian bytes.
pub open spec fn u64_of_le(s: Seq<u8>) -> u64
    recommends
        s.len() == 8,
{
    (s[0] as u64) | ((s[1] as u64) << 8) | ((s[2] as u64) << 16) | ((s[3] as u64) << 24)
        | ((s[4] as u64) << 32) | ((s[5] as u64) << 40) | ((s[6] as u64) << 48)
        | ((s[7] as u64) << 56)
}

/// Parse a `u32`; consumes four bytes.
#[verifier::opaque]
pub open spec fn parse_u32(data: Seq<u8>) -> Option<(u32, int)> {
    if data.len() >= 4 {
        Some((u32_of_le(data[0], data[1], data[2], data[3]), 4))
    } else {
        None
    }
}

/// Parse a `u64`; consumes eight bytes.
#[verifier::opaque]
pub open spec fn parse_u64(data: Seq<u8>) -> Option<(u64, int)> {
    if data.len() >= 8 {
        Some((u64_of_le(data.take(8)), 8))
    } else {
        None
    }
}

/// Parse a `u128`; consumes sixteen bytes.
#[verifier::opaque]
pub open spec fn parse_u128(data: Seq<u8>) -> Option<(u128, int)> {
    if data.len() >= 16 {
        Some(
            (
                (u64_of_le(data.take(8)) as u128) | ((u64_of_le(
                    data.skip(8).take(8),
                ) as u128) << 64),
                16,
            ),
        )
    } else {
        None
    }
}

/// Parse an `i32`; consumes four bytes.
#[verifier::opaque]
pub open spec fn parse_i32(data: Seq<u8>) -> Option<(i32, int)> {
    match parse_u32(data) {
        Some((n, used)) => Some(((n as i32), used)),
        None => None,
    }
}

pub proof fn lemma_parse_le32(n: u32, rest: Seq<u8>)
    ensures
        parse_u32(le32(n) + rest) == Some((n, 4int)),
{
    reveal(parse_u32);
    let data = le32(n) + rest;
    assert(data[0] == (n & 0xff) as u8);
    assert(data[1] == ((n >> 8) & 0xff) as u8);
    assert(data[2] == ((n >> 16) & 0xff) as u8);
    assert(data[3] == ((n >> 24) & 0xff) as u8);
    assert(u32_of_le(
        (n & 0xff) as u8,
        ((n >> 8) & 0xff) as u8,
        ((n >> 16) & 0xff) as u8,
        ((n >> 24) & 0xff) as u8,
    ) == n) by (bit_vector);
}

pub proof fn lemma_parse_le64(n: u64, rest: Seq<u8>)
    ensures
        parse_u64(le64(n) + rest) == Some((n, 8int)),
{
    reveal(parse_u64);
    let data = le64(n) + rest;
    assert(data.take(8) =~= le64(n));
    assert(u64_of_le(le64(n)) == ((n & 0xff) as u8 as u64) | (((n >> 8) & 0xff) as u8 as u64)
        << 8 | (((n >> 16) & 0xff) as u8 as u64) << 16 | (((n >> 24) & 0xff) as u8 as u64) << 24 | ((
    (n >> 32) & 0xff) as u8 as u64) << 32 | (((n >> 40) & 0xff) as u8 as u64) << 40 | (((n >> 48)
        & 0xff) as u8 as u64) << 48 | (((n >> 56) & 0xff) as u8 as u64) << 56);
    assert(((n & 0xff) as u8 as u64) | (((n >> 8) & 0xff) as u8 as u64) << 8 | (((n >> 16)
        & 0xff) as u8 as u64) << 16 | (((n >> 24) & 0xff) as u8 as u64) << 24 | (((n >> 32)
        & 0xff) as u8 as u64) << 32 | (((n >> 40) & 0xff) as u8 as u64) << 40 | (((n >> 48)
        & 0xff) as u8 as u64) << 48 | (((n >> 56) & 0xff) as u8 as u64) << 56 == n)
        by (bit_vector);
}

pub proof fn lemma_parse_le128(n: u128, rest: Seq<u8>)
    ensures
        parse_u128(le128(n) + rest) == Some((n, 16int)),
{
    reveal(parse_u128);
    reveal(parse_u64);
    let lo = (n & 0xffff_ffff_ffff_ffff) as u64;
    let hi = (n >> 64) as u64;
    let data = le128(n) + rest;
    assert(data.take(8) =~= le64(lo) + Seq::<u8>::empty()) by {
        assert(le128(n) == le64(lo) + le64(hi));
    }
    lemma_parse_le64(lo, Seq::<u8>::empty());
    assert(u64_of_le(data.take(8)) == lo) by {
        assert((le64(lo) + Seq::<u8>::empty()).take(8) =~= data.take(8));
    }
    assert(data.skip(8).take(8) =~= le64(hi) + Seq::<u8>::empty());
    lemma_parse_le64(hi, Seq::<u8>::empty());
    assert(u64_of_le(data.skip(8).take(8)) == hi) by {
        assert((le64(hi) + Seq::<u8>::empty()).take(8) =~= data.skip(8).take(8));
    }
    assert((lo as u128) | ((hi as u128) << 64) == n) by {
        assert(lo == (n & 0xffff_ffff_ffff_ffff) as u64 && hi == (n >> 64) as u64 ==> ((
        n & 0xffff_ffff_ffff_ffff) as u64 as u128) | (((n >> 64) as u64 as u128) << 64) == n)
            by (bit_vector);
    }
}

pub proof fn lemma_parse_enc_i32(n: i32, rest: Seq<u8>)
    ensures
        parse_i32(enc_i32(n) + rest) == Some((n, 4int)),
{
    reveal(parse_i32);
    lemma_parse_le32(n as u32, rest);
    assert(n as u32 as i32 == n) by (bit_vector);
}

// ---------------------------------------------------------------------------
// Executable little-endian writers and readers
// ---------------------------------------------------------------------------

pub fn write_u32(out: &mut Vec<u8>, n: u32)
    ensures
        final(out)@ == old(out)@ + le32(n),
{
    out.push((n & 0xff) as u8);
    out.push(((n >> 8) & 0xff) as u8);
    out.push(((n >> 16) & 0xff) as u8);
    out.push(((n >> 24) & 0xff) as u8);
    assert(out@ =~= old(out)@ + le32(n));
}

pub fn write_u64(out: &mut Vec<u8>, n: u64)
    ensures
        final(out)@ == old(out)@ + le64(n),
{
    out.push((n & 0xff) as u8);
    out.push(((n >> 8) & 0xff) as u8);
    out.push(((n >> 16) & 0xff) as u8);
    out.push(((n >> 24) & 0xff) as u8);
    out.push(((n >> 32) & 0xff) as u8);
    out.push(((n >> 40) & 0xff) as u8);
    out.push(((n >> 48) & 0xff) as u8);
    out.push(((n >> 56) & 0xff) as u8);
    assert(out@ =~= old(out)@ + le64(n));
}

pub fn write_u128(out: &mut Vec<u8>, n: u128)
    ensures
        final(out)@ == old(out)@ + le128(n),
{
    write_u64(out, (n & 0xffff_ffff_ffff_ffff) as u64);
    write_u64(out, (n >> 64) as u64);
    assert(out@ =~= old(out)@ + le128(n));
}

pub fn write_i32(out: &mut Vec<u8>, n: i32)
    ensures
        final(out)@ == old(out)@ + enc_i32(n),
{
    write_u32(out, n as u32);
}

/// Read a `u32` at `pos`; mirrors [`parse_u32`] on the data from `pos` on.
pub fn read_u32(data: &Vec<u8>, pos: usize) -> (r: Option<(u32, usize)>)
    requires
        pos <= data@.len(),
    ensures
        match parse_u32(data@.skip(pos as int)) {
            Some(vp) => r matches Some(x) && x.0 == vp.0 && x.1 as int == pos + vp.1 && pos <= x.1
                && x.1 <= data@.len(),
            None => r is None,
        },
{
    proof {
        reveal(parse_u32);
    }
    if data.len() - pos >= 4 {
        let b0: u8 = data[pos];
        let b1: u8 = data[pos + 1];
        let b2: u8 = data[pos + 2];
        let b3: u8 = data[pos + 3];
        let n: u32 = (b0 as u32) | ((b1 as u32) << 8) | ((b2 as u32) << 16) | ((b3 as u32) << 24);
        assert(data@.skip(pos as int)[0] == b0);
        assert(data@.skip(pos as int)[1] == b1);
        assert(data@.skip(pos as int)[2] == b2);
        assert(data@.skip(pos as int)[3] == b3);
        Some((n, pos + 4))
    } else {
        None
    }
}

/// Read a `u64` at `pos`; mirrors [`parse_u64`].
pub fn read_u64(data: &Vec<u8>, pos: usize) -> (r: Option<(u64, usize)>)
    requires
        pos <= data@.len(),
    ensures
        match parse_u64(data@.skip(pos as int)) {
            Some(vp) => r matches Some(x) && x.0 == vp.0 && x.1 as int == pos + vp.1 && pos <= x.1
                && x.1 <= data@.len(),
            None => r is None,
        },
{
    proof {
        reveal(parse_u64);
    }
    if data.len() - pos >= 8 {
        let mut n: u64 = 0;
        let mut i: usize = 8;
        let b0: u8 = data[pos];
        let b1: u8 = data[pos + 1];
        let b2: u8 = data[pos + 2];
        let b3: u8 = data[pos + 3];
        let b4: u8 = data[pos + 4];
        let b5: u8 = data[pos + 5];
        let b6: u8 = data[pos + 6];
        let b7: u8 = data[pos + 7];
        n = (b0 as u64) | ((b1 as u64) << 8) | ((b2 as u64) << 16) | ((b3 as u64) << 24) | ((
        b4 as u64) << 32) | ((b5 as u64) << 40) | ((b6 as u64) << 48) | ((b7 as u64) << 56);
        let ghost s = data@.skip(pos as int).take(8);
        assert(s[0] == b0 && s[1] == b1 && s[2] == b2 && s[3] == b3 && s[4] == b4 && s[5] == b5
            && s[6] == b6 && s[7] == b7);
        Some((n, pos + 8))
    } else {
        None
    }
}

/// Read a `u128` at `pos`; mirrors [`parse_u128`].
pub fn read_u128(data: &Vec<u8>, pos: usize) -> (r: Option<(u128, usize)>)
    requires
        pos <= data@.len(),
    ensures
        match parse_u128(data@.skip(pos as int)) {
            Some(vp) => r matches Some(x) && x.0 == vp.0 && x.1 as int == pos + vp.1 && pos <= x.1
                && x.1 <= data@.len(),
            None => r is None,
        },
{
    proof {
        reveal(parse_u128);
        reveal(parse_u64);
    }
    if data.len() - pos >= 16 {
        let lo = match read_u64(data, pos) {
            Some(x) => x,
            None => {
                return None;
            },
        };
        let hi = match read_u64(data, lo.1) {
            Some(x) => x,
            None => {
                return None;
            },
        };
        let ghost tail = data@.skip(pos as int);
        assert(data@.skip(pos as int).take(8) =~= tail.take(8));
        assert(data@.skip(pos + 8).take(8) =~= tail.skip(8).take(8));
        Some(((lo.0 as u128) | ((hi.0 as u128) << 64), hi.1))
    } else {
        None
    }
}

// ---------------------------------------------------------------------------
// Length-prefixed byte strings and text
// ---------------------------------------------------------------------------

/// A byte string is its 64-bit length followed by the bytes themselves.
pub open spec fn enc_bytes(b: Seq<u8>) -> Seq<u8> {
    le64(b.len() as u64) + b
}

/// Text is the byte-string encoding of its UTF-8 bytes.
pub open spec fn enc_str(s: Seq<char>) -> Seq<u8> {
    enc_bytes(encode_utf8(s))
}

/// Parse a length-prefixed byte string.
#[verifier::opaque]
pub open spec fn parse_bytes(data: Seq<u8>) -> Option<(Seq<u8>, int)> {
    match parse_u64(data) {
        Some((n, used)) => if used + n <= data.len() {
            Some((data.subrange(used, used + n), used + n))
        } else {
            None
        },
        None => None,
    }
}

/// Parse length-prefixed text; the bytes must be valid UTF-8.
#[verifier::opaque]
pub open spec fn parse_str(data: Seq<u8>) -> Option<(Seq<char>, int)> {
    match parse_bytes(data) {
        Some((b, used)) => if valid_utf8(b) {
            Some((decode_utf8(b), used))
        } else {
            None
        },
        None => None,
    }
}

pub proof fn lemma_parse_enc_bytes(b: Seq<u8>, rest: Seq<u8>)
    requires
        b.len() < 0x1_0000_0000_0000_0000,
    ensures
        parse_bytes(enc_bytes(b) + rest) == Some((b, 8 + b.len() as int)),
{
    reveal(parse_bytes);
    let n = b.len() as u64;
    let data = enc_bytes(b) + rest;
    assert(data =~= le64(n) + (b + rest));
    lemma_parse_le64(n, b + rest);
    assert(data.subrange(8, 8 + b.len() as int) =~= b);
}

pub proof fn lemma_parse_enc_str(s: Seq<char>, rest: Seq<u8>)
    requires
        encode_utf8(s).len() < 0x1_0000_0000_0000_0000,
    ensures
        parse_str(enc_str(s) + rest) == Some((s, 8 + encode_utf8(s).len() as int)),
{
    reveal(parse_str);
    lemma_parse_enc_bytes(encode_utf8(s), rest);
    vstd::utf8::encode_utf8_valid_utf8(s);
    vstd::utf8::encode_utf8_decode_utf8(s);
}

// ---------------------------------------------------------------------------
// Length-prefixed lists, generic in the element encoder
// ---------------------------------------------------------------------------

/// The concatenation of the element encodings, in order.
pub open spec fn enc_list_items<T>(l: Seq<T>, f: spec_fn(T) -> Seq<u8>) -> Seq<u8>
    decreases l.len(),
{
    if l.len() == 0 {
        Seq::<u8>::empty()
    } else {
        f(l[0]) + enc_list_items(l.skip(1), f)
    }
}

/// A list is its 64-bit element count followed by the element encodings.
pub open spec fn enc_list<T>(l: Seq<T>, f: spec_fn(T) -> Seq<u8>) -> Seq<u8> {
    le64(l.len() as u64) + enc_list_items(l, f)
}

/// Parse exactly `n` elements with the element parser `p`.
#[verifier::opaque]
pub open spec fn parse_list_items<T>(
    data: Seq<u8>,
    n: nat,
    p: spec_fn(Seq<u8>) -> Option<(T, int)>,
) -> Option<(Seq<T>, int)>
    decreases n,
{
    if n == 0 {
        Some((Seq::<T>::empty(), 0))
    } else {
        match p(data) {
            Some((v, used)) => match parse_list_items(data.skip(used), (n - 1) as nat, p) {
                Some((l, used2)) => Some((seq![v] + l, used + used2)),
                None => None,
            },
            None => None,
        }
    }
}

/// Parse a count-prefixed list.
#[verifier::opaque]
pub open spec fn parse_list<T>(data: Seq<u8>, p: spec_fn(Seq<u8>) -> Option<(T, int)>) -> Option<
    (Seq<T>, int),
> {
    match parse_u64(data) {
        Some((n, used)) => match parse_list_items(data.skip(used), n as nat, p) {
            Some((l, used2)) => Some((l, used + used2)),
            None => None,
        },
        None => None,
    }
}

pub proof fn lemma_enc_list_items_push<T>(l: Seq<T>, x: T, f: spec_fn(T) -> Seq<u8>)
    ensures
        enc_list_items(l.push(x), f) == enc_list_items(l, f) + f(x),
    decreases l.len(),
{
    if l.len() == 0 {
        assert(l.push(x)[0] == x);
        assert(l.push(x).skip(1) =~= Seq::<T>::empty());
        assert(l =~= Seq::<T>::empty());
        assert(enc_list_items(l.push(x), f) == f(x) + enc_list_items(Seq::<T>::empty(), f));
        assert(enc_list_items(Seq::<T>::empty(), f) == Seq::<u8>::empty());
        assert(f(x) + Seq::<u8>::empty() =~= f(x));
        assert(Seq::<u8>::empty() + f(x) =~= f(x));
    } else {
        assert(l.push(x)[0] == l[0]);
        assert(l.push(x).skip(1) =~= l.skip(1).push(x));
        assert(enc_list_items(l.push(x), f) == f(l[0]) + enc_list_items(l.skip(1).push(x), f));
        lemma_enc_list_items_push(l.skip(1), x, f);
        assert(enc_list_items(l, f) == f(l[0]) + enc_list_items(l.skip(1), f));
        assert(f(l[0]) + (enc_list_items(l.skip(1), f) + f(x)) =~= (f(l[0]) + enc_list_items(
            l.skip(1),
            f,
        )) + f(x));
    }
}

/// An element parser `p` inverts the element encoder `f` on every element of
/// `l`; then parsing `n = l.len()` elements recovers `l` exactly.
pub proof fn lemma_parse_list_items<T>(
    l: Seq<T>,
    rest: Seq<u8>,
    f: spec_fn(T) -> Seq<u8>,
    p: spec_fn(Seq<u8>) -> Option<(T, int)>,
)
    requires
        forall|i: int, r: Seq<u8>|
            0 <= i < l.len() ==> #[trigger] p(f(l[i]) + r) == Some((l[i], f(l[i]).len() as int)),
    ensures
        parse_list_items(enc_list_items(l, f) + rest, l.len(), p) == Some(
            (l, enc_list_items(l, f).len() as int),
        ),
    decreases l.len(),
{
    reveal_with_fuel(parse_list_items, 2);
    if l.len() == 0 {
        assert(parse_list_items(enc_list_items(l, f) + rest, 0, p) == Some(
            (Seq::<T>::empty(), 0int),
        ));
        assert(Seq::<T>::empty() =~= l);
    } else {
        let head = l[0];
        let tail = l.skip(1);
        let data = enc_list_items(l, f) + rest;
        assert(data =~= f(head) + (enc_list_items(tail, f) + rest));
        assert(p(f(head) + (enc_list_items(tail, f) + rest)) == Some(
            (head, f(head).len() as int),
        ));
        assert(data.skip(f(head).len() as int) =~= enc_list_items(tail, f) + rest);
        assert(forall|i: int, r: Seq<u8>|
            0 <= i < tail.len() ==> #[trigger] p(f(tail[i]) + r) == Some(
                (tail[i], f(tail[i]).len() as int),
            )) by {
            assert(forall|i: int| 0 <= i < tail.len() ==> tail[i] == l[i + 1]);
        }
        lemma_parse_list_items(tail, rest, f, p);
        assert(seq![head] + tail =~= l);
    }
}

pub proof fn lemma_parse_enc_list<T>(
    l: Seq<T>,
    rest: Seq<u8>,
    f: spec_fn(T) -> Seq<u8>,
    p: spec_fn(Seq<u8>) -> Option<(T, int)>,
)
    requires
        l.len() < 0x1_0000_0000_0000_0000,
        forall|i: int, r: Seq<u8>|
            0 <= i < l.len() ==> #[trigger] p(f(l[i]) + r) == Some((l[i], f(l[i]).len() as int)),
    ensures
        parse_list(enc_list(l, f) + rest, p) == Some(
            (l, enc_list(l, f).len() as int),
        ),
{
    reveal(parse_list);
    let n = l.len() as u64;
    let data = enc_list(l, f) + rest;
    assert(data =~= le64(n) + (enc_list_items(l, f) + rest));
    lemma_parse_le64(n, enc_list_items(l, f) + rest);
    assert(data.skip(8) =~= enc_list_items(l, f) + rest);
    lemma_parse_list_items(l, rest, f, p);
}

/// Append a copy of `b` to `out`.
pub fn write_raw(out: &mut Vec<u8>, b: &Vec<u8>)
    ensures
        final(out)@ == old(out)@ + b@,
{
    let mut i: usize = 0;
    while i < b.len()
        invariant
            i <= b@.len(),
            out@ == old(out)@ + b@.take(i as int),
        decreases b@.len() - i,
    {
        out.push(b[i]);
        i = i + 1;
        assert(out@ =~= old(out)@ + b@.take(i as int));
    }
    assert(out@ =~= old(out)@ + b@);
}

/// Copy `data[from..to]` into a fresh vector.
pub fn copy_range(data: &Vec<u8>, from: usize, to: usize) -> (r: Vec<u8>)
    requires
        from <= to,
        to <= data@.len(),
    ensures
        r@ == data@.subrange(from as int, to as int),
{
    let mut out: Vec<u8> = Vec::new();
    let mut i: usize = from;
    while i < to
        invariant
            from <= i <= to,
            to <= data@.len(),
            out@ == data@.subrange(from as int, i as int),
        decreases to - i,
    {
        out.push(data[i]);
        i = i + 1;
        assert(out@ =~= data@.subrange(from as int, i as int));
    }
    out
}

pub fn write_bytes(out: &mut Vec<u8>, b: &Vec<u8>)
    ensures
        final(out)@ == old(out)@ + enc_bytes(b@),
{
    write_u64(out, b.len() as u64);
    write_raw(out, b);
    assert(final(out)@ =~= old(out)@ + enc_bytes(b@));
}

pub fn write_str(out: &mut Vec<u8>, s: &String)
    ensures
        final(out)@ == old(out)@ + enc_str(s@),
        encode_utf8(s@).len() < 0x1_0000_0000_0000_0000,
{
    let b = s.as_str().as_bytes_vec();
    proof {
        vstd::std_specs::vec::axiom_spec_len(&b);
    }
    write_bytes(out, &b);
}

/// Relies on `String::from_utf8`: it succeeds exactly on valid UTF-8 input
/// and returns the string those bytes spell.
#[verifier::external_body]
pub(crate) fn utf8_to_string(v: Vec<u8>) -> (r: Option<String>)
    ensures
        r is Some <==> valid_utf8(v@),
        r matches Some(s) ==> encode_utf8(s@) == v@,
{
    String::from_utf8(v).ok()
}

/// Read a length-prefixed byte string at `pos`; mirrors [`parse_bytes`].
pub fn read_bytes(data: &Vec<u8>, pos: usize) -> (r: Option<(Vec<u8>, usize)>)
    requires
        pos <= data@.len(),
    ensures
        match parse_bytes(data@.skip(pos as int)) {
            Some(vp) => r matches Some(x) && x.0@ == vp.0 && x.1 as int == pos + vp.1 && pos <= x.1
                && x.1 <= data@.len(),
            None => r is None,
        },
{
    proof {
        reveal(parse_bytes);
        reveal(parse_u64);
    }
    match read_u64(data, pos) {
        Some((n, p)) => {
            if n <= (data.len() - p) as u64 {
                let nn: usize = n as usize;
                let out = copy_range(data, p, p + nn);
                assert(out@ =~= data@.skip(pos as int).subrange(8, 8 + n as int));
                Some((out, p + nn))
            } else {
                None
            }
        },
        None => None,
    }
}

/// Read length-prefixed text at `pos`; mirrors [`parse_str`].
pub fn read_str(data: &Vec<u8>, pos: usize) -> (r: Option<(String, usize)>)
    requires
        pos <= data@.len(),
    ensures
        match parse_str(data@.skip(pos as int)) {
            Some(vp) => r matches Some(x) && x.0@ == vp.0 && x.1 as int == pos + vp.1 && pos <= x.1
                && x.1 <= data@.len(),
            None => r is None,
        },
{
    proof {
        reveal(parse_str);
    }
    match read_bytes(data, pos) {
        Some((b, p)) => {
            let ghost bs = b@;
            match utf8_to_string(b) {
                Some(s) => {
                    proof {
                        vstd::utf8::encode_utf8_decode_utf8(s@);
                    }
                    Some((s, p))
                },
                None => None,
            }
        },
        None => None,
    }
}

/// Read an `i32` at `pos`; mirrors [`parse_i32`].
pub fn read_i32(data: &Vec<u8>, pos: usize) -> (r: Option<(i32, usize)>)
    requires
        pos <= data@.len(),
    ensures
        match parse_i32(data@.skip(pos as int)) {
            Some(vp) => r matches Some(x) && x.0 == vp.0 && x.1 as int == pos + vp.1 && pos <= x.1
                && x.1 <= data@.len(),
            None => r is None,
        },
{
    proof {
        reveal(parse_i32);
    }
    match read_u32(data, pos) {
        Some((n, end)) => Some((n as i32, end)),
        None => None,
    }
}

/// Concatenation is associative.
pub proof fn lemma_concat_assoc(a: Seq<u8>, b: Seq<u8>, c: Seq<u8>)
    ensures
        (a + b) + c == a + (b + c),
{
    assert((a + b) + c =~= a + (b + c));
}

/// Dropping a leading segment of a concatenation leaves the rest.
pub proof fn lemma_skip_of_concat(a: Seq<u8>, b: Seq<u8>)
    ensures
        (a + b).skip(a.len() as int) == b,
{
    assert((a + b).skip(a.len() as int) =~= b);
}


/// Byte-for-byte equality of two slices.
pub fn slices_eq(a: &[u8], b: &[u8]) -> (r: bool)
    ensures
        r == (a@ == b@),
{
    if a.len() != b.len() {
        return false;
    }
    let mut i: usize = 0;
    while i < a.len()
        invariant
            i <= a@.len(),
            a@.len() == b@.len(),
            forall|j: int| 0 <= j < i ==> a@[j] == b@[j],
        decreases a@.len() - i,
    {
        if a[i] != b[i] {
            return false;
        }
        i = i + 1;
    }
    proof {
        assert(a@ =~= b@);
    }
    true
}

/// A fresh copy of the byte vector.
pub fn clone_bytes(v: &Vec<u8>) -> (r: Vec<u8>)
    ensures
        r@ == v@,
{
    let r = copy_range(v, 0, v.len());
    proof {
        assert(v@.subrange(0, v@.len() as int) =~= v@);
    }
    r
}

/// Character-for-character equality of two strings, via their UTF-8 bytes.
pub fn str_eq(a: &str, b: &str) -> (r: bool)
    ensures
        r == (a@ == b@),
{
    let r = slices_eq(a.as_bytes(), b.as_bytes());
    proof {
        vstd::utf8::encode_utf8_decode_utf8(a@);
        vstd::utf8::encode_utf8_decode_utf8(b@);
    }
    r
}

} // verus!

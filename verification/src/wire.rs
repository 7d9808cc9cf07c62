//! Little-endian field encodings shared by the two file formats.
//!
//! Both formats are tables of fixed-width fields. Every field is read and
//! written byte by byte, least significant byte first, so nothing here
//! depends on how the machine lays values out in memory.
use vstd::prelude::*;

verus! {

/// The unsigned 16-bit value stored at `at`, least significant byte first.
pub open spec fn le16(s: Seq<u8>, at: int) -> int {
    s[at] as int + 256 * (s[at + 1] as int)
}

/// The unsigned 32-bit value stored at `at`, least significant byte first.
pub open spec fn le32(s: Seq<u8>, at: int) -> int {
    s[at] as int + 256 * (s[at + 1] as int) + 65536 * (s[at + 2] as int) + 16777216 * (s[at
        + 3] as int)
}

/// The two's-complement reading of an unsigned 16-bit value.
pub open spec fn signed16(u: int) -> int {
    if u >= 32768 {
        u - 65536
    } else {
        u
    }
}

/// The two's-complement reading of an unsigned 32-bit value.
pub open spec fn signed32(u: int) -> int {
    if u >= 2147483648 {
        u - 4294967296
    } else {
        u
    }
}

/// The unsigned 16-bit value whose two's-complement reading is `i`.
pub open spec fn unsigned16(i: int) -> int {
    if i < 0 {
        i + 65536
    } else {
        i
    }
}

/// The unsigned 32-bit value whose two's-complement reading is `i`.
pub open spec fn unsigned32(i: int) -> int {
    if i < 0 {
        i + 4294967296
    } else {
        i
    }
}

/// The two bytes of an unsigned 16-bit value, least significant first.
#[verifier::opaque]
pub open spec fn bytes16(x: int) -> Seq<u8> {
    seq![(x % 256) as u8, (x / 256 % 256) as u8]
}

/// The four bytes of an unsigned 32-bit value, least significant first.
#[verifier::opaque]
pub open spec fn bytes32(x: int) -> Seq<u8> {
    seq![
        (x % 256) as u8,
        (x / 256 % 256) as u8,
        (x / 256 / 256 % 256) as u8,
        (x / 256 / 256 / 256 % 256) as u8,
    ]
}

/// The bytes of a run of 16-bit values, each least significant byte first.
#[verifier::opaque]
pub open spec fn seq16(w: Seq<u16>) -> Seq<u8> {
    Seq::new(2 * w.len(), |i: int| bytes16(w[i / 2] as int)[i % 2])
}

/// The bytes of a run of 32-bit values, each least significant byte first.
#[verifier::opaque]
pub open spec fn seq32(w: Seq<u32>) -> Seq<u8> {
    Seq::new(4 * w.len(), |i: int| bytes32(w[i / 4] as int)[i % 4])
}

/// The 16-bit values stored back to back from `at` on, `n` of them.
pub open spec fn words16(s: Seq<u8>, at: int, n: nat) -> Seq<u16> {
    Seq::new(n, |i: int| le16(s, at + 2 * i) as u16)
}

/// The 32-bit values stored back to back from `at` on, `n` of them.
pub open spec fn words32(s: Seq<u8>, at: int, n: nat) -> Seq<u32> {
    Seq::new(n, |i: int| le32(s, at + 4 * i) as u32)
}

/// A 16-bit value takes two bytes.
pub broadcast proof fn lemma_bytes16_len(x: int)
    ensures
        #[trigger] bytes16(x).len() == 2,
{
    reveal(bytes16);
}

/// A 32-bit value takes four bytes.
pub broadcast proof fn lemma_bytes32_len(x: int)
    ensures
        #[trigger] bytes32(x).len() == 4,
{
    reveal(bytes32);
}

/// A run of 16-bit values takes two bytes for each.
pub broadcast proof fn lemma_seq16_len(w: Seq<u16>)
    ensures
        #[trigger] seq16(w).len() == 2 * w.len(),
{
    reveal(seq16);
}

/// A run of 32-bit values takes four bytes for each.
pub broadcast proof fn lemma_seq32_len(w: Seq<u32>)
    ensures
        #[trigger] seq32(w).len() == 4 * w.len(),
{
    reveal(seq32);
}

pub broadcast group group_widths {
    lemma_bytes16_len,
    lemma_bytes32_len,
    lemma_seq16_len,
    lemma_seq32_len,
    lemma_names_len,
    lemma_matrix_len,
}

/// Reading back what `bytes16` wrote gives the value; writing what `le16`
/// read gives the bytes.
pub proof fn lemma_le16_inverse(s: Seq<u8>, at: int, x: int)
    ensures
        0 <= x < 65536 ==> le16(bytes16(x), 0) == x,
        0 <= at && at + 2 <= s.len() ==> 0 <= le16(s, at) < 65536 && bytes16(le16(s, at))
            == s.subrange(at, at + 2),
{
    reveal(bytes16);
    if 0 <= at && at + 2 <= s.len() {
        let b0 = s[at] as int;
        let b1 = s[at + 1] as int;
        let v = le16(s, at);
        assert(v == b0 + 256 * b1);
        assert(v % 256 == b0 && v / 256 == b1);
        assert(bytes16(v) =~= s.subrange(at, at + 2));
    }
}

/// Reading back what `bytes32` wrote gives the value; writing what `le32`
/// read gives the bytes.
pub proof fn lemma_le32_inverse(s: Seq<u8>, at: int, x: int)
    ensures
        0 <= x < 4294967296 ==> le32(bytes32(x), 0) == x,
        0 <= at && at + 4 <= s.len() ==> 0 <= le32(s, at) < 4294967296 && bytes32(le32(s, at))
            == s.subrange(at, at + 4),
{
    reveal(bytes32);
    if 0 <= x < 4294967296 {
        let a = x / 256;
        let b = a / 256;
        let c = b / 256;
        assert(x == 256 * a + x % 256);
        assert(a == 256 * b + a % 256);
        assert(b == 256 * c + b % 256);
        assert(0 <= c < 256);
        assert(c % 256 == c);
    }
    if 0 <= at && at + 4 <= s.len() {
        let b0 = s[at] as int;
        let b1 = s[at + 1] as int;
        let b2 = s[at + 2] as int;
        let b3 = s[at + 3] as int;
        let v = le32(s, at);
        let k2 = b2 + 256 * b3;
        let k1 = b1 + 256 * k2;
        assert(v == b0 + 256 * k1);
        assert(v % 256 == b0 && v / 256 == k1);
        assert(k1 % 256 == b1 && k1 / 256 == k2);
        assert(k2 % 256 == b2 && k2 / 256 == b3);
        assert(b3 % 256 == b3);
        assert(bytes32(v) =~= s.subrange(at, at + 4));
    }
}

/// Every value of a run of 16-bit values can be read back from its bytes.
pub proof fn lemma_seq16_words(w: Seq<u16>)
    ensures
        seq16(w).len() == 2 * w.len(),
        words16(seq16(w), 0, w.len()) == w,
{
    reveal(seq16);
    assert forall|i: int| 0 <= i < w.len() implies le16(seq16(w), 2 * i) as u16 == w[i] by {
        let x = w[i] as int;
        assert((2 * i) / 2 == i && (2 * i + 1) / 2 == i);
        assert((2 * i) % 2 == 0 && (2 * i + 1) % 2 == 1);
        assert(seq16(w)[2 * i] == bytes16(x)[0]);
        assert(seq16(w)[2 * i + 1] == bytes16(x)[1]);
        lemma_le16_inverse(bytes16(x), 0, x);
    }
    assert(words16(seq16(w), 0, w.len()) =~= w);
}

/// Every value of a run of 32-bit values can be read back from its bytes.
pub proof fn lemma_seq32_words(w: Seq<u32>)
    ensures
        seq32(w).len() == 4 * w.len(),
        words32(seq32(w), 0, w.len()) == w,
{
    reveal(seq32);
    assert forall|i: int| 0 <= i < w.len() implies le32(seq32(w), 4 * i) as u32 == w[i] by {
        let x = w[i] as int;
        assert((4 * i) / 4 == i && (4 * i + 1) / 4 == i && (4 * i + 2) / 4 == i && (4 * i + 3) / 4
            == i);
        assert((4 * i) % 4 == 0 && (4 * i + 1) % 4 == 1 && (4 * i + 2) % 4 == 2 && (4 * i + 3) % 4
            == 3);
        assert(seq32(w)[4 * i] == bytes32(x)[0]);
        assert(seq32(w)[4 * i + 1] == bytes32(x)[1]);
        assert(seq32(w)[4 * i + 2] == bytes32(x)[2]);
        assert(seq32(w)[4 * i + 3] == bytes32(x)[3]);
        lemma_le32_inverse(bytes32(x), 0, x);
    }
    assert(words32(seq32(w), 0, w.len()) =~= w);
}

/// Values with the same bytes are the same values.
pub proof fn lemma_same_bytes(x: int, y: int)
    ensures
        0 <= x < 65536 && 0 <= y < 65536 && bytes16(x) == bytes16(y) ==> x == y,
        0 <= x < 4294967296 && 0 <= y < 4294967296 && bytes32(x) == bytes32(y) ==> x == y,
{
    lemma_le16_inverse(Seq::empty(), 0, x);
    lemma_le16_inverse(Seq::empty(), 0, y);
    lemma_le32_inverse(Seq::empty(), 0, x);
    lemma_le32_inverse(Seq::empty(), 0, y);
}

/// Runs with the same bytes are the same runs.
pub proof fn lemma_same_runs(a: Seq<u16>, b: Seq<u16>, c: Seq<u32>, d: Seq<u32>)
    ensures
        seq16(a) == seq16(b) ==> a == b,
        seq32(c) == seq32(d) ==> c == d,
{
    lemma_seq16_words(a);
    lemma_seq16_words(b);
    lemma_seq32_words(c);
    lemma_seq32_words(d);
}

/// Appending a value to a run appends its bytes.
pub proof fn lemma_seq16_push(w: Seq<u16>, x: u16)
    ensures
        seq16(w.push(x)) == seq16(w) + bytes16(x as int),
{
    reveal(seq16);
    reveal(bytes16);
    let a = seq16(w.push(x));
    let b = seq16(w) + bytes16(x as int);
    assert forall|k: int| 0 <= k < a.len() implies a[k] == b[k] by {
        if k < 2 * w.len() {
            assert(w.push(x)[k / 2] == w[k / 2]);
        } else {
            assert(k / 2 == w.len() && k % 2 == k - 2 * w.len());
        }
    }
    assert(a =~= b);
}

/// Appending a value to a run appends its bytes.
pub proof fn lemma_seq32_push(w: Seq<u32>, x: u32)
    ensures
        seq32(w.push(x)) == seq32(w) + bytes32(x as int),
{
    reveal(seq32);
    reveal(bytes32);
    let a = seq32(w.push(x));
    let b = seq32(w) + bytes32(x as int);
    assert forall|k: int| 0 <= k < a.len() implies a[k] == b[k] by {
        if k < 4 * w.len() {
            assert(w.push(x)[k / 4] == w[k / 4]);
        } else {
            assert(k / 4 == w.len() && k % 4 == k - 4 * w.len());
        }
    }
    assert(a =~= b);
}

/// A run whose values are those stored from `at` on has the bytes stored
/// there.
pub proof fn lemma_seq16_located(w: Seq<u16>, s: Seq<u8>, at: int)
    requires
        0 <= at,
        at + 2 * w.len() <= s.len(),
        forall|j: int| 0 <= j < w.len() ==> w[j] == le16(s, at + 2 * j),
    ensures
        seq16(w) == s.subrange(at, at + 2 * w.len()),
{
    reveal(seq16);
    assert forall|k: int| 0 <= k < 2 * w.len() implies seq16(w)[k] == s[at + k] by {
        lemma_le16_inverse(s, at + 2 * (k / 2), 0);
        assert(s.subrange(at + 2 * (k / 2), at + 2 * (k / 2) + 2)[k % 2] == s[at + k]);
    }
    assert(seq16(w) =~= s.subrange(at, at + 2 * w.len()));
}

/// A run whose values are those stored from `at` on has the bytes stored
/// there.
pub proof fn lemma_seq32_located(w: Seq<u32>, s: Seq<u8>, at: int)
    requires
        0 <= at,
        at + 4 * w.len() <= s.len(),
        forall|j: int| 0 <= j < w.len() ==> w[j] == le32(s, at + 4 * j),
    ensures
        seq32(w) == s.subrange(at, at + 4 * w.len()),
{
    reveal(seq32);
    assert forall|k: int| 0 <= k < 4 * w.len() implies seq32(w)[k] == s[at + k] by {
        lemma_le32_inverse(s, at + 4 * (k / 4), 0);
        assert(s.subrange(at + 4 * (k / 4), at + 4 * (k / 4) + 4)[k % 4] == s[at + k]);
    }
    assert(seq32(w) =~= s.subrange(at, at + 4 * w.len()));
}

pub(crate) fn get_u16(bytes: &[u8], at: usize) -> (r: u16)
    requires
        at + 2 <= bytes.len(),
    ensures
        r == le16(bytes@, at as int),
        bytes16(r as int) == bytes@.subrange(at as int, at + 2),
{
    proof {
        lemma_le16_inverse(bytes@, at as int, 0);
    }
    bytes[at] as u16 + 256 * (bytes[at + 1] as u16)
}

pub(crate) fn get_u32(bytes: &[u8], at: usize) -> (r: u32)
    requires
        at + 4 <= bytes.len(),
    ensures
        r == le32(bytes@, at as int),
        bytes32(r as int) == bytes@.subrange(at as int, at + 4),
{
    proof {
        lemma_le32_inverse(bytes@, at as int, 0);
    }
    bytes[at] as u32 + 256 * (bytes[at + 1] as u32) + 65536 * (bytes[at + 2] as u32) + 16777216 * (
    bytes[at + 3] as u32)
}

pub(crate) fn get_i16(bytes: &[u8], at: usize) -> (r: i16)
    requires
        at + 2 <= bytes.len(),
    ensures
        r == signed16(le16(bytes@, at as int)),
        bytes16(unsigned16(r as int)) == bytes@.subrange(at as int, at + 2),
{
    let u: u16 = get_u16(bytes, at);
    if u >= 32768 {
        (u as i32 - 65536) as i16
    } else {
        u as i16
    }
}

pub(crate) fn get_i32(bytes: &[u8], at: usize) -> (r: i32)
    requires
        at + 4 <= bytes.len(),
    ensures
        r == signed32(le32(bytes@, at as int)),
        bytes32(unsigned32(r as int)) == bytes@.subrange(at as int, at + 4),
{
    let u: u32 = get_u32(bytes, at);
    if u >= 2147483648 {
        (u as i64 - 4294967296) as i32
    } else {
        u as i32
    }
}

pub(crate) fn get_bytes<const N: usize>(bytes: &[u8], at: usize) -> (r: [u8; N])
    requires
        at + N <= bytes.len(),
    ensures
        r@ == bytes@.subrange(at as int, at + N),
{
    let mut r: [u8; N] = [0u8; N];
    let mut i: usize = 0;
    while i < N
        invariant
            i <= N,
            at + N <= bytes.len(),
            forall|j: int| 0 <= j < i ==> r@[j] == bytes@[at + j],
        decreases N - i,
    {
        r[i] = bytes[at + i];
        i += 1;
    }
    assert(r@ =~= bytes@.subrange(at as int, at + N));
    r
}

pub(crate) fn get_u16s<const N: usize>(bytes: &[u8], at: usize) -> (r: [u16; N])
    requires
        at + 2 * N <= bytes.len(),
    ensures
        forall|j: int| 0 <= j < N ==> r@[j] == le16(bytes@, at + 2 * j),
        seq16(r@) == bytes@.subrange(at as int, at + 2 * N),
{
    let mut r: [u16; N] = [0u16; N];
    let mut i: usize = 0;
    while i < N
        invariant
            i <= N,
            at + 2 * N <= bytes.len(),
            forall|j: int| 0 <= j < i ==> r@[j] == le16(bytes@, at + 2 * j),
        decreases N - i,
    {
        let w: u16 = get_u16(bytes, at + 2 * i);
        r[i] = w;
        i += 1;
    }
    proof {
        lemma_seq16_located(r@, bytes@, at as int);
    }
    r
}

pub(crate) fn get_u32s<const N: usize>(bytes: &[u8], at: usize) -> (r: [u32; N])
    requires
        at + 4 * N <= bytes.len(),
    ensures
        forall|j: int| 0 <= j < N ==> r@[j] == le32(bytes@, at + 4 * j),
        seq32(r@) == bytes@.subrange(at as int, at + 4 * N),
{
    let mut r: [u32; N] = [0u32; N];
    let mut i: usize = 0;
    while i < N
        invariant
            i <= N,
            at + 4 * N <= bytes.len(),
            forall|j: int| 0 <= j < i ==> r@[j] == le32(bytes@, at + 4 * j),
        decreases N - i,
    {
        let w: u32 = get_u32(bytes, at + 4 * i);
        r[i] = w;
        i += 1;
    }
    proof {
        lemma_seq32_located(r@, bytes@, at as int);
    }
    r
}

pub(crate) fn put_u16(out: &mut Vec<u8>, x: u16)
    ensures
        final(out)@ == old(out)@ + bytes16(x as int),
{
    proof {
        reveal(bytes16);
    }
    out.push((x % 256) as u8);
    out.push((x / 256) as u8);
    assert(out@ =~= old(out)@ + bytes16(x as int));
}

pub(crate) fn put_u32(out: &mut Vec<u8>, x: u32)
    ensures
        final(out)@ == old(out)@ + bytes32(x as int),
{
    proof {
        reveal(bytes32);
    }
    out.push((x % 256) as u8);
    out.push((x / 256 % 256) as u8);
    out.push((x / 256 / 256 % 256) as u8);
    out.push((x / 256 / 256 / 256) as u8);
    assert(out@ =~= old(out)@ + bytes32(x as int));
}

pub(crate) fn put_i16(out: &mut Vec<u8>, x: i16)
    ensures
        final(out)@ == old(out)@ + bytes16(unsigned16(x as int)),
{
    let u: u16 = if x < 0 {
        (x as i32 + 65536) as u16
    } else {
        x as u16
    };
    put_u16(out, u);
}

pub(crate) fn put_i32(out: &mut Vec<u8>, x: i32)
    ensures
        final(out)@ == old(out)@ + bytes32(unsigned32(x as int)),
{
    let u: u32 = if x < 0 {
        (x as i64 + 4294967296) as u32
    } else {
        x as u32
    };
    put_u32(out, u);
}

pub(crate) fn put_bytes<const N: usize>(out: &mut Vec<u8>, a: &[u8; N])
    ensures
        final(out)@ == old(out)@ + a@,
{
    let mut i: usize = 0;
    while i < N
        invariant
            i <= N,
            out@ == old(out)@ + a@.subrange(0, i as int),
        decreases N - i,
    {
        out.push(a[i]);
        i += 1;
        assert(out@ =~= old(out)@ + a@.subrange(0, i as int));
    }
    assert(a@.subrange(0, N as int) =~= a@);
}

pub(crate) fn put_u16s<const N: usize>(out: &mut Vec<u8>, a: &[u16; N])
    ensures
        final(out)@ == old(out)@ + seq16(a@),
{
    let mut i: usize = 0;
    proof {
        broadcast use lemma_seq16_len;
        assert(out@ =~= old(out)@ + seq16(a@.subrange(0, 0)));
    }
    while i < N
        invariant
            i <= N,
            out@ == old(out)@ + seq16(a@.subrange(0, i as int)),
        decreases N - i,
    {
        put_u16(out, a[i]);
        i += 1;
        proof {
            let lo = a@.subrange(0, i - 1);
            assert(a@.subrange(0, i as int) =~= lo.push(a@[i - 1]));
            lemma_seq16_push(lo, a@[i - 1]);
        }
    }
    assert(a@.subrange(0, N as int) =~= a@);
}

pub(crate) fn put_u32s<const N: usize>(out: &mut Vec<u8>, a: &[u32; N])
    ensures
        final(out)@ == old(out)@ + seq32(a@),
{
    let mut i: usize = 0;
    proof {
        broadcast use lemma_seq32_len;
        assert(out@ =~= old(out)@ + seq32(a@.subrange(0, 0)));
    }
    while i < N
        invariant
            i <= N,
            out@ == old(out)@ + seq32(a@.subrange(0, i as int)),
        decreases N - i,
    {
        put_u32(out, a[i]);
        i += 1;
        proof {
            let lo = a@.subrange(0, i - 1);
            assert(a@.subrange(0, i as int) =~= lo.push(a@[i - 1]));
            lemma_seq32_push(lo, a@[i - 1]);
        }
    }
    assert(a@.subrange(0, N as int) =~= a@);
}

/// Two equal strings that end in parts of equal length agree part by part.
pub proof fn lemma_split(a: Seq<u8>, b: Seq<u8>, c: Seq<u8>, d: Seq<u8>)
    requires
        a + b == c + d,
        b.len() == d.len(),
    ensures
        a == c,
        b == d,
{
    let n = a.len() as int;
    assert(a.len() + b.len() == (a + b).len());
    assert(c.len() + d.len() == (c + d).len());
    assert(a =~= (a + b).subrange(0, n));
    assert(c =~= (c + d).subrange(0, n));
    assert(b =~= (a + b).subrange(n, n + b.len()));
    assert(d =~= (c + d).subrange(n, n + d.len()));
}

/// Two neighbouring stretches of a string make up the stretch that spans
/// them.
pub proof fn lemma_join(s: Seq<u8>, a: int, b: int, c: int)
    requires
        0 <= a <= b <= c <= s.len(),
    ensures
        s.subrange(a, b) + s.subrange(b, c) == s.subrange(a, c),
{
    assert(s.subrange(a, b) + s.subrange(b, c) =~= s.subrange(a, c));
}

/// The bytes of a table of 10-byte names, name by name.
#[verifier::opaque]
pub open spec fn names_bytes(m: Seq<[u8; 10]>) -> Seq<u8> {
    Seq::new(10 * m.len(), |i: int| m[i / 10]@[i % 10])
}

/// The bytes of a matrix of 32-bit values with four columns, row by row.
#[verifier::opaque]
pub open spec fn matrix_bytes(m: Seq<[u32; 4]>) -> Seq<u8> {
    Seq::new(16 * m.len(), |i: int| seq32(m[i / 16]@)[i % 16])
}

/// A table of names takes ten bytes for each.
pub broadcast proof fn lemma_names_len(m: Seq<[u8; 10]>)
    ensures
        #[trigger] names_bytes(m).len() == 10 * m.len(),
{
    reveal(names_bytes);
}

/// A matrix takes sixteen bytes for each row.
pub broadcast proof fn lemma_matrix_len(m: Seq<[u32; 4]>)
    ensures
        #[trigger] matrix_bytes(m).len() == 16 * m.len(),
{
    reveal(matrix_bytes);
}

/// Appending a name to a table appends its bytes.
pub proof fn lemma_names_push(m: Seq<[u8; 10]>, r: [u8; 10])
    ensures
        names_bytes(m.push(r)) == names_bytes(m) + r@,
{
    reveal(names_bytes);
    let a = names_bytes(m.push(r));
    let b = names_bytes(m) + r@;
    assert forall|k: int| 0 <= k < a.len() implies a[k] == b[k] by {
        if k < 10 * m.len() {
            assert(m.push(r)[k / 10] == m[k / 10]);
        } else {
            assert(k / 10 == m.len() && k % 10 == k - 10 * m.len());
        }
    }
    assert(a =~= b);
}

/// Appending a row to a matrix appends its bytes.
pub proof fn lemma_matrix_push(m: Seq<[u32; 4]>, r: [u32; 4])
    ensures
        matrix_bytes(m.push(r)) == matrix_bytes(m) + seq32(r@),
{
    broadcast use lemma_seq32_len;
    reveal(matrix_bytes);
    let a = matrix_bytes(m.push(r));
    let b = matrix_bytes(m) + seq32(r@);
    assert forall|k: int| 0 <= k < a.len() implies a[k] == b[k] by {
        if k < 16 * m.len() {
            assert(m.push(r)[k / 16] == m[k / 16]);
        } else {
            assert(k / 16 == m.len() && k % 16 == k - 16 * m.len());
        }
    }
    assert(a =~= b);
}

/// A table whose names are those stored from `at` on has the bytes stored
/// there.
pub proof fn lemma_names_located(m: Seq<[u8; 10]>, s: Seq<u8>, at: int)
    requires
        0 <= at,
        at + 10 * m.len() <= s.len(),
        forall|j: int| 0 <= j < m.len() ==> (#[trigger] m[j])@ == s.subrange(
            at + 10 * j,
            at + 10 * j + 10,
        ),
    ensures
        names_bytes(m) == s.subrange(at, at + 10 * m.len()),
{
    reveal(names_bytes);
    assert forall|k: int| 0 <= k < 10 * m.len() implies names_bytes(m)[k] == s[at + k] by {
        let j = k / 10;
        assert(m[j]@[k % 10] == s.subrange(at + 10 * j, at + 10 * j + 10)[k % 10]);
    }
    assert(names_bytes(m) =~= s.subrange(at, at + 10 * m.len()));
}

/// A matrix whose rows are those stored from `at` on has the bytes stored
/// there.
pub proof fn lemma_matrix_located(m: Seq<[u32; 4]>, s: Seq<u8>, at: int)
    requires
        0 <= at,
        at + 16 * m.len() <= s.len(),
        forall|j: int| 0 <= j < m.len() ==> seq32((#[trigger] m[j])@) == s.subrange(at + 16 * j, at
            + 16 * j + 16),
    ensures
        matrix_bytes(m) == s.subrange(at, at + 16 * m.len()),
{
    broadcast use lemma_seq32_len;
    reveal(matrix_bytes);
    assert forall|k: int| 0 <= k < 16 * m.len() implies matrix_bytes(m)[k] == s[at + k] by {
        let j = k / 16;
        assert(seq32(m[j]@)[k % 16] == s.subrange(at + 16 * j, at + 16 * j + 16)[k % 16]);
    }
    assert(matrix_bytes(m) =~= s.subrange(at, at + 16 * m.len()));
}

/// Tables with the same bytes are the same tables.
pub proof fn lemma_same_names(a: Seq<[u8; 10]>, b: Seq<[u8; 10]>)
    requires
        names_bytes(a) == names_bytes(b),
    ensures
        a.len() == b.len(),
        forall|j: int| 0 <= j < a.len() ==> a[j] == b[j],
{
    reveal(names_bytes);
    assert(names_bytes(a).len() == 10 * a.len());
    assert(names_bytes(b).len() == 10 * b.len());
    assert forall|j: int| 0 <= j < a.len() implies a[j] == b[j] by {
        assert forall|i: int| 0 <= i < 10 implies a[j]@[i] == b[j]@[i] by {
            let k = 10 * j + i;
            assert(k / 10 == j && k % 10 == i);
            assert(names_bytes(a)[k] == a[j]@[i]);
            assert(names_bytes(b)[k] == b[j]@[i]);
        }
        assert(a[j] =~= b[j]);
    }
}

/// Matrices with the same bytes are the same matrices.
pub proof fn lemma_same_matrix(a: Seq<[u32; 4]>, b: Seq<[u32; 4]>)
    requires
        matrix_bytes(a) == matrix_bytes(b),
    ensures
        a.len() == b.len(),
        forall|j: int| 0 <= j < a.len() ==> a[j] == b[j],
{
    broadcast use lemma_seq32_len;
    reveal(matrix_bytes);
    assert(matrix_bytes(a).len() == 16 * a.len());
    assert(matrix_bytes(b).len() == 16 * b.len());
    assert forall|j: int| 0 <= j < a.len() implies a[j] == b[j] by {
        assert forall|i: int| 0 <= i < 16 implies seq32(a[j]@)[i] == seq32(b[j]@)[i] by {
            let k = 16 * j + i;
            assert(k / 16 == j && k % 16 == i);
            assert(matrix_bytes(a)[k] == seq32(a[j]@)[i]);
            assert(matrix_bytes(b)[k] == seq32(b[j]@)[i]);
        }
        assert(seq32(a[j]@) =~= seq32(b[j]@));
        lemma_same_runs(Seq::empty(), Seq::empty(), a[j]@, b[j]@);
        assert(a[j] =~= b[j]);
    }
}

pub(crate) fn get_names(bytes: &[u8], at: usize) -> (r: [[u8; 10]; 20])
    requires
        at + 200 <= bytes.len(),
    ensures
        names_bytes(r@) == bytes@.subrange(at as int, at + 200),
{
    let mut r: [[u8; 10]; 20] = [[0u8; 10]; 20];
    let mut i: usize = 0;
    while i < 20
        invariant
            i <= 20,
            at + 200 <= bytes.len(),
            forall|j: int| 0 <= j < i ==> (#[trigger] r@[j])@ == bytes@.subrange(at + 10 * j, at
                + 10 * j + 10),
        decreases 20 - i,
    {
        let row: [u8; 10] = get_bytes::<10>(bytes, at + 10 * i);
        r[i] = row;
        i += 1;
    }
    proof {
        lemma_names_located(r@, bytes@, at as int);
    }
    r
}

pub(crate) fn get_matrix(bytes: &[u8], at: usize) -> (r: [[u32; 4]; 4])
    requires
        at + 64 <= bytes.len(),
    ensures
        matrix_bytes(r@) == bytes@.subrange(at as int, at + 64),
{
    let mut r: [[u32; 4]; 4] = [[0u32; 4]; 4];
    let mut i: usize = 0;
    while i < 4
        invariant
            i <= 4,
            at + 64 <= bytes.len(),
            forall|j: int| 0 <= j < i ==> seq32((#[trigger] r@[j])@) == bytes@.subrange(at + 16 * j,
                at + 16 * j + 16),
        decreases 4 - i,
    {
        let row: [u32; 4] = get_u32s::<4>(bytes, at + 16 * i);
        r[i] = row;
        i += 1;
    }
    proof {
        lemma_matrix_located(r@, bytes@, at as int);
    }
    r
}

pub(crate) fn put_names(out: &mut Vec<u8>, a: &[[u8; 10]; 20])
    ensures
        final(out)@ == old(out)@ + names_bytes(a@),
{
    let mut i: usize = 0;
    proof {
        broadcast use lemma_names_len;
        assert(out@ =~= old(out)@ + names_bytes(a@.subrange(0, 0)));
    }
    while i < 20
        invariant
            i <= 20,
            out@ == old(out)@ + names_bytes(a@.subrange(0, i as int)),
        decreases 20 - i,
    {
        put_bytes(out, &a[i]);
        i += 1;
        proof {
            let lo = a@.subrange(0, i - 1);
            assert(a@.subrange(0, i as int) =~= lo.push(a@[i - 1]));
            lemma_names_push(lo, a@[i - 1]);
        }
    }
    assert(a@.subrange(0, 20) =~= a@);
}

pub(crate) fn put_matrix(out: &mut Vec<u8>, a: &[[u32; 4]; 4])
    ensures
        final(out)@ == old(out)@ + matrix_bytes(a@),
{
    let mut i: usize = 0;
    proof {
        broadcast use lemma_matrix_len;
        assert(out@ =~= old(out)@ + matrix_bytes(a@.subrange(0, 0)));
    }
    while i < 4
        invariant
            i <= 4,
            out@ == old(out)@ + matrix_bytes(a@.subrange(0, i as int)),
        decreases 4 - i,
    {
        put_u32s(out, &a[i]);
        i += 1;
        proof {
            let lo = a@.subrange(0, i - 1);
            assert(a@.subrange(0, i as int) =~= lo.push(a@[i - 1]));
            lemma_matrix_push(lo, a@[i - 1]);
        }
    }
    assert(a@.subrange(0, 4) =~= a@);
}

} // verus!

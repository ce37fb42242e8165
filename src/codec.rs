use vstd::prelude::*;

use crate::error::KissdbError;

verus! {

/// The little-endian encoding of a `u64`.
pub open spec fn le_bytes(v: u64) -> Seq<u8> {
    seq![
        v as u8,
        (v >> 8u64) as u8,
        (v >> 16u64) as u8,
        (v >> 24u64) as u8,
        (v >> 32u64) as u8,
        (v >> 40u64) as u8,
        (v >> 48u64) as u8,
        (v >> 56u64) as u8,
    ]
}

/// The `u64` that eight bytes encode in little-endian order.
pub open spec fn le_value(s: Seq<u8>) -> u64 {
    (s[0] as u64) | ((s[1] as u64) << 8u64) | ((s[2] as u64) << 16u64) | ((s[3] as u64) << 24u64)
        | ((s[4] as u64) << 32u64) | ((s[5] as u64) << 40u64) | ((s[6] as u64) << 48u64) | ((
    s[7] as u64) << 56u64)
}

/// The eight bytes at `off` read as a little-endian `u64`.
pub open spec fn u64_at(d: Seq<u8>, off: int) -> u64 {
    le_value(d.subrange(off, off + 8))
}

/// The concatenated little-endian encodings of a sequence of `u64`s.
pub open spec fn words_bytes(s: Seq<u64>) -> Seq<u8>
    decreases s.len(),
{
    if s.len() == 0 {
        Seq::empty()
    } else {
        words_bytes(s.drop_last()) + le_bytes(s.last())
    }
}

/// The `n` words stored little-endian from offset `off`.
pub open spec fn words_at(d: Seq<u8>, off: int, n: nat) -> Seq<u64> {
    Seq::new(n, |j: int| u64_at(d, off + 8 * j))
}

/// The byte sequence `d` after writing `b` at offset `off`; the sequence grows where
/// the write runs past its end.
pub open spec fn written(d: Seq<u8>, off: int, b: Seq<u8>) -> Seq<u8> {
    let n = if off + b.len() > d.len() {
        off + b.len()
    } else {
        d.len() as int
    };
    Seq::new(n as nat, |i: int| if off <= i < off + b.len() { b[i - off] } else { d[i] })
}

pub proof fn lemma_written(d: Seq<u8>, off: int, b: Seq<u8>)
    requires
        0 <= off <= d.len(),
    ensures
        written(d, off, b).len() == if off + b.len() > d.len() {
            off + b.len()
        } else {
            d.len() as int
        },
        written(d, off, b).subrange(off, off + b.len()) == b,
        forall|a: int, e: int|
            0 <= a <= e <= d.len() && (e <= off || off + b.len() <= a) ==> #[trigger] written(
                d,
                off,
                b,
            ).subrange(a, e) == d.subrange(a, e),
{
    assert(written(d, off, b).subrange(off, off + b.len()) =~= b);
    assert forall|a: int, e: int|
        0 <= a <= e <= d.len() && (e <= off || off + b.len() <= a) implies #[trigger] written(
            d,
            off,
            b,
        ).subrange(a, e) == d.subrange(a, e) by {
        assert(written(d, off, b).subrange(a, e) =~= d.subrange(a, e));
    }
}

pub proof fn lemma_value_of_bytes(v: u64)
    ensures
        le_value(le_bytes(v)) == v,
{
    let b = le_bytes(v);
    assert(((v as u8) as u64) | ((((v >> 8u64) as u8) as u64) << 8u64) | ((((v >> 16u64) as u8) as u64)
        << 16u64) | ((((v >> 24u64) as u8) as u64) << 24u64) | ((((v >> 32u64) as u8) as u64)
        << 32u64) | ((((v >> 40u64) as u8) as u64) << 40u64) | ((((v >> 48u64) as u8) as u64)
        << 48u64) | ((((v >> 56u64) as u8) as u64) << 56u64) == v) by (bit_vector);
}

pub proof fn lemma_bytes_of_value(s: Seq<u8>)
    requires
        s.len() == 8,
    ensures
        le_bytes(le_value(s)) == s,
{
    let (b0, b1, b2, b3, b4, b5, b6, b7) = (s[0], s[1], s[2], s[3], s[4], s[5], s[6], s[7]);
    let v = le_value(s);
    assert(v == (b0 as u64) | ((b1 as u64) << 8u64) | ((b2 as u64) << 16u64) | ((b3 as u64)
        << 24u64) | ((b4 as u64) << 32u64) | ((b5 as u64) << 40u64) | ((b6 as u64) << 48u64) | ((
    b7 as u64) << 56u64));
    assert(v as u8 == b0 && (v >> 8u64) as u8 == b1 && (v >> 16u64) as u8 == b2 && (v >> 24u64) as u8
        == b3 && (v >> 32u64) as u8 == b4 && (v >> 40u64) as u8 == b5 && (v >> 48u64) as u8 == b6
        && (v >> 56u64) as u8 == b7) by (bit_vector)
        requires
            v == (b0 as u64) | ((b1 as u64) << 8u64) | ((b2 as u64) << 16u64) | ((b3 as u64)
                << 24u64) | ((b4 as u64) << 32u64) | ((b5 as u64) << 40u64) | ((b6 as u64)
                << 48u64) | ((b7 as u64) << 56u64),
    ;
    assert(le_bytes(v) =~= s);
}

pub proof fn lemma_words_bytes(s: Seq<u64>)
    ensures
        words_bytes(s).len() == 8 * s.len(),
        forall|j: int|
            0 <= j < s.len() ==> #[trigger] words_bytes(s).subrange(8 * j, 8 * j + 8) == le_bytes(
                s[j],
            ),
    decreases s.len(),
{
    if s.len() > 0 {
        let p = s.drop_last();
        lemma_words_bytes(p);
        assert forall|j: int| 0 <= j < s.len() implies #[trigger] words_bytes(s).subrange(
            8 * j,
            8 * j + 8,
        ) == le_bytes(s[j]) by {
            if j < p.len() {
                assert(words_bytes(s).subrange(8 * j, 8 * j + 8) =~= words_bytes(p).subrange(
                    8 * j,
                    8 * j + 8,
                ));
            } else {
                assert(words_bytes(s).subrange(8 * j, 8 * j + 8) =~= le_bytes(s.last()));
            }
        }
    }
}

/// Encodes `v` as eight little-endian bytes.
pub fn encode_u64(v: u64) -> (r: Vec<u8>)
    ensures
        r@ == le_bytes(v),
{
    let r = vec![
        v as u8,
        (v >> 8u64) as u8,
        (v >> 16u64) as u8,
        (v >> 24u64) as u8,
        (v >> 32u64) as u8,
        (v >> 40u64) as u8,
        (v >> 48u64) as u8,
        (v >> 56u64) as u8,
    ];
    assert(r@ =~= le_bytes(v));
    r
}

/// Reads the little-endian `u64` stored at `off`.
pub fn read_u64_at(d: &Vec<u8>, off: usize) -> (r: u64)
    requires
        off + 8 <= d@.len(),
    ensures
        r == u64_at(d@, off as int),
{
    let len = d.len();
    assert(off + 8 <= len);
    let s = Ghost(d@.subrange(off as int, off + 8));
    assert(s@[0] == d@[off as int] && s@[1] == d@[off + 1] && s@[2] == d@[off + 2] && s@[3] == d@[off
        + 3] && s@[4] == d@[off + 4] && s@[5] == d@[off + 5] && s@[6] == d@[off + 6] && s@[7]
        == d@[off + 7]);
    (d[off] as u64) | ((d[off + 1] as u64) << 8u64) | ((d[off + 2] as u64) << 16u64) | ((d[off
        + 3] as u64) << 24u64) | ((d[off + 4] as u64) << 32u64) | ((d[off + 5] as u64) << 40u64)
        | ((d[off + 6] as u64) << 48u64) | ((d[off + 7] as u64) << 56u64)
}

/// Copies the `n` bytes that start at `off`.
pub fn read_at(d: &Vec<u8>, off: usize, n: usize) -> (r: Vec<u8>)
    requires
        off + n <= d@.len(),
    ensures
        r@ == d@.subrange(off as int, off + n),
{
    let mut r: Vec<u8> = Vec::with_capacity(n);
    let len = d.len();
    let mut i: usize = 0;
    while i < n
        invariant
            len == d@.len(),
            off + n <= d@.len(),
            i <= n,
            r@ == d@.subrange(off as int, off + i),
        decreases n - i,
    {
        r.push(d[off + i]);
        i = i + 1;
        assert(r@ =~= d@.subrange(off as int, off + i));
    }
    r
}

/// Writes `b` at offset `off`, growing the sequence where the write runs past its end.
pub fn write_at(d: &mut Vec<u8>, off: usize, b: &[u8])
    requires
        off <= old(d)@.len(),
        off + b@.len() <= usize::MAX,
    ensures
        final(d)@ == written(old(d)@, off as int, b@),
{
    let ghost d0 = d@;
    let mut i: usize = 0;
    while i < b.len()
        invariant
            off <= d0.len(),
            off + b@.len() <= usize::MAX,
            i <= b@.len(),
            d@ == written(d0, off as int, b@.subrange(0, i as int)),
        decreases b@.len() - i,
    {
        if off + i < d.len() {
            d.set(off + i, b[i]);
        } else {
            d.push(b[i]);
        }
        i = i + 1;
        assert(d@ =~= written(d0, off as int, b@.subrange(0, i as int)));
    }
    assert(b@.subrange(0, i as int) =~= b@);
}

/// Appends the little-endian encodings of the words of `t`.
pub fn write_one_hash_table(d: &mut Vec<u8>, t: &Vec<u64>)
    requires
        old(d)@.len() + 8 * t@.len() <= usize::MAX,
    ensures
        final(d)@ == old(d)@ + words_bytes(t@),
{
    let ghost d0 = d@;
    let mut i: usize = 0;
    while i < t.len()
        invariant
            d0.len() + 8 * t@.len() <= usize::MAX,
            i <= t@.len(),
            d@ == d0 + words_bytes(t@.subrange(0, i as int)),
        decreases t@.len() - i,
    {
        let e = encode_u64(t[i]);
        proof {
            lemma_words_bytes(t@.subrange(0, i as int));
        }
        let end = d.len();
        write_at(d, end, e.as_slice());
        assert(t@.subrange(0, i + 1).drop_last() =~= t@.subrange(0, i as int));
        i = i + 1;
        assert(d@ =~= d0 + words_bytes(t@.subrange(0, i as int)));
    }
    assert(t@.subrange(0, i as int) =~= t@);
}

/// Reads the page of `h + 1` words that starts at `off`: none at the end of the file,
/// `CorruptDbFile` where the file ends inside the page.
pub fn read_one_hash_table(d: &Vec<u8>, off: u64, h: u64, ps: u64) -> (r: Result<
    Option<Vec<u64>>,
    KissdbError,
>)
    requires
        ps == 8 * (h + 1),
    ensures
        off >= d@.len() ==> r == Ok::<Option<Vec<u64>>, KissdbError>(None),
        off < d@.len() && off + ps > d@.len() ==> r == Err::<Option<Vec<u64>>, KissdbError>(
            KissdbError::CorruptDbFile,
        ),
        off < d@.len() && off + ps <= d@.len() ==> (r matches Ok(Some(t)) && t@ == words_at(d@, off as int, (h + 1) as nat)),
{
    let len = d.len() as u64;
    if off >= len {
        return Ok(None);
    }
    if ps > len - off {
        return Err(KissdbError::CorruptDbFile);
    }
    let mut t: Vec<u64> = Vec::new();
    let mut j: u64 = 0;
    while j <= h
        invariant
            ps == 8 * (h + 1),
            off + ps <= d@.len(),
            len == d@.len(),
            d@.len() <= usize::MAX,
            j <= h + 1,
            t@ == words_at(d@, off as int, j as nat),
        decreases h + 1 - j,
    {
        let w = read_u64_at(d, (off + 8 * j) as usize);
        assert(w == u64_at(d@, off as int + 8 * (j as int)));
        t.push(w);
        j = j + 1;
        assert(t@ =~= words_at(d@, off as int, j as nat));
    }
    Ok(Some(t))
}

} // verus!

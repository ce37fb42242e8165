use vstd::prelude::*;

use crate::codec::{le_bytes, lemma_words_bytes, lemma_written, words_bytes, written};
use crate::store::{lemma_index, HEADER_SIZE, page_off_of, slot_of, Kissdb};

verus! {

/// Pages that hold a record of another key are passed over, by `get` and by `put`.
pub proof fn lemma_skip(s: Kissdb, q: int, m: int, key: Seq<u8>, b: int)
    requires
        0 <= q <= m <= s.n(),
        forall|i: int|
            q <= i < m ==> #[trigger] s.slot(i, b) != 0 && s.rec_ok(s.slot(i, b)) && s.rec_key(s.slot(i, b)) != key,
    ensures
        s.stop_from(q, key, b) == s.stop_from(m, key, b),
        s.lookup_from(q, key, b) == s.lookup_from(m, key, b),
    decreases m - q,
{
    if q < m {
        assert(s.slot(q, b) != 0);
        lemma_skip(s, q + 1, m, key, b);
    }
}

/// A lookup gives the same result in two states that agree on the bucket column and on
/// the records that it reaches.
pub proof fn lemma_lookup_frame(s1: Kissdb, s2: Kissdb, p: int, m: int, key: Seq<u8>, b: int)
    requires
        0 <= p <= m,
        m <= s1.n(),
        m <= s2.n(),
        s1.k() == s2.k(),
        s1.v() == s2.v(),
        forall|q: int| p <= q < m ==> #[trigger] s2.slot(q, b) == s1.slot(q, b),
        forall|q: int|
            p <= q < m && #[trigger] s1.slot(q, b) != 0 ==> s2.rec_ok(s1.slot(q, b)) == s1.rec_ok(
                s1.slot(q, b),
            ) && (s1.rec_ok(s1.slot(q, b)) ==> s2.rec_key(s1.slot(q, b)) == s1.rec_key(
                s1.slot(q, b),
            ) && (s1.rec_key(s1.slot(q, b)) == key ==> s2.rec_val(s1.slot(q, b)) == s1.rec_val(
                s1.slot(q, b),
            ))),
        s1.lookup_from(m, key, b) == s2.lookup_from(m, key, b),
    ensures
        s1.lookup_from(p, key, b) == s2.lookup_from(p, key, b),
    decreases m - p,
{
    if p < m {
        assert(s2.slot(p, b) == s1.slot(p, b));
        lemma_lookup_frame(s1, s2, p + 1, m, key, b);
    }
}

/// Two states with the same tables have the same slots and page offsets.
pub proof fn lemma_same_chain(s1: Kissdb, s2: Kissdb)
    requires
        s1.h() == s2.h(),
        s1.tables() == s2.tables(),
    ensures
        forall|p: int, j: int| #[trigger] s2.slot(p, j) == s1.slot(p, j),
        forall|p: int| #[trigger] s2.page_off(p) == s1.page_off(p),
{
}

/// Slots of a flat table after one of them is replaced.
pub proof fn lemma_slots_update(t1: Seq<u64>, t2: Seq<u64>, h: nat, n: nat, at: int, j0: int, x: u64)
    requires
        t1.len() == n * (h + 1),
        0 <= at < n,
        0 <= j0 <= h,
        t2 == t1.update(at * (h + 1) + j0, x),
    ensures
        t2.len() == t1.len(),
        forall|q: int, j: int|
            0 <= q < n && 0 <= j <= h ==> #[trigger] slot_of(t2, h, q, j) == if q == at && j == j0 {
                x
            } else {
                slot_of(t1, h, q, j)
            },
{
    lemma_index(at, j0, n as int, 0, (h + 1) as int);
    assert forall|q: int, j: int| 0 <= q < n && 0 <= j <= h implies #[trigger] slot_of(t2, h, q, j)
        == if q == at && j == j0 {
        x
    } else {
        slot_of(t1, h, q, j)
    } by {
        lemma_index(q, j, at, j0, (h + 1) as int);
        lemma_index(q, j, n as int, 0, (h + 1) as int);
    }
}

/// Slots of a flat table after a page is appended.
pub proof fn lemma_slots_push(t1: Seq<u64>, page: Seq<u64>, h: nat, n: nat)
    requires
        t1.len() == n * (h + 1),
        page.len() == h + 1,
    ensures
        (t1 + page).len() == (n + 1) * (h + 1),
        forall|q: int, j: int|
            0 <= q < n && 0 <= j <= h ==> #[trigger] slot_of(t1 + page, h, q, j) == slot_of(t1, h, q, j),
        forall|j: int| 0 <= j <= h ==> #[trigger] slot_of(t1 + page, h, n as int, j) == page[j],
{
    assert((n + 1) * (h + 1) == n * (h + 1) + (h + 1)) by (nonlinear_arith);
    assert forall|q: int, j: int| 0 <= q < n && 0 <= j <= h implies #[trigger] slot_of(
        t1 + page,
        h,
        q,
        j,
    ) == slot_of(t1, h, q, j) by {
        lemma_index(q, j, n as int, 0, (h + 1) as int);
    }
}

/// The relation between the states before and after a `put` that finds `key` at page
/// `at` and overwrites the value in place.
pub open spec fn overwrite_step(s1: Kissdb, s2: Kissdb, at: int, key: Seq<u8>, value: Seq<u8>) -> bool {
    &&& s1.wf()
    &&& key.len() == s1.k()
    &&& value.len() == s1.v()
    &&& 0 <= at < s1.n()
    &&& s1.slot(at, s1.bucket(key)) != 0
    &&& s1.rec_ok(s1.slot(at, s1.bucket(key)))
    &&& s1.rec_key(s1.slot(at, s1.bucket(key))) == key
    &&& forall|i: int|
        0 <= i < at ==> #[trigger] s1.slot(i, s1.bucket(key)) != 0 && s1.rec_ok(
            s1.slot(i, s1.bucket(key)),
        ) && s1.rec_key(s1.slot(i, s1.bucket(key))) != key
    &&& s2.h() == s1.h()
    &&& s2.k() == s1.k()
    &&& s2.v() == s1.v()
    &&& s2.n() == s1.n()
    &&& s2.tables() == s1.tables()
    &&& s2.file() == written(s1.file(), s1.slot(at, s1.bucket(key)) + s1.k(), value)
}

proof fn lemma_overwrite_wf(s1: Kissdb, s2: Kissdb, at: int, key: Seq<u8>, value: Seq<u8>)
    requires
        overwrite_step(s1, s2, at, key, value),
    ensures
        s2.wf(),
        s2.file().len() == s1.file().len(),
        s1.put_stop(key) == at,
{
    let b = s1.bucket(key);
    let r0 = s1.slot(at, b);
    assert(0 <= b < s1.h());
    assert(slot_of(s1.tables(), s1.h(), at, b) != 0);
    lemma_written(s1.file(), r0 + s1.k(), value);
    lemma_skip(s1, 0, at, key, b);
}

proof fn lemma_overwrite_sound(s1: Kissdb, s2: Kissdb, at: int, key: Seq<u8>, value: Seq<u8>)
    requires
        overwrite_step(s1, s2, at, key, value),
        s1.sound(),
    ensures
        s2.sound(),
{
    let b = s1.bucket(key);
    let r0 = s1.slot(at, b);
    let f1 = s1.file();
    let f2 = s2.file();
    assert(0 <= b < s1.h());
    lemma_overwrite_wf(s1, s2, at, key, value);
    lemma_same_chain(s1, s2);
    lemma_written(f1, r0 + s1.k(), value);
    assert(slot_of(s1.tables(), s1.h(), at, b) != 0);
    assert(s1.slot(at, b) != 0);
    assert(f2.subrange(0, 28) == f1.subrange(0, 28));
    assert forall|p: int, j: int| 0 <= p < s2.n() && 0 <= j <= s2.h() implies f2.subrange(
        s2.page_off(p) + 8 * j,
        s2.page_off(p) + 8 * j + 8,
    ) == le_bytes(#[trigger] s2.slot(p, j)) by {
        assert(s1.slot(at, b) != 0);
        assert(page_off_of(s1.tables(), s1.h(), p) + 8 * (s1.h() + 1) <= f1.len());
        assert(r0 + s1.record_size() <= s1.page_off(p) || s1.page_off(p) + s1.page_size() <= r0);
        assert(s1.slot(p, j) == s2.slot(p, j));
        assert(f1.subrange(s1.page_off(p) + 8 * j, s1.page_off(p) + 8 * j + 8) == le_bytes(
            s1.slot(p, j),
        ));
    }
}

proof fn lemma_overwrite_lookup(s1: Kissdb, s2: Kissdb, at: int, key: Seq<u8>, value: Seq<u8>)
    requires
        overwrite_step(s1, s2, at, key, value),
        s1.sound(),
    ensures
        forall|k: Seq<u8>|
            #[trigger] s2.lookup(k) == if k == key {
                Some(value)
            } else {
                s1.lookup(k)
            },
{
    let b = s1.bucket(key);
    let r0 = s1.slot(at, b);
    let f1 = s1.file();
    let f2 = s2.file();
    let kk = s1.k();
    let rr = s1.record_size();
    assert(0 <= b < s1.h());
    assert(slot_of(s1.tables(), s1.h(), at, b) != 0);
    lemma_written(f1, r0 + kk, value);
    assert forall|q: int, j: int|
        0 <= q < s1.n() && 0 <= j < s1.h() && #[trigger] s1.slot(q, j) != 0 implies s2.rec_key(
        s1.slot(q, j),
    ) == s1.rec_key(s1.slot(q, j)) && ((q != at || j != b) ==> s2.rec_val(s1.slot(q, j))
        == s1.rec_val(s1.slot(q, j))) by {
        assert(slot_of(s1.tables(), s1.h(), q, j) != 0);
        let r = s1.slot(q, j);
        if q != at || j != b {
            assert(r + rr <= r0 || r0 + rr <= r);
        }
    }
    assert(f2.subrange(r0 + kk, r0 + kk + value.len()) == value);
    assert forall|k: Seq<u8>| #[trigger] s2.lookup(k) == if k == key {
        Some(value)
    } else {
        s1.lookup(k)
    } by {
        if k.len() == kk {
            let bk = s1.bucket(k);
            assert(0 <= bk < s1.h());
            if k == key {
                lemma_skip(s1, 0, at, key, b);
                assert forall|i: int| 0 <= i < at implies #[trigger] s2.slot(i, b) != 0
                    && s2.rec_ok(s2.slot(i, b)) && s2.rec_key(s2.slot(i, b)) != key by {
                    assert(s1.slot(i, b) != 0);
                }
                lemma_skip(s2, 0, at, key, b);
            } else {
                lemma_lookup_frame(s1, s2, 0, s1.n() as int, k, bk);
            }
        }
    }
}

/// A `put` that finds `key` at page `at` overwrites the value in place.
pub proof fn lemma_put_overwrite(s1: Kissdb, s2: Kissdb, at: int, key: Seq<u8>, value: Seq<u8>)
    requires
        overwrite_step(s1, s2, at, key, value),
    ensures
        s2.wf(),
        s1.put_outcome(s2, key, value),
{
    lemma_overwrite_wf(s1, s2, at, key, value);
    if s1.sound() {
        lemma_overwrite_sound(s1, s2, at, key, value);
        lemma_overwrite_lookup(s1, s2, at, key, value);
    }
}

/// The relation between the states before and after a `put` that stops at the empty
/// bucket of page `at`: the record is appended and the bucket made to point at it.
pub open spec fn insert_step(s1: Kissdb, s2: Kissdb, at: int, key: Seq<u8>, value: Seq<u8>) -> bool {
    let b = s1.bucket(key);
    let e = s1.file().len();
    &&& s1.wf()
    &&& key.len() == s1.k()
    &&& value.len() == s1.v()
    &&& 0 <= at < s1.n()
    &&& s1.slot(at, b) == 0
    &&& forall|i: int|
        0 <= i < at ==> #[trigger] s1.slot(i, b) != 0 && s1.rec_ok(s1.slot(i, b)) && s1.rec_key(s1.slot(i, b)) != key
    &&& e + s1.record_size() <= u64::MAX
    &&& s2.h() == s1.h()
    &&& s2.k() == s1.k()
    &&& s2.v() == s1.v()
    &&& s2.n() == s1.n()
    &&& s2.tables() == s1.tables().update(at * (s1.h() + 1) + b, e as u64)
    &&& s2.file() == written(s1.file() + key + value, s1.page_off(at) + 8 * b, le_bytes(e as u64))
}

proof fn lemma_insert_facts(s1: Kissdb, s2: Kissdb, at: int, key: Seq<u8>, value: Seq<u8>)
    requires
        insert_step(s1, s2, at, key, value),
    ensures
        0 <= s1.bucket(key) < s1.h(),
        s2.tables().len() == s1.tables().len(),
        forall|q: int, j: int|
            0 <= q < s1.n() && 0 <= j <= s1.h() ==> #[trigger] s2.slot(q, j) == if q == at && j
                == s1.bucket(key) {
                s1.file().len() as u64
            } else {
                s1.slot(q, j)
            },
        forall|p: int| 0 <= p < s1.n() ==> #[trigger] s2.page_off(p) == s1.page_off(p),
        s2.file().len() == s1.file().len() as int + s1.record_size(),
        forall|a: int, c: int|
            0 <= a <= c <= s1.file().len() && (c <= s1.page_off(at) + 8 * s1.bucket(key)
                || s1.page_off(at) + 8 * s1.bucket(key) + 8 <= a) ==> #[trigger] s2.file().subrange(
                a,
                c,
            ) == s1.file().subrange(a, c),
        s2.file().subrange(
            s1.page_off(at) + 8 * s1.bucket(key),
            s1.page_off(at) + 8 * s1.bucket(key) + 8,
        ) == le_bytes(s1.file().len() as u64),
        s2.file().subrange(s1.file().len() as int, s1.file().len() as int + s1.k()) == key,
        s2.file().subrange(s1.file().len() as int + s1.k(), s1.file().len() as int + s1.record_size()) == value,
        s1.page_off(at) + 8 * s1.bucket(key) + 8 <= s1.file().len(),
        s1.page_off(at) >= 28,
{
    let b = s1.bucket(key);
    let h = s1.h();
    let f1 = s1.file();
    let fm = f1 + key + value;
    let po = s1.page_off(at);
    lemma_slots_update(s1.tables(), s2.tables(), h, s1.n(), at, b, f1.len() as u64);
    assert forall|p: int| 0 <= p < s1.n() implies #[trigger] s2.page_off(p) == s1.page_off(p) by {
        reveal(page_off_of);
        if p > 0 {
            assert(s2.slot(p - 1, h as int) == s1.slot(p - 1, h as int));
        }
    }
    assert(page_off_of(s1.tables(), h, at) + 8 * (h + 1) <= f1.len());
    lemma_written(fm, po + 8 * b, le_bytes(f1.len() as u64));
    assert forall|a: int, c: int|
        0 <= a <= c <= f1.len() && (c <= po + 8 * b || po + 8 * b + 8 <= a) implies #[trigger] s2.file().subrange(
        a,
        c,
    ) == f1.subrange(a, c) by {
        assert(fm.subrange(a, c) =~= f1.subrange(a, c));
    }
    assert(s2.file().subrange(f1.len() as int, f1.len() as int + s1.k()) =~= fm.subrange(
        f1.len() as int,
        f1.len() as int + s1.k(),
    ));
    assert(fm.subrange(f1.len() as int, f1.len() as int + s1.k()) =~= key);
    assert(s2.file().subrange(f1.len() as int + s1.k(), f1.len() as int + s1.record_size()) =~= fm.subrange(
        f1.len() as int + s1.k(),
        f1.len() as int + s1.record_size(),
    ));
    assert(fm.subrange(f1.len() as int + s1.k(), f1.len() as int + s1.record_size()) =~= value);
}

proof fn lemma_insert_wf(s1: Kissdb, s2: Kissdb, at: int, key: Seq<u8>, value: Seq<u8>)
    requires
        insert_step(s1, s2, at, key, value),
    ensures
        s2.wf(),
        s1.put_stop(key) == at,
{
    let b = s1.bucket(key);
    lemma_insert_facts(s1, s2, at, key, value);
    assert forall|p: int| 0 <= p < s2.n() implies 28 <= #[trigger] page_off_of(
        s2.tables(),
        s2.h(),
        p,
    ) && page_off_of(s2.tables(), s2.h(), p) + 8 * (s2.h() + 1) <= s2.file().len() by {
        assert(s2.page_off(p) == s1.page_off(p));
        assert(page_off_of(s1.tables(), s1.h(), p) + 8 * (s1.h() + 1) <= s1.file().len());
    }
    assert forall|p: int, q: int| 0 <= p < q < s2.n() implies #[trigger] page_off_of(
        s2.tables(),
        s2.h(),
        p,
    ) + 8 * (s2.h() + 1) <= #[trigger] page_off_of(s2.tables(), s2.h(), q) by {
        assert(s2.page_off(p) == s1.page_off(p));
        assert(s2.page_off(q) == s1.page_off(q));
        assert(page_off_of(s1.tables(), s1.h(), p) + 8 * (s1.h() + 1) <= page_off_of(
            s1.tables(),
            s1.h(),
            q,
        ));
    }
    assert(s2.tables().len() == s2.n() * (s2.h() + 1));
    assert(s2.file().len() <= u64::MAX);
    assert(s2.file().len() >= 28);
    lemma_skip(s1, 0, at, key, b);
}

proof fn lemma_insert_sound(s1: Kissdb, s2: Kissdb, at: int, key: Seq<u8>, value: Seq<u8>)
    requires
        insert_step(s1, s2, at, key, value),
        s1.sound(),
    ensures
        s2.sound(),
{
    let b = s1.bucket(key);
    let h = s1.h();
    let e = s1.file().len();
    let po = s1.page_off(at);
    lemma_insert_facts(s1, s2, at, key, value);
    lemma_insert_wf(s1, s2, at, key, value);
    assert(s2.file().subrange(0, 28) == s1.file().subrange(0, 28));
    assert forall|p: int, j: int|
        0 <= p < s2.n() && 0 <= j < s2.h() && #[trigger] s2.slot(p, j) != 0 implies HEADER_SIZE
        <= s2.slot(p, j) && s2.rec_ok(s2.slot(p, j)) by {
        if p != at || j != b {
            assert(s1.slot(p, j) != 0);
        }
    }
    assert forall|p: int, j: int| 0 <= p < s2.n() && 0 <= j <= s2.h() implies s2.file().subrange(
        s2.page_off(p) + 8 * j,
        s2.page_off(p) + 8 * j + 8,
    ) == le_bytes(#[trigger] s2.slot(p, j)) by {
        if p != at || j != b {
            assert(page_off_of(s1.tables(), h, p) + 8 * (h + 1) <= e);
            if p < at {
                assert(page_off_of(s1.tables(), h, p) + 8 * (h + 1) <= page_off_of(s1.tables(), h, at));
            } else if at < p {
                assert(page_off_of(s1.tables(), h, at) + 8 * (h + 1) <= page_off_of(s1.tables(), h, p));
            }
            assert(s1.file().subrange(s1.page_off(p) + 8 * j, s1.page_off(p) + 8 * j + 8) == le_bytes(
                s1.slot(p, j),
            ));
        }
    }
    assert forall|p: int, q: int, j: int|
        0 <= p < q < s2.n() && 0 <= j < s2.h() && #[trigger] s2.slot(p, j) == 0 implies #[trigger] s2.slot(q, j) == 0 by {
        if j == b {
            if p < at {
                assert(s1.slot(p, b) != 0);
            } else if p > at {
                assert(s1.slot(at, b) == 0);
                assert(s1.slot(p, b) == 0);
            }
        } else {
            assert(s1.slot(p, j) == 0);
        }
    }
    assert forall|p: int, j: int, q: int|
        0 <= p < s2.n() && 0 <= j < s2.h() && 0 <= q < s2.n() && #[trigger] s2.slot(p, j) != 0
            implies s2.slot(p, j) + s2.record_size() <= #[trigger] s2.page_off(q) || s2.page_off(q)
        + s2.page_size() <= s2.slot(p, j) by {
        assert(page_off_of(s1.tables(), h, q) + 8 * (h + 1) <= e);
        if p != at || j != b {
            assert(s1.slot(p, j) != 0);
            assert(s1.page_off(q) == s2.page_off(q));
        }
    }
    assert forall|p: int, j: int, pb: int, jb: int|
        0 <= p < s2.n() && 0 <= j < s2.h() && 0 <= pb < s2.n() && 0 <= jb < s2.h() && (p != pb
            || j != jb) && #[trigger] s2.slot(p, j) != 0 && #[trigger] s2.slot(pb, jb) != 0 implies s2.slot(
        p,
        j,
    ) + s2.record_size() <= s2.slot(pb, jb) || s2.slot(pb, jb) + s2.record_size() <= s2.slot(
        p,
        j,
    ) by {
        if p != at || j != b {
            assert(slot_of(s1.tables(), h, p, j) != 0);
        }
        if pb != at || jb != b {
            assert(slot_of(s1.tables(), h, pb, jb) != 0);
        }
    }
}

proof fn lemma_insert_lookup(s1: Kissdb, s2: Kissdb, at: int, key: Seq<u8>, value: Seq<u8>)
    requires
        insert_step(s1, s2, at, key, value),
        s1.sound(),
    ensures
        forall|k: Seq<u8>|
            #[trigger] s2.lookup(k) == if k == key {
                Some(value)
            } else {
                s1.lookup(k)
            },
{
    let b = s1.bucket(key);
    let h = s1.h();
    let e = s1.file().len();
    let kk = s1.k();
    lemma_insert_facts(s1, s2, at, key, value);
    assert forall|q: int, j: int|
        0 <= q < s1.n() && 0 <= j < h && #[trigger] s1.slot(q, j) != 0 implies s2.rec_key(
        s1.slot(q, j),
    ) == s1.rec_key(s1.slot(q, j)) && s2.rec_val(s1.slot(q, j)) == s1.rec_val(s1.slot(q, j)) by {
        assert(slot_of(s1.tables(), h, q, j) != 0);
        let r = s1.slot(q, j);
        assert(r + s1.record_size() <= s1.page_off(at) || s1.page_off(at) + s1.page_size() <= r);
    }
    assert(s2.rec_key(e as u64) == key);
    assert(s2.rec_val(e as u64) == value);
    assert forall|k: Seq<u8>| #[trigger] s2.lookup(k) == if k == key {
        Some(value)
    } else {
        s1.lookup(k)
    } by {
        if k.len() == kk {
            let bk = s1.bucket(k);
            assert(0 <= bk < h);
            if bk != b {
                lemma_lookup_frame(s1, s2, 0, s1.n() as int, k, bk);
            } else {
                assert forall|i: int| 0 <= i < at implies #[trigger] s2.slot(i, b) != 0
                    && s2.rec_key(s2.slot(i, b)) != key by {
                    assert(s1.slot(i, b) != 0);
                }
                if k == key {
                    lemma_skip(s2, 0, at, key, b);
                } else {
                    if at + 1 < s1.n() {
                        assert(s1.slot(at, b) == 0);
                        assert(s1.slot(at + 1, b) == 0);
                        assert(s2.slot(at + 1, b) == 0);
                    }
                    assert(s2.lookup_from(at + 1, k, b) is None);
                    assert(s2.lookup_from(at, k, b) is None);
                    lemma_lookup_frame(s1, s2, 0, at, k, bk);
                }
            }
        }
    }
}

/// A `put` that stops at an empty bucket appends the record there.
pub proof fn lemma_put_insert(s1: Kissdb, s2: Kissdb, at: int, key: Seq<u8>, value: Seq<u8>)
    requires
        insert_step(s1, s2, at, key, value),
    ensures
        s2.wf(),
        s1.put_outcome(s2, key, value),
{
    lemma_insert_facts(s1, s2, at, key, value);
    lemma_insert_wf(s1, s2, at, key, value);
    if s1.sound() {
        lemma_insert_sound(s1, s2, at, key, value);
        lemma_insert_lookup(s1, s2, at, key, value);
    }
}

/// A fresh page of `h` buckets and a zero link, whose bucket `b` holds `r`.
pub open spec fn new_page(h: nat, b: int, r: u64) -> Seq<u64> {
    Seq::new(h + 1, |j: int| if j == b { r } else { 0u64 })
}

/// The relation between the states before and after a `put` that finds every page's
/// bucket taken by other keys: a page is appended with the record right after it, and
/// the previous last page is linked to it.
pub open spec fn new_page_step(s1: Kissdb, s2: Kissdb, key: Seq<u8>, value: Seq<u8>) -> bool {
    let b = s1.bucket(key);
    let h = s1.h();
    let n = s1.n();
    let e = s1.file().len();
    let page = new_page(h, b, (e + s1.page_size()) as u64);
    let fm = s1.file() + words_bytes(page) + key + value;
    &&& s1.wf()
    &&& key.len() == s1.k()
    &&& value.len() == s1.v()
    &&& forall|i: int|
        0 <= i < n ==> #[trigger] s1.slot(i, b) != 0 && s1.rec_ok(s1.slot(i, b)) && s1.rec_key(s1.slot(i, b)) != key
    &&& e + s1.page_size() + s1.record_size() <= u64::MAX
    &&& s2.h() == h
    &&& s2.k() == s1.k()
    &&& s2.v() == s1.v()
    &&& s2.n() == n + 1
    &&& n > 0 ==> s2.tables() == (s1.tables() + page).update((n - 1) * (h + 1) + h, e as u64)
        && s2.file() == written(fm, s1.page_off(n - 1) + 8 * h, le_bytes(e as u64))
    &&& n == 0 ==> s2.tables() == s1.tables() + page && s2.file() == fm
}

proof fn lemma_new_page_facts(s1: Kissdb, s2: Kissdb, key: Seq<u8>, value: Seq<u8>)
    requires
        new_page_step(s1, s2, key, value),
    ensures
        0 <= s1.bucket(key) < s1.h(),
        s2.tables().len() == s2.n() * (s2.h() + 1),
        forall|q: int, j: int|
            0 <= q < s1.n() && 0 <= j <= s1.h() ==> #[trigger] s2.slot(q, j) == if q == s1.n() - 1
                && j == s1.h() {
                s1.file().len() as u64
            } else {
                s1.slot(q, j)
            },
        forall|j: int|
            0 <= j <= s1.h() ==> #[trigger] s2.slot(s1.n() as int, j) == if j == s1.bucket(key) {
                (s1.file().len() + s1.page_size()) as u64
            } else {
                0u64
            },
        forall|p: int| 0 <= p < s1.n() ==> #[trigger] s2.page_off(p) == s1.page_off(p),
        s2.page_off(s1.n() as int) == s1.file().len(),
        s2.file().len() == s1.file().len() + s1.page_size() + s1.record_size(),
        s1.n() > 0 ==> s1.page_off(s1.n() - 1) + 8 * s1.h() + 8 <= s1.file().len(),
        forall|a: int, c: int|
            0 <= a <= c <= s1.file().len() && (s1.n() == 0 || c <= s1.page_off(s1.n() - 1) + 8
                * s1.h() || s1.page_off(s1.n() - 1) + 8 * s1.h() + 8 <= a)
                ==> #[trigger] s2.file().subrange(a, c) == s1.file().subrange(a, c),
        s1.n() > 0 ==> s2.file().subrange(
            s1.page_off(s1.n() - 1) + 8 * s1.h(),
            s1.page_off(s1.n() - 1) + 8 * s1.h() + 8,
        ) == le_bytes(s1.file().len() as u64),
        forall|j: int|
            0 <= j <= s1.h() ==> #[trigger] s2.file().subrange(
                s1.file().len() + 8 * j,
                s1.file().len() + 8 * j + 8,
            ) == le_bytes(s2.slot(s1.n() as int, j)),
        s2.rec_key((s1.file().len() + s1.page_size()) as u64) == key,
        s2.rec_val((s1.file().len() + s1.page_size()) as u64) == value,
{
    let b = s1.bucket(key);
    let h = s1.h();
    let n = s1.n();
    let e: int = s1.file().len() as int;
    let ps: int = s1.page_size() as int;
    let page = new_page(h, b, (e + ps) as u64);
    let wb = words_bytes(page);
    let f1 = s1.file();
    let fm = f1 + wb + key + value;
    let tp = s1.tables() + page;
    lemma_words_bytes(page);
    lemma_slots_push(s1.tables(), page, h, n);
    assert(fm.len() == e + ps + s1.record_size());
    if n > 0 {
        lemma_slots_update(tp, s2.tables(), h, n + 1, n - 1, h as int, e as u64);
        assert(page_off_of(s1.tables(), h, n - 1) + 8 * (h + 1) <= e);
        lemma_written(fm, s1.page_off(n - 1) + 8 * h, le_bytes(e as u64));
    }
    assert forall|p: int| 0 <= p < n implies #[trigger] s2.page_off(p) == s1.page_off(p) by {
        reveal(page_off_of);
        if p > 0 {
            assert(s2.slot(p - 1, h as int) == s1.slot(p - 1, h as int));
        }
    }
    reveal(page_off_of);
    assert(s2.page_off(n as int) == e);
    assert forall|a: int, c: int|
        0 <= a <= c <= e && (n == 0 || c <= s1.page_off(n - 1) + 8 * h || s1.page_off(n - 1) + 8
            * h + 8 <= a) implies #[trigger] s2.file().subrange(a, c) == f1.subrange(a, c) by {
        assert(fm.subrange(a, c) =~= f1.subrange(a, c));
    }
    assert forall|j: int| 0 <= j <= h implies #[trigger] s2.file().subrange(
        e + 8 * j,
        e + 8 * j + 8,
    ) == le_bytes(s2.slot(n as int, j)) by {
        assert(fm.subrange(e + 8 * j, e + 8 * j + 8) =~= wb.subrange(8 * j, 8 * j + 8));
        assert(wb.subrange(8 * j, 8 * j + 8) == le_bytes(page[j]));
    }
    assert(s2.file().subrange(e + ps, e + ps + s1.k()) =~= fm.subrange(e + ps, e + ps + s1.k()));
    assert(fm.subrange(e + ps, e + ps + s1.k()) =~= key);
    assert(s2.file().subrange(e + ps + s1.k(), e + ps + s1.record_size()) =~= fm.subrange(
        e + ps + s1.k(),
        e + ps + s1.record_size(),
    ));
    assert(fm.subrange(e + ps + s1.k(), e + ps + s1.record_size()) =~= value);
}

proof fn lemma_new_page_wf(s1: Kissdb, s2: Kissdb, key: Seq<u8>, value: Seq<u8>)
    requires
        new_page_step(s1, s2, key, value),
    ensures
        s2.wf(),
        s1.put_stop(key) == s1.n(),
{
    let b = s1.bucket(key);
    let h = s1.h();
    let n = s1.n();
    let e = s1.file().len();
    lemma_new_page_facts(s1, s2, key, value);
    assert forall|p: int| 0 <= p < s2.n() implies 28 <= #[trigger] page_off_of(
        s2.tables(),
        s2.h(),
        p,
    ) && page_off_of(s2.tables(), s2.h(), p) + 8 * (s2.h() + 1) <= s2.file().len() by {
        if p < n {
            assert(s2.page_off(p) == s1.page_off(p));
            assert(page_off_of(s1.tables(), s1.h(), p) + 8 * (s1.h() + 1) <= s1.file().len());
        } else {
            assert(s2.page_off(p) == e);
        }
    }
    assert forall|p: int, q: int| 0 <= p < q < s2.n() implies #[trigger] page_off_of(
        s2.tables(),
        s2.h(),
        p,
    ) + 8 * (s2.h() + 1) <= #[trigger] page_off_of(s2.tables(), s2.h(), q) by {
        assert(s2.page_off(p) == s1.page_off(p));
        assert(page_off_of(s1.tables(), s1.h(), p) + 8 * (s1.h() + 1) <= s1.file().len());
        if q < n {
            assert(s2.page_off(q) == s1.page_off(q));
            assert(page_off_of(s1.tables(), s1.h(), p) + 8 * (s1.h() + 1) <= page_off_of(
                s1.tables(),
                s1.h(),
                q,
            ));
        } else {
            assert(s2.page_off(q) == e);
        }
    }
    lemma_skip(s1, 0, n as int, key, b);
}

proof fn lemma_new_page_sound(s1: Kissdb, s2: Kissdb, key: Seq<u8>, value: Seq<u8>)
    requires
        new_page_step(s1, s2, key, value),
        s1.sound(),
    ensures
        s2.sound(),
{
    let b = s1.bucket(key);
    let h = s1.h();
    let n = s1.n();
    let e = s1.file().len();
    lemma_new_page_facts(s1, s2, key, value);
    lemma_new_page_wf(s1, s2, key, value);
    assert(s2.file().subrange(0, 28) == s1.file().subrange(0, 28));
    assert forall|p: int, j: int|
        0 <= p < s2.n() && 0 <= j < s2.h() && #[trigger] s2.slot(p, j) != 0 implies HEADER_SIZE
        <= s2.slot(p, j) && s2.rec_ok(s2.slot(p, j)) by {
        if p < n {
            assert(s1.slot(p, j) != 0);
        }
    }
    assert forall|p: int, j: int| 0 <= p < s2.n() && 0 <= j <= s2.h() implies s2.file().subrange(
        s2.page_off(p) + 8 * j,
        s2.page_off(p) + 8 * j + 8,
    ) == le_bytes(#[trigger] s2.slot(p, j)) by {
        if p < n && (p != n - 1 || j != h) {
            assert(page_off_of(s1.tables(), h, p) + 8 * (h + 1) <= e);
            if p < n - 1 {
                assert(page_off_of(s1.tables(), h, p) + 8 * (h + 1) <= page_off_of(
                    s1.tables(),
                    h,
                    n - 1,
                ));
            }
            assert(s1.file().subrange(s1.page_off(p) + 8 * j, s1.page_off(p) + 8 * j + 8)
                == le_bytes(s1.slot(p, j)));
        }
    }
    assert(s2.slot(n as int, h as int) == 0);
    assert forall|p: int, q: int, j: int|
        0 <= p < q < s2.n() && 0 <= j < s2.h() && #[trigger] s2.slot(p, j) == 0 implies #[trigger] s2.slot(q, j) == 0 by {
        if q < n {
            assert(s1.slot(p, j) == 0);
        } else if j == b {
            assert(s1.slot(p, b) != 0);
        }
    }
    assert forall|p: int, j: int, q: int|
        0 <= p < s2.n() && 0 <= j < s2.h() && 0 <= q < s2.n() && #[trigger] s2.slot(p, j) != 0
            implies s2.slot(p, j) + s2.record_size() <= #[trigger] s2.page_off(q) || s2.page_off(q)
        + s2.page_size() <= s2.slot(p, j) by {
        if q < n {
            assert(page_off_of(s1.tables(), h, q) + 8 * (h + 1) <= e);
            assert(s2.page_off(q) == s1.page_off(q));
        }
        if p < n {
            assert(s1.slot(p, j) != 0);
            assert(slot_of(s1.tables(), h, p, j) != 0);
        }
    }
    assert forall|p: int, j: int, pb: int, jb: int|
        0 <= p < s2.n() && 0 <= j < s2.h() && 0 <= pb < s2.n() && 0 <= jb < s2.h() && (p != pb
            || j != jb) && #[trigger] s2.slot(p, j) != 0 && #[trigger] s2.slot(pb, jb) != 0 implies s2.slot(
        p,
        j,
    ) + s2.record_size() <= s2.slot(pb, jb) || s2.slot(pb, jb) + s2.record_size() <= s2.slot(
        p,
        j,
    ) by {
        if p < n {
            assert(slot_of(s1.tables(), h, p, j) != 0);
        }
        if pb < n {
            assert(slot_of(s1.tables(), h, pb, jb) != 0);
        }
    }
}

proof fn lemma_new_page_lookup(s1: Kissdb, s2: Kissdb, key: Seq<u8>, value: Seq<u8>)
    requires
        new_page_step(s1, s2, key, value),
        s1.sound(),
    ensures
        forall|k: Seq<u8>|
            #[trigger] s2.lookup(k) == if k == key {
                Some(value)
            } else {
                s1.lookup(k)
            },
{
    let b = s1.bucket(key);
    let h = s1.h();
    let n = s1.n();
    let e = s1.file().len();
    let kk = s1.k();
    lemma_new_page_facts(s1, s2, key, value);
    assert forall|q: int, j: int|
        0 <= q < n && 0 <= j < h && #[trigger] s1.slot(q, j) != 0 implies s2.rec_key(
        s1.slot(q, j),
    ) == s1.rec_key(s1.slot(q, j)) && s2.rec_val(s1.slot(q, j)) == s1.rec_val(s1.slot(q, j)) by {
        assert(slot_of(s1.tables(), h, q, j) != 0);
        let r = s1.slot(q, j);
        if n > 0 {
            assert(r + s1.record_size() <= s1.page_off(n - 1) || s1.page_off(n - 1)
                + s1.page_size() <= r);
        }
    }
    assert forall|k: Seq<u8>| #[trigger] s2.lookup(k) == if k == key {
        Some(value)
    } else {
        s1.lookup(k)
    } by {
        if k.len() == kk {
            let bk = s1.bucket(k);
            assert(0 <= bk < h);
            assert(s2.slot(n as int, bk) == if bk == b {
                (e + s1.page_size()) as u64
            } else {
                0u64
            });
            if k == key {
                assert forall|i: int| 0 <= i < n implies #[trigger] s2.slot(i, b) != 0
                    && s2.rec_key(s2.slot(i, b)) != key by {
                    assert(s1.slot(i, b) != 0);
                }
                lemma_skip(s2, 0, n as int, key, b);
            } else {
                assert(s2.lookup_from(n as int + 1, k, bk) is None);
                assert(s2.lookup_from(n as int, k, bk) is None);
                lemma_lookup_frame(s1, s2, 0, n as int, k, bk);
            }
        }
    }
}

/// A `put` that finds every page's bucket taken by other keys appends a page.
pub proof fn lemma_put_new_page(s1: Kissdb, s2: Kissdb, key: Seq<u8>, value: Seq<u8>)
    requires
        new_page_step(s1, s2, key, value),
    ensures
        s2.wf(),
        s1.put_outcome(s2, key, value),
{
    lemma_new_page_facts(s1, s2, key, value);
    lemma_new_page_wf(s1, s2, key, value);
    if s1.sound() {
        lemma_new_page_sound(s1, s2, key, value);
        lemma_new_page_lookup(s1, s2, key, value);
    }
}

} // verus!

//! Properties that hold across calls of the store's operations.
use vstd::prelude::*;

use crate::codec::{le_bytes, lemma_value_of_bytes, lemma_written, u64_at, words_at};
use crate::error::KissdbError;
use crate::lemmas::{lemma_lookup_frame, lemma_same_chain, lemma_skip, overwrite_step};
use crate::store::{
    header_bytes, lemma_index, magic, open_outcome, page_off_of, parse_chain, slot_of, Kissdb,
    OpenMode, HEADER_SIZE,
};

verus! {

/// The value that the last of a sequence of puts gave `k`; `init` where none of them
/// was for `k`.
pub open spec fn last_put(
    keys: Seq<Seq<u8>>,
    values: Seq<Seq<u8>>,
    k: Seq<u8>,
    init: Option<Seq<u8>>,
) -> Option<Seq<u8>>
    decreases keys.len(),
{
    if keys.len() == 0 || values.len() != keys.len() {
        init
    } else if keys.last() == k {
        Some(values.last())
    } else {
        last_put(keys.drop_last(), values.drop_last(), k, init)
    }
}

/// A database without pages holds no key.
pub proof fn law_new_database_is_empty(db: Kissdb, k: Seq<u8>)
    requires
        db.n() == 0,
    ensures
        db.lookup(k) is None,
{
}

/// After any sequence of successful puts on a sound database, every key maps to the
/// value of the last put for it, and a key that no put named maps to what it mapped
/// to before (to nothing, on a new database); the database stays sound.
pub proof fn law_last_put_wins(
    states: Seq<Kissdb>,
    keys: Seq<Seq<u8>>,
    values: Seq<Seq<u8>>,
    k: Seq<u8>,
)
    requires
        states.len() == keys.len() + 1,
        values.len() == keys.len(),
        states[0].sound(),
        forall|i: int|
            0 <= i < keys.len() ==> #[trigger] states[i].put_outcome(
                states[i + 1],
                keys[i],
                values[i],
            ),
    ensures
        states.last().sound(),
        states.last().lookup(k) == last_put(keys, values, k, states[0].lookup(k)),
    decreases keys.len(),
{
    if keys.len() > 0 {
        let m = keys.len() - 1;
        let st = states.drop_last();
        law_last_put_wins(st, keys.drop_last(), values.drop_last(), k);
        assert(states[m].put_outcome(states[m + 1], keys[m], values[m]));
        assert(st.last() == states[m]);
        assert(states.last() == states[m + 1]);
    }
}

proof fn lemma_lookup_stops(s: Kissdb, p: int, key: Seq<u8>, b: int)
    requires
        0 <= p,
        s.lookup_from(p, key, b) is Some,
    ensures
        s.stop_from(p, key, b) < s.n(),
        s.slot(s.stop_from(p, key, b), b) != 0,
        s.rec_ok(s.slot(s.stop_from(p, key, b), b)),
        s.rec_key(s.slot(s.stop_from(p, key, b), b)) == key,
        s.lookup_from(p, key, b) == Some(s.rec_val(s.slot(s.stop_from(p, key, b), b))),
    decreases s.n() - p,
{
    if p < s.n() && s.slot(p, b) != 0 && s.rec_ok(s.slot(p, b)) && s.rec_key(s.slot(p, b)) != key {
        lemma_lookup_stops(s, p + 1, key, b);
    }
}

proof fn lemma_stop_at_end(s: Kissdb, p: int, key: Seq<u8>, b: int)
    requires
        0 <= p <= s.n(),
        s.stop_from(p, key, b) == s.n(),
    ensures
        forall|i: int|
            p <= i < s.n() ==> #[trigger] s.slot(i, b) != 0 && s.rec_ok(s.slot(i, b)) && s.rec_key(
                s.slot(i, b),
            ) != key,
    decreases s.n() - p,
{
    if p < s.n() {
        lemma_stop_at_end(s, p + 1, key, b);
    }
}

/// Putting the same key and value twice: the second put changes nothing, neither the
/// file's bytes nor the page tables, and the key keeps the value.
pub proof fn law_reput_changes_nothing(
    s0: Kissdb,
    s1: Kissdb,
    s2: Kissdb,
    key: Seq<u8>,
    value: Seq<u8>,
)
    requires
        s0.sound(),
        key.len() == s0.k(),
        s0.put_outcome(s1, key, value),
        s1.put_effect(s2, key, value),
    ensures
        s2.file() == s1.file(),
        s2.tables() == s1.tables(),
        s2.n() == s1.n(),
        s2.lookup(key) == Some(value),
{
    let b = s1.bucket(key);
    assert(s1.lookup(key) == Some(value));
    lemma_lookup_stops(s1, 0, key, b);
    let r = s1.slot(s1.put_stop(key), b);
    assert(overwrite_step(s1, s2, s1.put_stop(key), key, value));
    lemma_written(s1.file(), r + s1.k(), value);
    assert(s1.rec_val(r) == value);
    assert(s2.file() =~= s1.file());
    lemma_same_chain(s1, s2);
    lemma_lookup_frame(s1, s2, 0, s1.n() as int, key, b);
}

/// The chain never shrinks, and a put appends a page exactly when every page's bucket
/// for the key holds a whole record of another key.
pub proof fn law_pages_grow_only_when_full(s1: Kissdb, s2: Kissdb, key: Seq<u8>, value: Seq<u8>)
    requires
        s1.put_outcome(s2, key, value),
    ensures
        s2.n() >= s1.n(),
        (s2.n() == s1.n() + 1) == s1.chain_full(key),
        s2.n() <= s1.n() + 1,
{
    let b = s1.bucket(key);
    if s1.chain_full(key) {
        assert forall|i: int| 0 <= i < s1.n() implies #[trigger] s1.slot(i, b) != 0 && s1.rec_ok(
            s1.slot(i, b),
        ) && s1.rec_key(s1.slot(i, b)) != key by {
            assert(s1.slot(i, s1.bucket(key)) != 0);
        }
        lemma_skip(s1, 0, s1.n() as int, key, b);
    } else if s1.put_stop(key) == s1.n() {
        lemma_stop_at_end(s1, 0, key, b);
    }
}

proof fn lemma_parse_sound(s: Kissdb, p: int)
    requires
        s.sound(),
        0 <= p < s.n(),
    ensures
        parse_chain(s.file(), s.h(), s.page_off(p)) == Some(
            s.tables().subrange(p * (s.h() + 1), s.n() * (s.h() + 1) as int),
        ),
    decreases s.n() - p,
{
    let h = s.h();
    let f = s.file();
    let t = s.tables();
    let w = (h + 1) as int;
    let off = s.page_off(p);
    assert(HEADER_SIZE <= page_off_of(t, h, p) && page_off_of(t, h, p) + 8 * (h + 1) <= f.len());
    lemma_index(p, 0, s.n() as int, 0, w);
    assert((p + 1) * w <= s.n() * w) by (nonlinear_arith)
        requires
            p + 1 <= s.n(),
            w >= 0,
    ;
    assert((p + 1) * w == p * w + w) by (nonlinear_arith);
    let page = words_at(f, off, h + 1);
    assert forall|j: int| 0 <= j <= h implies #[trigger] page[j] == s.slot(p, j) by {
        assert(f.subrange(off + 8 * j, off + 8 * j + 8) == le_bytes(s.slot(p, j)));
        lemma_value_of_bytes(s.slot(p, j));
    }
    assert(page =~= t.subrange(p * w, (p + 1) * w));
    assert forall|j: int| 0 <= j < h && #[trigger] page[j] != 0 implies HEADER_SIZE <= page[j]
        && page[j] + s.record_size() <= f.len() by {
        assert(slot_of(t, h, p, j) != 0);
    }
    if p + 1 < s.n() {
        reveal(page_off_of);
        assert(page[h as int] == s.page_off(p + 1));
        assert(page_off_of(t, h, p) + 8 * (h + 1) <= page_off_of(t, h, p + 1));
        assert(page_off_of(t, h, p + 1) + 8 * (h + 1) <= f.len());
        lemma_parse_sound(s, p + 1);
        assert(t.subrange(p * w, s.n() * w) =~= t.subrange(p * w, (p + 1) * w) + t.subrange(
            (p + 1) * w,
            s.n() * w,
        ));
    } else {
        assert(page[h as int] == 0);
    }
}

/// Reopening the file of a sound database, in any mode that keeps the file, gives back
/// the same sizes (whatever sizes the caller passes), the same chain and the same
/// contents.
pub proof fn law_reopen(
    db: Kissdb,
    mode: OpenMode,
    hash_table_size: u64,
    key_size: u64,
    value_size: u64,
    r: Result<Kissdb, KissdbError>,
)
    requires
        db.sound(),
        mode != OpenMode::RWReplace,
        open_outcome(Some(db.file()), mode, hash_table_size, key_size, value_size, r),
    ensures
        r matches Ok(db2) && db2.h() == db.h() && db2.k() == db.k() && db2.v() == db.v()
            && db2.n() == db.n() && db2.tables() == db.tables() && db2.file() == db.file()
            && db2.writable() == (mode != OpenMode::ReadOnly) && db2.sound() && forall|k: Seq<u8>|
            #[trigger] db2.lookup(k) == db.lookup(k),
{
    let f = db.file();
    let h = db.h();
    let t = db.tables();
    let hb = header_bytes(h as u64, db.k() as u64, db.v() as u64);
    assert(f.subrange(0, 28) == hb);
    assert(f.subrange(0, 4) =~= hb.subrange(0, 4));
    assert(hb.subrange(0, 4) =~= magic());
    assert(hb.subrange(4, 12) =~= le_bytes(h as u64));
    assert(hb.subrange(12, 20) =~= le_bytes(db.k() as u64));
    assert(hb.subrange(20, 28) =~= le_bytes(db.v() as u64));
    assert(f.subrange(4, 12) =~= hb.subrange(4, 12));
    assert(f.subrange(12, 20) =~= hb.subrange(12, 20));
    assert(f.subrange(20, 28) =~= hb.subrange(20, 28));
    lemma_value_of_bytes(h as u64);
    lemma_value_of_bytes(db.k() as u64);
    lemma_value_of_bytes(db.v() as u64);
    assert(u64_at(f, 4) == h);
    assert(u64_at(f, 12) == db.k());
    assert(u64_at(f, 20) == db.v());
    if db.n() == 0 {
        assert(t =~= Seq::<u64>::empty());
        assert(parse_chain(f, h, HEADER_SIZE as int) == Some(t));
    } else {
        reveal(page_off_of);
        lemma_parse_sound(db, 0);
        assert(t.subrange(0int * (h + 1), (db.n() * (h + 1)) as int) =~= t);
    }
    let db2 = r->Ok_0;
    assert(db2.tables().len() == db2.n() * (h + 1));
    assert(db2.n() == db.n()) by (nonlinear_arith)
        requires
            db2.n() * (h + 1) == db.n() * (h + 1),
            h + 1 > 0,
    ;
    assert forall|k: Seq<u8>| #[trigger] db2.lookup(k) == db.lookup(k) by {
        lemma_same_chain(db, db2);
        if k.len() == db.k() {
            lemma_lookup_frame(db, db2, 0, db.n() as int, k, db.bucket(k));
        }
    }
    lemma_same_chain(db, db2);
}

} // verus!

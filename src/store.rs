use vstd::prelude::*;

use crate::codec::{
    encode_u64, le_bytes, lemma_bytes_of_value, lemma_words_bytes, read_at, read_one_hash_table,
    read_u64_at, u64_at, words_at, words_bytes, write_at, write_one_hash_table,
};
use crate::error::KissdbError;
use crate::hash::{hash_of, kissdb_hash};
use crate::lemmas::{
    insert_step, lemma_put_insert, lemma_skip, lemma_slots_push, lemma_put_new_page, lemma_put_overwrite, new_page,
    new_page_step, overwrite_step,
};

verus! {

/// Size in bytes of the file header: magic (4) and three little-endian `u64`s.
pub const HEADER_SIZE: u64 = 28;

/// Format version stored in the fourth byte of the magic.
pub const VERSION: u8 = 1;

/// How a database file is opened.
#[derive(Clone, Copy, Debug, PartialEq, Eq, Structural)]
pub enum OpenMode {
    /// The file must exist; it is never written.
    ReadOnly,
    /// The file must exist; it may be written.
    RW,
    /// The file is created empty when absent; it may be written.
    RWCreate,
    /// The file is emptied (or created); it may be written.
    RWReplace,
}

/// The four magic bytes "KdR" followed by the version.
pub open spec fn magic() -> Seq<u8> {
    seq![0x4bu8, 0x64u8, 0x52u8, VERSION]
}

/// The header that describes a database with the given sizes.
pub open spec fn header_bytes(h: u64, k: u64, v: u64) -> Seq<u8> {
    magic() + le_bytes(h) + le_bytes(k) + le_bytes(v)
}

/// Sizes that the format accepts: all positive, and a header, a page and a record
/// addressable by a `u64` offset.
pub open spec fn sizes_ok(h: nat, k: nat, v: nat) -> bool {
    &&& h > 0
    &&& k > 0
    &&& v > 0
    &&& HEADER_SIZE + 8 * (h + 1) + k + v <= u64::MAX
}

/// Slot `j` of page `p` in the flat table sequence `t` (pages of `h + 1` slots).
pub open spec fn slot_of(t: Seq<u64>, h: nat, p: int, j: int) -> u64 {
    t[p * (h + 1) + j]
}

/// File offset of page `p`: the first page follows the header, every other one is
/// named by the next-page link of the page before it.
#[verifier::opaque]
pub open spec fn page_off_of(t: Seq<u64>, h: nat, p: int) -> int {
    if p <= 0 {
        HEADER_SIZE as int
    } else {
        slot_of(t, h, p - 1, h as int) as int
    }
}

/// The structural layout that every open database keeps: `n` pages in the table
/// sequence, lying in the file past the header in increasing order without overlap.
pub open spec fn layout_ok(f: Seq<u8>, h: nat, k: nat, v: nat, t: Seq<u64>, n: nat) -> bool {
    &&& sizes_ok(h, k, v)
    &&& f.len() >= HEADER_SIZE
    &&& f.len() <= u64::MAX
    &&& t.len() == n * (h + 1)
    &&& n == 0 ==> f.len() == HEADER_SIZE
    &&& forall|p: int|
        0 <= p < n ==> HEADER_SIZE <= #[trigger] page_off_of(t, h, p) && page_off_of(t, h, p) + 8 * (
        h + 1) <= f.len()
    &&& forall|p: int, q: int|
        0 <= p < q < n ==> #[trigger] page_off_of(t, h, p) + 8 * (h + 1) <= #[trigger] page_off_of(
            t,
            h,
            q,
        )
}

/// The file contents that opening in `mode` starts from, and whether the database may
/// be written; none where the mode needs an existing file and there is none.
pub open spec fn start_image(image: Option<Seq<u8>>, mode: OpenMode) -> Option<(Seq<u8>, bool)> {
    match mode {
        OpenMode::ReadOnly => match image {
            Some(d) => Some((d, false)),
            None => None,
        },
        OpenMode::RW => match image {
            Some(d) => Some((d, true)),
            None => None,
        },
        OpenMode::RWCreate => match image {
            Some(d) => Some((d, true)),
            None => Some((Seq::empty(), true)),
        },
        OpenMode::RWReplace => Some((Seq::empty(), true)),
    }
}

/// `t` followed by the result of a parse, where that parse succeeded.
pub open spec fn prepend(t: Seq<u64>, rest: Option<Seq<u64>>) -> Option<Seq<u64>> {
    match rest {
        Some(r) => Some(t + r),
        None => None,
    }
}

/// The page chain read from `d` starting with the page at `off`: pages are read until
/// a next-page link is zero or points at or past the end of the file. None (a corrupt
/// file) where the file ends inside a page, or where a link points back into or before
/// its own page (such a chain could be walked forever).
pub open spec fn parse_chain(d: Seq<u8>, h: nat, off: int) -> Option<Seq<u64>>
    decreases d.len() - off,
{
    if off >= d.len() {
        Some(Seq::empty())
    } else if off + 8 * (h + 1) > d.len() {
        None
    } else {
        let page = words_at(d, off, h + 1);
        let link = page[h as int];
        if link == 0 || link >= d.len() {
            Some(page)
        } else if link < off + 8 * (h + 1) {
            None
        } else {
            prepend(page, parse_chain(d, h, link as int))
        }
    }
}

/// The view of an optional file image.
pub open spec fn image_view(image: Option<Vec<u8>>) -> Option<Seq<u8>> {
    match image {
        Some(v) => Some(v@),
        None => None,
    }
}

/// What opening `image` (the file's contents, none where there is no file) in `mode`
/// with the given sizes gives: `Io` where the file must exist and does not; for a file
/// shorter than the header, `InvalidParameters` unless the sizes are valid, `Io` where
/// it may not be written, else a new empty database whose file is the header; for
/// another file, `CorruptDbFile` unless the magic matches, the stored sizes are valid
/// and the page chain parses, else the database that the file holds.
pub open spec fn open_outcome(
    image: Option<Seq<u8>>,
    mode: OpenMode,
    hash_table_size: u64,
    key_size: u64,
    value_size: u64,
    r: Result<Kissdb, KissdbError>,
) -> bool {
    match start_image(image, mode) {
        None => r == Err::<Kissdb, KissdbError>(KissdbError::Io),
        Some((f0, w)) => if f0.len() < HEADER_SIZE {
            if !sizes_ok(hash_table_size as nat, key_size as nat, value_size as nat) {
                r == Err::<Kissdb, KissdbError>(KissdbError::InvalidParameters)
            } else if !w {
                r == Err::<Kissdb, KissdbError>(KissdbError::Io)
            } else {
                r matches Ok(db) && db.holds(
                    header_bytes(hash_table_size, key_size, value_size),
                    hash_table_size as nat,
                    key_size as nat,
                    value_size as nat,
                    Seq::empty(),
                    w,
                ) && db.sound() && db.n() == 0
            }
        } else if f0.subrange(0, 4) != magic() {
            r == Err::<Kissdb, KissdbError>(KissdbError::CorruptDbFile)
        } else {
            let h = u64_at(f0, 4) as nat;
            let k = u64_at(f0, 12) as nat;
            let v = u64_at(f0, 20) as nat;
            if !sizes_ok(h, k, v) {
                r == Err::<Kissdb, KissdbError>(KissdbError::CorruptDbFile)
            } else {
                match parse_chain(f0, h, HEADER_SIZE as int) {
                    None => r == Err::<Kissdb, KissdbError>(KissdbError::CorruptDbFile),
                    Some(t) => r matches Ok(db) && db.holds(f0, h, k, v, t, w) && db.wf(),
                }
            }
        }
    }
}

/// An open database: the file image and the in-memory mirror of its page chain.
pub struct Kissdb {
    hash_table_size: u64,
    key_size: u64,
    value_size: u64,
    num_hash_tables: u64,
    hash_tables: Vec<u64>,
    f: Vec<u8>,
    writable: bool,
}

impl Kissdb {
    /// Number of buckets per page.
    pub closed spec fn h(&self) -> nat {
        self.hash_table_size as nat
    }

    /// Key length in bytes.
    pub closed spec fn k(&self) -> nat {
        self.key_size as nat
    }

    /// Value length in bytes.
    pub closed spec fn v(&self) -> nat {
        self.value_size as nat
    }

    /// Number of pages in the chain.
    pub closed spec fn n(&self) -> nat {
        self.num_hash_tables as nat
    }

    /// All pages concatenated, each as its buckets followed by its next-page link.
    pub closed spec fn tables(&self) -> Seq<u64> {
        self.hash_tables@
    }

    /// The bytes of the database file.
    pub closed spec fn file(&self) -> Seq<u8> {
        self.f@
    }

    /// Whether the file was opened for writing.
    pub closed spec fn writable(&self) -> bool {
        self.writable
    }

    pub open spec fn page_size(&self) -> nat {
        8 * (self.h() + 1)
    }

    pub open spec fn record_size(&self) -> nat {
        self.k() + self.v()
    }

    pub open spec fn slot(&self, p: int, j: int) -> u64 {
        slot_of(self.tables(), self.h(), p, j)
    }

    pub open spec fn page_off(&self, p: int) -> int {
        page_off_of(self.tables(), self.h(), p)
    }

    /// The bucket that a key hashes to.
    pub open spec fn bucket(&self, key: Seq<u8>) -> int {
        (hash_of(key) as nat % self.h()) as int
    }

    /// The key bytes of the record at offset `r`.
    pub open spec fn rec_key(&self, r: u64) -> Seq<u8> {
        self.file().subrange(r as int, r + self.k())
    }

    /// The value bytes of the record at offset `r`.
    pub open spec fn rec_val(&self, r: u64) -> Seq<u8> {
        self.file().subrange(r + self.k(), r + self.k() + self.v())
    }

    /// The record at offset `r` lies wholly inside the file.
    pub open spec fn rec_ok(&self, r: u64) -> bool {
        r + self.record_size() <= self.file().len()
    }

    /// Looks `key` up in bucket `b` from page `p` on: an empty bucket ends the search,
    /// and so does a record that does not lie wholly inside the file (a short read).
    pub open spec fn lookup_from(&self, p: int, key: Seq<u8>, b: int) -> Option<Seq<u8>>
        decreases self.n() - p,
    {
        if p < 0 || p >= self.n() {
            None
        } else {
            let r = self.slot(p, b);
            if r == 0 || !self.rec_ok(r) {
                None
            } else if self.rec_key(r) == key {
                Some(self.rec_val(r))
            } else {
                self.lookup_from(p + 1, key, b)
            }
        }
    }

    /// The value stored under `key`, if any.
    pub open spec fn lookup(&self, key: Seq<u8>) -> Option<Seq<u8>> {
        if key.len() != self.k() {
            None
        } else {
            self.lookup_from(0, key, self.bucket(key))
        }
    }

    /// The first page from `p` on whose bucket `b` is empty, holds a record that does not
    /// lie wholly inside the file, or holds `key`; `n` where there is none.
    pub open spec fn stop_from(&self, p: int, key: Seq<u8>, b: int) -> int
        decreases self.n() - p,
    {
        if p < 0 || p >= self.n() {
            self.n() as int
        } else {
            let r = self.slot(p, b);
            if r == 0 || !self.rec_ok(r) || self.rec_key(r) == key {
                p
            } else {
                self.stop_from(p + 1, key, b)
            }
        }
    }

    /// The page at which a `put` of `key` stops its scan.
    pub open spec fn put_stop(&self, key: Seq<u8>) -> int {
        self.stop_from(0, key, self.bucket(key))
    }

    /// Every page's bucket for `key` holds a whole record of another key.
    pub open spec fn chain_full(&self, key: Seq<u8>) -> bool {
        forall|p: int|
            0 <= p < self.n() ==> #[trigger] self.slot(p, self.bucket(key)) != 0 && self.rec_ok(
                self.slot(p, self.bucket(key)),
            ) && self.rec_key(self.slot(p, self.bucket(key))) != key
    }

    /// The on-disk invariant of a database that this library wrote: the header holds the
    /// sizes, every page's words are stored at the page's offset, the last next-page link
    /// is zero, an empty bucket stays empty in all later pages, and records lie in the
    /// file past the header, overlapping neither each other nor any page.
    pub open spec fn sound(&self) -> bool {
        &&& self.wf()
        &&& self.file().subrange(0, HEADER_SIZE as int) == header_bytes(
            self.h() as u64,
            self.k() as u64,
            self.v() as u64,
        )
        &&& forall|p: int, j: int|
            0 <= p < self.n() && 0 <= j < self.h() && #[trigger] self.slot(p, j) != 0
                ==> HEADER_SIZE <= self.slot(p, j) && self.rec_ok(self.slot(p, j))
        &&& forall|p: int, j: int|
            0 <= p < self.n() && 0 <= j <= self.h() ==> self.file().subrange(
                self.page_off(p) + 8 * j,
                self.page_off(p) + 8 * j + 8,
            ) == le_bytes(#[trigger] self.slot(p, j))
        &&& self.n() > 0 ==> self.slot(self.n() - 1, self.h() as int) == 0
        &&& forall|p: int, q: int, j: int|
            0 <= p < q < self.n() && 0 <= j < self.h() && #[trigger] self.slot(p, j) == 0
                ==> #[trigger] self.slot(q, j) == 0
        &&& forall|p: int, j: int, q: int|
            0 <= p < self.n() && 0 <= j < self.h() && 0 <= q < self.n() && #[trigger] self.slot(p, j)
                != 0 ==> self.slot(p, j) + self.record_size() <= #[trigger] self.page_off(q)
                || self.page_off(q) + self.page_size() <= self.slot(p, j)
        &&& forall|p: int, j: int, pb: int, jb: int|
            0 <= p < self.n() && 0 <= j < self.h() && 0 <= pb < self.n() && 0 <= jb < self.h() && (p
                != pb || j != jb) && #[trigger] self.slot(p, j) != 0 && #[trigger] self.slot(pb, jb)
                != 0 ==> self.slot(p, j) + self.record_size() <= self.slot(pb, jb) || self.slot(
                pb,
                jb,
            ) + self.record_size() <= self.slot(p, j)
    }

    /// The scan of a `put` of `key` stops at a record that does not lie wholly inside the
    /// file: reading its key fails.
    pub open spec fn put_blocked(&self, key: Seq<u8>) -> bool {
        let stop = self.put_stop(key);
        &&& stop < self.n()
        &&& self.slot(stop, self.bucket(key)) != 0
        &&& !self.rec_ok(self.slot(stop, self.bucket(key)))
    }

    /// The exact change that a successful `put` makes, by where its scan stops: the
    /// value is overwritten in place at a record of `key`; a record is appended and an
    /// empty bucket pointed at it; or a page is appended, followed by the record, and
    /// the previous last page is linked to it.
    pub open spec fn put_effect(&self, next: Kissdb, key: Seq<u8>, value: Seq<u8>) -> bool {
        let stop = self.put_stop(key);
        if stop == self.n() {
            new_page_step(*self, next, key, value)
        } else if self.slot(stop, self.bucket(key)) == 0 {
            insert_step(*self, next, stop, key, value)
        } else {
            overwrite_step(*self, next, stop, key, value)
        }
    }

    /// What a successful `put` of `key` and `value` leaves: the chain grows by a page
    /// exactly when the scan finds no free or matching bucket, the file grows by a page
    /// and a record, by a record when a free bucket is taken, and not at all when the
    /// key's record is overwritten; on a sound database the result is sound and maps
    /// `key` to `value`, every other key as before.
    pub open spec fn put_outcome(&self, next: Kissdb, key: Seq<u8>, value: Seq<u8>) -> bool {
        let stop = self.put_stop(key);
        &&& next.n() == self.n() + if stop == self.n() {
            1nat
        } else {
            0nat
        }
        &&& next.file().len() == self.file().len() + if stop == self.n() {
            self.page_size() + self.record_size()
        } else if self.slot(stop, self.bucket(key)) == 0 {
            self.record_size()
        } else {
            0nat
        }
        &&& self.sound() ==> next.sound() && forall|k: Seq<u8>|
            #[trigger] next.lookup(k) == if k == key {
                Some(value)
            } else {
                self.lookup(k)
            }
    }

    /// The structural invariant of an open database.
    pub open spec fn wf(&self) -> bool {
        layout_ok(self.file(), self.h(), self.k(), self.v(), self.tables(), self.n())
    }
}

/// Whether two byte slices hold the same bytes.
fn same_bytes(a: &[u8], b: &[u8]) -> (r: bool)
    ensures
        r == (a@ == b@),
{
    if a.len() != b.len() {
        return false;
    }
    let mut i: usize = 0;
    while i < a.len()
        invariant
            a@.len() == b@.len(),
            i <= a@.len(),
            a@.subrange(0, i as int) == b@.subrange(0, i as int),
        decreases a@.len() - i,
    {
        if a[i] != b[i] {
            assert(a@.subrange(0, i + 1)[i as int] != b@.subrange(0, i + 1)[i as int]);
            return false;
        }
        assert(a@.subrange(0, i + 1) =~= a@.subrange(0, i as int).push(a@[i as int]));
        assert(b@.subrange(0, i + 1) =~= b@.subrange(0, i as int).push(b@[i as int]));
        i = i + 1;
    }
    assert(a@ =~= a@.subrange(0, i as int));
    assert(b@ =~= b@.subrange(0, i as int));
    true
}

/// Flat indices of (page, slot) pairs with slots below the page width `w`: distinct
/// pairs have distinct indices, and a page's indices lie below those of later pages.
pub proof fn lemma_index(p: int, j: int, q: int, i: int, w: int)
    requires
        0 <= p,
        0 <= q,
        0 <= j < w,
        0 <= i < w,
    ensures
        p * w + j < (p + 1) * w,
        p * w + j >= 0,
        (p != q || j != i) ==> p * w + j != q * w + i,
        p < q ==> p * w + j < q * w,
{
    assert(p * w + j < (p + 1) * w) by (nonlinear_arith)
        requires
            0 <= j < w,
    ;
    assert(p * w >= 0) by (nonlinear_arith)
        requires
            0 <= p,
            0 <= w,
    ;
    if p < q {
        assert((p + 1) * w <= q * w) by (nonlinear_arith)
            requires
                p + 1 <= q,
                0 <= w,
        ;
    }
    if q < p {
        assert(q * w + i < (q + 1) * w) by (nonlinear_arith)
            requires
                0 <= i < w,
        ;
        assert((q + 1) * w <= p * w) by (nonlinear_arith)
            requires
                q + 1 <= p,
                0 <= w,
        ;
    }
}

impl Kissdb {
    /// Returns the value stored under `key`; absent when there is none or when `key`
    /// does not have the key length.
    pub fn kissdb_get(&self, key: &[u8]) -> (r: Option<Vec<u8>>)
        requires
            self.wf(),
        ensures
            match r {
                Some(v) => self.lookup(key@) == Some(v@),
                None => self.lookup(key@) is None,
            },
    {
        if key.len() as u64 != self.key_size {
            return None;
        }
        let h = self.hash_table_size;
        let b = kissdb_hash(key) % h;
        let ghost bi = b as int;
        assert(bi == self.bucket(key@));
        let tl = self.hash_tables.len();
        let fl = self.f.len();
        let rec = self.key_size + self.value_size;
        let mut i: u64 = 0;
        while i < self.num_hash_tables
            invariant
                self.wf(),
                tl == self.tables().len(),
                fl == self.file().len(),
                rec == self.k() + self.v(),
                key@.len() == self.k(),
                h == self.hash_table_size,
                b < h,
                bi == b,
                i <= self.n(),
                self.lookup(key@) == self.lookup_from(i as int, key@, bi),
            decreases self.n() - i,
        {
            proof {
                lemma_index(i as int, bi, 0, 0, h + 1);
                assert((i + 1) * (h + 1) <= self.n() * (h + 1)) by (nonlinear_arith)
                    requires
                        i + 1 <= self.n(),
                        h + 1 >= 0,
                ;
            }
            let r = self.hash_tables[(i * (h + 1) + b) as usize];
            if r == 0 {
                return None;
            }
            assert(r == self.slot(i as int, bi));
            if r > fl as u64 || rec > fl as u64 - r {
                return None;
            }
            let kb = read_at(&self.f, r as usize, self.key_size as usize);
            if same_bytes(kb.as_slice(), key) {
                let vb = read_at(&self.f, (r + self.key_size) as usize, self.value_size as usize);
                return Some(vb);
            }
            i = i + 1;
        }
        None
    }

    /// Stores `value` under `key`: overwrites the value in place where the key is found,
    /// takes the first empty bucket of its chain otherwise, and appends a page when every
    /// page's bucket holds another key.
    pub fn kissdb_put(&mut self, key: &[u8], value: &[u8]) -> (r: Result<(), KissdbError>)
        requires
            old(self).wf(),
            old(self).file().len() + old(self).page_size() + old(self).record_size()
                <= usize::MAX,
        ensures
            final(self).wf(),
            final(self).h() == old(self).h(),
            final(self).k() == old(self).k(),
            final(self).v() == old(self).v(),
            final(self).writable() == old(self).writable(),
            key@.len() != old(self).k() || value@.len() != old(self).v() ==> r == Err::<
                (),
                KissdbError,
            >(KissdbError::InvalidParameters) && *final(self) == *old(self),
            key@.len() == old(self).k() && value@.len() == old(self).v() && !old(self).writable()
                ==> r == Err::<(), KissdbError>(KissdbError::Io) && *final(self) == *old(self),
            key@.len() == old(self).k() && value@.len() == old(self).v() && old(self).writable()
                && old(self).put_blocked(key@) ==> r == Err::<(), KissdbError>(KissdbError::Io)
                && *final(self) == *old(self),
            key@.len() == old(self).k() && value@.len() == old(self).v() && old(self).writable()
                && !old(self).put_blocked(key@) ==> r == Ok::<(), KissdbError>(())
                && old(self).put_effect(*final(self), key@, value@) && old(self).put_outcome(
                *final(self),
                key@,
                value@,
            ),
    {
        if key.len() as u64 != self.key_size || value.len() as u64 != self.value_size {
            return Err(KissdbError::InvalidParameters);
        }
        if !self.writable {
            return Err(KissdbError::Io);
        }
        let h = self.hash_table_size;
        let b = kissdb_hash(key) % h;
        let ghost bi = b as int;
        assert(bi == self.bucket(key@));
        let tl = self.hash_tables.len();
        let fl = self.f.len() as u64;
        let rec = self.key_size + self.value_size;
        let mut last_off: u64 = HEADER_SIZE;
        let mut cur_off: u64 = HEADER_SIZE;
        let mut i: u64 = 0;
        proof {
            reveal(page_off_of);
        }
        while i < self.num_hash_tables
            invariant
                *self == *old(self),
                self.wf(),
                self.writable(),
                self.file().len() + self.page_size() + self.record_size() <= usize::MAX,
                key@.len() == self.k(),
                value@.len() == self.v(),
                h == self.hash_table_size,
                tl == self.tables().len(),
                b < h,
                bi == b,
                bi == self.bucket(key@),
                i <= self.n(),
                cur_off == self.page_off(i as int),
                i > 0 ==> last_off == self.page_off(i - 1),
                fl == self.file().len(),
                rec == self.k() + self.v(),
                forall|q: int|
                    0 <= q < i ==> #[trigger] self.slot(q, bi) != 0 && self.rec_ok(self.slot(q, bi))
                        && self.rec_key(self.slot(q, bi)) != key@,
            decreases self.n() - i,
        {
            proof {
                lemma_index(i as int, bi, self.n() as int, 0, (h + 1) as int);
                lemma_index(i as int, h as int, self.n() as int, 0, (h + 1) as int);
                assert(page_off_of(self.tables(), self.h(), i as int) + 8 * (self.h() + 1)
                    <= self.file().len());
            }
            let idx = i * (h + 1) + b;
            let r = self.hash_tables[idx as usize];
            assert(r == self.slot(i as int, bi));
            if r != 0 {
                if r > fl || rec > fl - r {
                    proof {
                        lemma_skip(*self, 0, i as int, key@, bi);
                    }
                    return Err(KissdbError::Io);
                }
                let kb = read_at(&self.f, r as usize, self.key_size as usize);
                if same_bytes(kb.as_slice(), key) {
                    let off = r + self.key_size;
                    write_at(&mut self.f, off as usize, value);
                    proof {
                        lemma_skip(*old(self), 0, i as int, key@, bi);
                        assert(overwrite_step(*old(self), *self, i as int, key@, value@));
                        lemma_put_overwrite(*old(self), *self, i as int, key@, value@);
                    }
                    return Ok(());
                }
                last_off = cur_off;
                cur_off = self.hash_tables[(i * (h + 1) + h) as usize];
                proof {
                    reveal(page_off_of);
                }
            } else {
                let end = self.f.len() as u64;
                write_at(&mut self.f, end as usize, key);
                write_at(&mut self.f, (end + self.key_size) as usize, value);
                assert(self.f@ =~= old(self).f@ + key@ + value@);
                let eb = encode_u64(end);
                write_at(&mut self.f, (cur_off + 8 * b) as usize, eb.as_slice());
                self.hash_tables.set(idx as usize, end);
                proof {
                    lemma_skip(*old(self), 0, i as int, key@, bi);
                    assert(insert_step(*old(self), *self, i as int, key@, value@));
                    lemma_put_insert(*old(self), *self, i as int, key@, value@);
                }
                return Ok(());
            }
            i = i + 1;
        }
        let end = self.f.len() as u64;
        let ps = 8 * (h + 1);
        let ghost page = new_page(self.h(), bi, (end + ps) as u64);
        let mut t: Vec<u64> = Vec::new();
        let mut j: u64 = 0;
        while j <= h
            invariant
                *self == *old(self),
                self.wf(),
                self.file().len() + self.page_size() + self.record_size() <= usize::MAX,
                key@.len() == self.k(),
                value@.len() == self.v(),
                end == self.file().len(),
                ps == 8 * (h + 1),
                b < h,
                bi == b,
                bi == self.bucket(key@),
                i == self.n(),
                i > 0 ==> last_off == self.page_off(i - 1),
                forall|q: int|
                    0 <= q < i ==> #[trigger] self.slot(q, bi) != 0 && self.rec_ok(self.slot(q, bi))
                        && self.rec_key(self.slot(q, bi)) != key@,
                h == self.hash_table_size,
                sizes_ok(self.h(), self.k(), self.v()),
                j <= h + 1,
                page == new_page(self.h(), bi, (end + ps) as u64),
                t@ == page.subrange(0, j as int),
            decreases h + 1 - j,
        {
            if j == b {
                t.push(end + ps);
            } else {
                t.push(0);
            }
            j = j + 1;
            assert(t@ =~= page.subrange(0, j as int));
        }
        assert(t@ =~= page);
        proof {
            lemma_words_bytes(page);
        }
        write_one_hash_table(&mut self.f, &t);
        write_at(&mut self.f, (end + ps) as usize, key);
        write_at(&mut self.f, (end + ps + self.key_size) as usize, value);
        assert(self.f@ =~= old(self).f@ + words_bytes(page) + key@ + value@);
        let ghost f_mid = self.f@;
        let mut jb: usize = 0;
        while jb < t.len()
            invariant
                self.f@ == f_mid,
                self.num_hash_tables == old(self).num_hash_tables,
                self.hash_table_size == old(self).hash_table_size,
                self.key_size == old(self).key_size,
                self.value_size == old(self).value_size,
                self.writable == old(self).writable,
                self.hash_tables@ == old(self).hash_tables@ + t@.subrange(0, jb as int),
                jb <= t@.len(),
            decreases t@.len() - jb,
        {
            self.hash_tables.push(t[jb]);
            jb = jb + 1;
            assert(self.hash_tables@ =~= old(self).hash_tables@ + t@.subrange(0, jb as int));
        }
        assert(t@.subrange(0, jb as int) =~= t@);
        let n = self.num_hash_tables;
        if n > 0 {
            proof {
                lemma_index((n - 1) as int, h as int, n as int, 0, (h + 1) as int);
                assert(page_off_of(old(self).tables(), self.h(), n - 1) + 8 * (self.h() + 1)
                    <= old(self).file().len());
                assert(n * (h + 1) >= n + 1) by (nonlinear_arith)
                    requires
                        n >= 1,
                        h >= 1,
                ;
            }
            let eb = encode_u64(end);
            write_at(&mut self.f, (last_off + 8 * h) as usize, eb.as_slice());
            self.hash_tables.set(((n - 1) * (h + 1) + h) as usize, end);
        }
        self.num_hash_tables = n + 1;
        proof {
            lemma_skip(*old(self), 0, old(self).n() as int, key@, bi);
            assert(new_page_step(*old(self), *self, key@, value@));
            lemma_put_new_page(*old(self), *self, key@, value@);
        }
        Ok(())
    }

    /// The database holds the given file image, sizes, tables and access.
    pub open spec fn holds(
        &self,
        f: Seq<u8>,
        h: nat,
        k: nat,
        v: nat,
        t: Seq<u64>,
        writable: bool,
    ) -> bool {
        &&& self.file() == f
        &&& self.h() == h
        &&& self.k() == k
        &&& self.v() == v
        &&& self.tables() == t
        &&& self.writable() == writable
    }

    /// Opens a database over `image`, the current contents of its file (none where the
    /// file does not exist). A file shorter than the header is treated as new: the
    /// header is written with the given sizes. Otherwise the sizes come from the header
    /// and the page chain is read from the file; bucket values are taken as read.
    ///
    /// Besides a wrong magic and a page cut short by the end of the file, two more
    /// files give `CorruptDbFile`: one whose stored sizes are zero or too large for a
    /// page and a record to be addressed by a `u64` (bucket indices are taken modulo
    /// the page width), and one where a next-page link points back into or before its
    /// own page (the chain could otherwise be walked forever).
    pub fn kissdb_open(
        image: Option<Vec<u8>>,
        mode: OpenMode,
        hash_table_size: u64,
        key_size: u64,
        value_size: u64,
    ) -> (r: Result<Kissdb, KissdbError>)
        ensures
            open_outcome(image_view(image), mode, hash_table_size, key_size, value_size, r),
    {
        let (mut f, writable) = match mode {
            OpenMode::ReadOnly => match image {
                Some(d) => (d, false),
                None => {
                    return Err(KissdbError::Io);
                },
            },
            OpenMode::RW => match image {
                Some(d) => (d, true),
                None => {
                    return Err(KissdbError::Io);
                },
            },
            OpenMode::RWCreate => match image {
                Some(d) => (d, true),
                None => (Vec::new(), true),
            },
            OpenMode::RWReplace => (Vec::new(), true),
        };
        let ghost f0 = f@;
        let len = f.len() as u64;
        if len < HEADER_SIZE {
            if !(hash_table_size > 0 && key_size > 0 && value_size > 0 && hash_table_size <= (
            u64::MAX - HEADER_SIZE) / 8 - 1 && key_size <= u64::MAX - HEADER_SIZE - 8 * (
            hash_table_size + 1) && value_size <= u64::MAX - HEADER_SIZE - 8 * (hash_table_size
                + 1) - key_size) {
                return Err(KissdbError::InvalidParameters);
            }
            if !writable {
                return Err(KissdbError::Io);
            }
            let mut hd: Vec<u8> = vec![0x4bu8, 0x64u8, 0x52u8, VERSION];
            let e1 = encode_u64(hash_table_size);
            let e2 = encode_u64(key_size);
            let e3 = encode_u64(value_size);
            write_at(&mut hd, 4, e1.as_slice());
            write_at(&mut hd, 12, e2.as_slice());
            write_at(&mut hd, 20, e3.as_slice());
            assert(hd@ =~= header_bytes(hash_table_size, key_size, value_size));
            write_at(&mut f, 0, hd.as_slice());
            assert(f@ =~= header_bytes(hash_table_size, key_size, value_size));
            let db = Kissdb {
                hash_table_size,
                key_size,
                value_size,
                num_hash_tables: 0,
                hash_tables: Vec::new(),
                f,
                writable,
            };
            assert(db.file().subrange(0, 28) =~= db.file());
            return Ok(db);
        }
        if !(f[0] == 0x4bu8 && f[1] == 0x64u8 && f[2] == 0x52u8 && f[3] == VERSION) {
            assert(f@.subrange(0, 4) != magic()) by {
                let m = f@.subrange(0, 4);
                assert(m[0] == f@[0] && m[1] == f@[1] && m[2] == f@[2] && m[3] == f@[3]);
            }
            return Err(KissdbError::CorruptDbFile);
        }
        assert(f@.subrange(0, 4) =~= magic());
        let h = read_u64_at(&f, 4);
        let k = read_u64_at(&f, 12);
        let v = read_u64_at(&f, 20);
        if !(h > 0 && k > 0 && v > 0 && h <= (u64::MAX - HEADER_SIZE) / 8 - 1 && k <= u64::MAX
            - HEADER_SIZE - 8 * (h + 1) && v <= u64::MAX - HEADER_SIZE - 8 * (h + 1) - k) {
            return Err(KissdbError::CorruptDbFile);
        }
        proof {
            lemma_bytes_of_value(f@.subrange(4, 12));
            lemma_bytes_of_value(f@.subrange(12, 20));
            lemma_bytes_of_value(f@.subrange(20, 28));
            assert(f@.subrange(0, 28) =~= f@.subrange(0, 4) + f@.subrange(4, 12) + f@.subrange(
                12,
                20,
            ) + f@.subrange(20, 28));
        }
        let ps = 8 * (h + 1);
        let mut t: Vec<u64> = Vec::new();
        let mut n: u64 = 0;
        let mut off: u64 = HEADER_SIZE;
        let ghost hn = h as nat;
        proof {
            reveal(page_off_of);
        }
        loop
            invariant_except_break
                parse_chain(f@, hn, HEADER_SIZE as int) == prepend(
                    t@,
                    parse_chain(f@, hn, off as int),
                ),
                n == 0 ==> off == HEADER_SIZE,
                off == page_off_of(t@, hn, n as int),
                n > 0 ==> page_off_of(t@, hn, n - 1) + ps <= off,
            invariant
                start_image(image_view(image), mode) == Some((f0, writable)),
                f0.subrange(0, 4) == magic(),
                h == u64_at(f0, 4),
                k == u64_at(f0, 12),
                v == u64_at(f0, 20),
                f@ == f0,
                len == f@.len(),
                f@.len() <= usize::MAX,
                len >= HEADER_SIZE,
                sizes_ok(hn, k as nat, v as nat),
                hn == h,
                ps == 8 * (h + 1),
                f@.subrange(0, 28) == header_bytes(h, k, v),
                off >= HEADER_SIZE,
                t@.len() == n * (h + 1),
                forall|p: int|
                    0 <= p < n ==> HEADER_SIZE <= #[trigger] page_off_of(t@, hn, p) && page_off_of(
                        t@,
                        hn,
                        p,
                    ) + 8 * (hn + 1) <= f@.len(),
                forall|p: int, q: int|
                    0 <= p < q < n ==> #[trigger] page_off_of(t@, hn, p) + 8 * (hn + 1)
                        <= #[trigger] page_off_of(t@, hn, q),
            ensures
                parse_chain(f@, hn, HEADER_SIZE as int) == Some(t@),
                n == 0 ==> len == HEADER_SIZE,
            decreases f@.len() - off,
        {
            let page = match read_one_hash_table(&f, off, h, ps) {
                Err(e) => {
                    assert(parse_chain(f@, hn, off as int) is None);
                    return Err(e);
                },
                Ok(None) => {
                    assert(parse_chain(f@, hn, off as int) == Some(Seq::<u64>::empty()));
                    assert(t@ + Seq::<u64>::empty() =~= t@);
                    break ;
                },
                Ok(Some(page)) => page,
            };
            let link = page[h as usize];
            let ghost t0 = t@;
            proof {
                lemma_slots_push(t0, page@, hn, n as nat);
                assert forall|p: int| 0 <= p <= n implies #[trigger] page_off_of(
                    t0 + page@,
                    hn,
                    p,
                ) == page_off_of(t0, hn, p) by {
                    reveal(page_off_of);
                }
            }
            let mut j: usize = 0;
            while j < page.len()
                invariant
                    t@ == t0 + page@.subrange(0, j as int),
                    j <= page@.len(),
                decreases page@.len() - j,
            {
                t.push(page[j]);
                j = j + 1;
                assert(t@ =~= t0 + page@.subrange(0, j as int));
            }
            assert(page@.subrange(0, j as int) =~= page@);
            let tl = t.len();
            proof {
                assert((n + 1) * (h + 1) == n * (h + 1) + (h + 1)) by (nonlinear_arith);
                assert((n + 1) * (h + 1) >= n + 1) by (nonlinear_arith)
                    requires
                        h >= 0,
                        n >= 0,
                ;
                assert forall|p: int| 0 <= p < n + 1 implies HEADER_SIZE <= #[trigger] page_off_of(
                    t@,
                    hn,
                    p,
                ) && page_off_of(t@, hn, p) + 8 * (hn + 1) <= f@.len() by {
                    assert(page_off_of(t@, hn, p) == page_off_of(t0, hn, p));
                }
                assert forall|p: int, q: int| 0 <= p < q < n + 1 implies #[trigger] page_off_of(
                    t@,
                    hn,
                    p,
                ) + 8 * (hn + 1) <= #[trigger] page_off_of(t@, hn, q) by {
                    assert(page_off_of(t@, hn, p) == page_off_of(t0, hn, p));
                    assert(page_off_of(t@, hn, q) == page_off_of(t0, hn, q));
                    if q == n && p < n - 1 {
                        assert(page_off_of(t0, hn, p) + 8 * (hn + 1) <= page_off_of(t0, hn, n - 1));
                    }
                }
                assert forall|p: int| 0 <= p < n + 1 implies HEADER_SIZE <= #[trigger] page_off_of(
                    t@,
                    hn,
                    p,
                ) && page_off_of(t@, hn, p) + 8 * (hn + 1) <= f@.len() by {
                    assert(page_off_of(t@, hn, p) == page_off_of(t0, hn, p));
                }
                assert forall|p: int, q: int| 0 <= p < q < n + 1 implies #[trigger] page_off_of(
                    t@,
                    hn,
                    p,
                ) + 8 * (hn + 1) <= #[trigger] page_off_of(t@, hn, q) by {
                    assert(page_off_of(t@, hn, p) == page_off_of(t0, hn, p));
                    assert(page_off_of(t@, hn, q) == page_off_of(t0, hn, q));
                    if q == n && p < n - 1 {
                        assert(page_off_of(t0, hn, p) + 8 * (hn + 1) <= page_off_of(t0, hn, n - 1));
                    }
                }
            }
            let ghost old_off = off;
            n = n + 1;
            if link == 0 || link >= len {
                assert(parse_chain(f@, hn, off as int) == Some(page@));
                assert(t0 + page@ + Seq::<u64>::empty() =~= t0 + page@);
                break ;
            }
            if link < off + ps {
                assert(parse_chain(f@, hn, off as int) is None);
                return Err(KissdbError::CorruptDbFile);
            }
            assert(parse_chain(f@, hn, off as int) == prepend(
                page@,
                parse_chain(f@, hn, link as int),
            ));
            assert(t0 + (page@ + parse_chain(f@, hn, link as int)->0) =~= t0 + page@
                + parse_chain(f@, hn, link as int)->0);
            proof {
                reveal(page_off_of);
                assert(slot_of(t@, hn, n - 1, hn as int) == page@[hn as int]);
                assert(page_off_of(t@, hn, n - 1) == old_off);
            }
            off = link;
        }
        Ok(Kissdb { hash_table_size: h, key_size: k, value_size: v, num_hash_tables: n, hash_tables: t, f, writable })
    }

    /// Number of buckets per page.
    pub fn hash_table_size(&self) -> (r: u64)
        ensures
            r == self.h(),
    {
        self.hash_table_size
    }

    /// Key length in bytes.
    pub fn key_size(&self) -> (r: u64)
        ensures
            r == self.k(),
    {
        self.key_size
    }

    /// Value length in bytes.
    pub fn value_size(&self) -> (r: u64)
        ensures
            r == self.v(),
    {
        self.value_size
    }

    /// Number of pages in the chain.
    pub fn num_hash_tables(&self) -> (r: u64)
        ensures
            r == self.n(),
    {
        self.num_hash_tables
    }

    /// The current bytes of the database file.
    pub fn file_bytes(&self) -> (r: &[u8])
        ensures
            r@ == self.file(),
    {
        self.f.as_slice()
    }

    /// Closes the database, handing back the final bytes of its file.
    pub fn kissdb_close(self) -> (r: Vec<u8>)
        ensures
            r@ == self.file(),
    {
        self.f
    }
}

} // verus!

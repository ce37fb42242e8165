use kissdb::error::KissdbError;
use kissdb::hash::kissdb_hash;
use kissdb::store::{Kissdb, OpenMode};

fn fresh(h: u64, k: u64, v: u64) -> Kissdb {
    Kissdb::kissdb_open(None, OpenMode::RWReplace, h, k, v).unwrap()
}

fn key_of(i: u64) -> Vec<u8> {
    i.to_le_bytes().to_vec()
}

fn fill_and_check(db: &mut Kissdb, count: u64) {
    let mut last_len = db.file_bytes().len();
    for i in 0..count {
        let value = vec![(i % 256) as u8; 8];
        let key = key_of(i);
        assert_eq!(db.kissdb_put(&key, &value), Ok(()));
        let got = db.kissdb_get(&key).unwrap();
        assert_eq!(got, value);
        let len = db.file_bytes().len();
        assert!(len >= last_len);
        last_len = len;
    }
}

#[test]
fn original_test() {
    let mut db = fresh(1024, 8, 8);
    fill_and_check(&mut db, 10000);
    for i in 0..10000u64 {
        let got = db.kissdb_get(&key_of(i)).unwrap();
        for j in 0..8 {
            assert_eq!(got[j], i as u8);
        }
    }
    let image = db.kissdb_close();
    let db = Kissdb::kissdb_open(Some(image), OpenMode::ReadOnly, 1024, 8, 8).unwrap();
    for i in 0..10000u64 {
        let got = db.kissdb_get(&key_of(i)).unwrap();
        for j in 0..8 {
            assert_eq!(got[j], i as u8);
        }
    }
}

#[test]
fn ten_thousand_puts_reopened_read_only() {
    let mut db = fresh(1024, 8, 8);
    fill_and_check(&mut db, 10000);
    let image = db.kissdb_close();
    let db = Kissdb::kissdb_open(Some(image), OpenMode::ReadOnly, 1, 2, 3).unwrap();
    assert_eq!(db.hash_table_size(), 1024);
    assert_eq!(db.key_size(), 8);
    assert_eq!(db.value_size(), 8);
    for i in 0..10000u64 {
        assert_eq!(db.kissdb_get(&key_of(i)), Some(vec![(i % 256) as u8; 8]));
    }
}

#[test]
fn overwrite_in_two_bucket_table() {
    // "a" and "b" fall in different buckets of a two-bucket page
    assert_ne!(kissdb_hash(b"a") % 2, kissdb_hash(b"b") % 2);
    let mut db = fresh(2, 1, 1);
    assert_eq!(db.kissdb_put(b"a", b"1"), Ok(()));
    assert_eq!(db.kissdb_put(b"b", b"2"), Ok(()));
    assert_eq!(db.kissdb_put(b"a", b"9"), Ok(()));
    assert_eq!(db.kissdb_get(b"a"), Some(b"9".to_vec()));
    assert_eq!(db.kissdb_get(b"b"), Some(b"2".to_vec()));
    assert_eq!(db.kissdb_get(b"c"), None);
    assert_eq!(db.num_hash_tables(), 1);
    // header, one page of three words, two records
    assert_eq!(db.file_bytes().len(), 28 + 24 + 2 + 2);
}

#[test]
fn overwrite_with_colliding_keys() {
    // "a" and "c" fall in the same bucket of a two-bucket page
    assert_eq!(kissdb_hash(b"a") % 2, kissdb_hash(b"c") % 2);
    let mut db = fresh(2, 1, 1);
    assert_eq!(db.kissdb_put(b"a", b"1"), Ok(()));
    assert_eq!(db.kissdb_put(b"c", b"2"), Ok(()));
    assert_eq!(db.kissdb_put(b"a", b"9"), Ok(()));
    assert_eq!(db.kissdb_get(b"a"), Some(b"9".to_vec()));
    assert_eq!(db.kissdb_get(b"c"), Some(b"2".to_vec()));
    assert_eq!(db.kissdb_get(b"b"), None);
    assert_eq!(db.num_hash_tables(), 2);
}

#[test]
fn chaining_with_one_bucket() {
    let mut db = fresh(1, 1, 1);
    assert_eq!(db.kissdb_put(b"a", b"1"), Ok(()));
    assert_eq!(db.num_hash_tables(), 1);
    assert_eq!(db.kissdb_put(b"b", b"2"), Ok(()));
    assert_eq!(db.num_hash_tables(), 2);
    assert_eq!(db.kissdb_get(b"a"), Some(b"1".to_vec()));
    assert_eq!(db.kissdb_get(b"b"), Some(b"2".to_vec()));
    // the first page links to the second, which follows the first record
    let f = db.file_bytes();
    assert_eq!(&f[28..36], &(28u64 + 16).to_le_bytes());
    assert_eq!(&f[36..44], &46u64.to_le_bytes());
    assert_eq!(&f[46..54], &(46u64 + 16).to_le_bytes());
    assert_eq!(&f[54..62], &0u64.to_le_bytes());
}

#[test]
fn wrong_value_size_leaves_store_usable() {
    let mut db = fresh(4, 1, 1);
    let before = db.file_bytes().to_vec();
    assert_eq!(db.kissdb_put(b"x", b"ab"), Err(KissdbError::InvalidParameters));
    assert_eq!(db.file_bytes(), &before[..]);
    assert_eq!(db.kissdb_put(b"x", b"a"), Ok(()));
    assert_eq!(db.kissdb_get(b"x"), Some(b"a".to_vec()));
}

#[test]
fn old_version_magic_is_corrupt() {
    let mut image = vec![0u8; 100];
    image[..4].copy_from_slice(b"KdR\x00");
    let r = Kissdb::kissdb_open(Some(image), OpenMode::RW, 4, 1, 1);
    assert!(matches!(r, Err(KissdbError::CorruptDbFile)));
}

#[test]
fn hash_values() {
    assert_eq!(kissdb_hash(b""), 5381);
    assert_eq!(kissdb_hash(b"a"), 5381 * 33 + 97);
    assert_eq!(kissdb_hash(b"ab"), (5381 * 33 + 97) * 33 + 98);
    let long = vec![0xffu8; 64];
    let mut h: u64 = 5381;
    for b in &long {
        h = h.wrapping_mul(33).wrapping_add(*b as u64);
    }
    assert_eq!(kissdb_hash(&long), h);
}

#[test]
fn new_file_gets_header() {
    let db = fresh(3, 2, 5);
    let mut expected = b"KdR\x01".to_vec();
    expected.extend_from_slice(&3u64.to_le_bytes());
    expected.extend_from_slice(&2u64.to_le_bytes());
    expected.extend_from_slice(&5u64.to_le_bytes());
    assert_eq!(db.file_bytes(), &expected[..]);
    assert_eq!(db.num_hash_tables(), 0);
    assert_eq!(db.kissdb_get(b"ab"), None);
}

#[test]
fn open_modes() {
    assert!(matches!(
        Kissdb::kissdb_open(None, OpenMode::ReadOnly, 1, 1, 1),
        Err(KissdbError::Io)
    ));
    assert!(matches!(Kissdb::kissdb_open(None, OpenMode::RW, 1, 1, 1), Err(KissdbError::Io)));
    let db = Kissdb::kissdb_open(None, OpenMode::RWCreate, 1, 1, 1).unwrap();
    assert_eq!(db.file_bytes().len(), 28);
    let mut db = fresh(2, 1, 1);
    assert_eq!(db.kissdb_put(b"a", b"1"), Ok(()));
    let image = db.kissdb_close();
    let db = Kissdb::kissdb_open(Some(image.clone()), OpenMode::RWCreate, 9, 9, 9).unwrap();
    assert_eq!(db.kissdb_get(b"a"), Some(b"1".to_vec()));
    let db = Kissdb::kissdb_open(Some(image), OpenMode::RWReplace, 2, 1, 1).unwrap();
    assert_eq!(db.kissdb_get(b"a"), None);
    assert_eq!(db.file_bytes().len(), 28);
}

#[test]
fn new_file_needs_positive_sizes() {
    for (h, k, v) in [(0, 1, 1), (1, 0, 1), (1, 1, 0)] {
        assert!(matches!(
            Kissdb::kissdb_open(None, OpenMode::RWReplace, h, k, v),
            Err(KissdbError::InvalidParameters)
        ));
    }
}

#[test]
fn short_file_read_only_cannot_get_header() {
    let r = Kissdb::kissdb_open(Some(vec![1, 2, 3]), OpenMode::ReadOnly, 1, 1, 1);
    assert!(matches!(r, Err(KissdbError::Io)));
    let db = Kissdb::kissdb_open(Some(vec![1, 2, 3]), OpenMode::RW, 1, 1, 1).unwrap();
    assert_eq!(&db.file_bytes()[..4], b"KdR\x01");
    assert_eq!(db.file_bytes().len(), 28);
}

#[test]
fn put_on_read_only_is_io_error() {
    let mut db = fresh(2, 1, 1);
    assert_eq!(db.kissdb_put(b"a", b"1"), Ok(()));
    let image = db.kissdb_close();
    let mut db = Kissdb::kissdb_open(Some(image.clone()), OpenMode::ReadOnly, 2, 1, 1).unwrap();
    assert_eq!(db.kissdb_put(b"a", b"2"), Err(KissdbError::Io));
    assert_eq!(db.file_bytes(), &image[..]);
    assert_eq!(db.kissdb_get(b"a"), Some(b"1".to_vec()));
}

#[test]
fn wrong_key_size() {
    let mut db = fresh(2, 2, 1);
    assert_eq!(db.kissdb_put(b"a", b"1"), Err(KissdbError::InvalidParameters));
    assert_eq!(db.kissdb_put(b"abc", b"1"), Err(KissdbError::InvalidParameters));
    assert_eq!(db.kissdb_put(b"ab", b"1"), Ok(()));
    assert_eq!(db.kissdb_get(b"a"), None);
    assert_eq!(db.kissdb_get(b"abc"), None);
    assert_eq!(db.kissdb_get(b"ab"), Some(b"1".to_vec()));
}

#[test]
fn identical_reput_appends_nothing() {
    let mut db = fresh(4, 1, 1);
    assert_eq!(db.kissdb_put(b"k", b"v"), Ok(()));
    let len = db.file_bytes().len();
    let pages = db.num_hash_tables();
    assert_eq!(db.kissdb_put(b"k", b"v"), Ok(()));
    assert_eq!(db.file_bytes().len(), len);
    assert_eq!(db.num_hash_tables(), pages);
    assert_eq!(db.kissdb_get(b"k"), Some(b"v".to_vec()));
}

#[test]
fn pages_never_shrink() {
    let mut db = fresh(3, 2, 2);
    let mut pages = db.num_hash_tables();
    for i in 0..200u16 {
        let key = i.to_le_bytes();
        assert_eq!(db.kissdb_put(&key, &key), Ok(()));
        let now = db.num_hash_tables();
        assert!(now == pages || now == pages + 1);
        pages = now;
    }
    for i in 0..200u16 {
        let key = i.to_le_bytes();
        assert_eq!(db.kissdb_get(&key), Some(key.to_vec()));
    }
}

#[test]
fn header_sizes_override_caller() {
    let db = fresh(7, 3, 4);
    let image = db.kissdb_close();
    let db = Kissdb::kissdb_open(Some(image), OpenMode::RW, 100, 100, 100).unwrap();
    assert_eq!(
        (db.hash_table_size(), db.key_size(), db.value_size()),
        (7, 3, 4)
    );
}

#[test]
fn truncated_page_is_corrupt() {
    let mut db = fresh(2, 1, 1);
    assert_eq!(db.kissdb_put(b"a", b"1"), Ok(()));
    let mut image = db.kissdb_close();
    image.truncate(28 + 10);
    let r = Kissdb::kissdb_open(Some(image), OpenMode::RW, 2, 1, 1);
    assert!(matches!(r, Err(KissdbError::CorruptDbFile)));
}

#[test]
fn record_past_end_reads_as_absent() {
    let mut db = fresh(2, 1, 1);
    assert_eq!(db.kissdb_put(b"a", b"1"), Ok(()));
    let mut image = db.kissdb_close();
    image.truncate(image.len() - 1);
    let mut db = Kissdb::kissdb_open(Some(image.clone()), OpenMode::RW, 2, 1, 1).unwrap();
    assert_eq!(db.num_hash_tables(), 1);
    assert_eq!(db.kissdb_get(b"a"), None);
    assert_eq!(db.kissdb_put(b"a", b"2"), Err(KissdbError::Io));
    assert_eq!(db.file_bytes(), &image[..]);
    // a key of the other bucket is unaffected
    assert_eq!(db.kissdb_put(b"b", b"3"), Ok(()));
    assert_eq!(db.kissdb_get(b"b"), Some(b"3".to_vec()));
}

#[test]
fn bucket_past_end_of_file_opens() {
    let mut image = b"KdR\x01".to_vec();
    for x in [1u64, 1, 1, 1000, 0] {
        image.extend_from_slice(&x.to_le_bytes());
    }
    assert_eq!(image.len(), 44);
    let mut db = Kissdb::kissdb_open(Some(image), OpenMode::RW, 1, 1, 1).unwrap();
    assert_eq!(db.num_hash_tables(), 1);
    assert_eq!(db.kissdb_get(b"a"), None);
    assert_eq!(db.kissdb_put(b"a", b"1"), Err(KissdbError::Io));
}

#[test]
fn three_puts_exact_image() {
    let mut db = fresh(2, 1, 1);
    assert_eq!(db.kissdb_put(b"a", b"1"), Ok(()));
    assert_eq!(db.kissdb_put(b"b", b"2"), Ok(()));
    assert_eq!(db.kissdb_put(b"a", b"9"), Ok(()));
    let mut expected = b"KdR\x01".to_vec();
    for x in [2u64, 1, 1, 52, 54, 0] {
        expected.extend_from_slice(&x.to_le_bytes());
    }
    expected.extend_from_slice(b"a9b2");
    assert_eq!(db.file_bytes(), &expected[..]);
}

#[test]
fn colliding_puts_exact_layout() {
    let mut db = fresh(2, 1, 1);
    assert_eq!(db.kissdb_put(b"a", b"1"), Ok(()));
    assert_eq!(db.kissdb_put(b"c", b"2"), Ok(()));
    assert_eq!(db.kissdb_put(b"a", b"9"), Ok(()));
    let f = db.file_bytes();
    assert_eq!(f.len(), 80);
    assert_eq!(&f[52..54], b"a9");
    assert_eq!(&f[44..52], &54u64.to_le_bytes());
    assert_eq!(&f[54..62], &78u64.to_le_bytes());
    assert_eq!(&f[78..80], b"c2");
}

#[test]
fn backward_link_is_corrupt() {
    let mut db = fresh(1, 1, 1);
    assert_eq!(db.kissdb_put(b"a", b"1"), Ok(()));
    assert_eq!(db.kissdb_put(b"b", b"2"), Ok(()));
    let mut image = db.kissdb_close();
    // make the second page link back to the first
    image[54..62].copy_from_slice(&28u64.to_le_bytes());
    let r = Kissdb::kissdb_open(Some(image), OpenMode::RW, 1, 1, 1);
    assert!(matches!(r, Err(KissdbError::CorruptDbFile)));
}

#[test]
fn zero_size_in_header_is_corrupt() {
    let db = fresh(2, 1, 1);
    let mut image = db.kissdb_close();
    image[4..12].copy_from_slice(&0u64.to_le_bytes());
    let r = Kissdb::kissdb_open(Some(image), OpenMode::RW, 2, 1, 1);
    assert!(matches!(r, Err(KissdbError::CorruptDbFile)));
}

#[test]
fn last_put_wins_over_rounds() {
    let mut db = fresh(5, 1, 2);
    for round in 0..4u8 {
        for k in 0..40u8 {
            if (k as u32 + round as u32) % 3 != 0 {
                assert_eq!(db.kissdb_put(&[k], &[k, round]), Ok(()));
            }
        }
    }
    for k in 0..40u8 {
        let last = (0..4u8).rev().find(|r| (k as u32 + *r as u32) % 3 != 0);
        assert_eq!(db.kissdb_get(&[k]), last.map(|r| vec![k, r]));
    }
    assert_eq!(db.kissdb_get(&[200]), None);
}

use prefix_postings::builder::WordPrefixIntegerDocids;
use prefix_postings::docids::{union, DocIdSet};
use prefix_postings::errors::{Error, Source};
use prefix_postings::keys::{decode_key, encode_key, valid_key};
use prefix_postings::sorter::MergeSorter;
use prefix_postings::store::PostingsStore;

fn ids(v: Vec<u32>) -> DocIdSet {
    DocIdSet::try_from_vec(v).unwrap()
}

fn key(word: &str, pos: u16) -> Vec<u8> {
    encode_key(&word.as_bytes().to_vec(), pos)
}

fn word_store(rows: Vec<(&str, u16, Vec<u32>)>) -> PostingsStore {
    let mut s = PostingsStore::new();
    for (w, pos, v) in rows {
        s.insert(key(w, pos), ids(v));
    }
    s
}

fn got(b: &WordPrefixIntegerDocids, word: &str, pos: u16) -> Option<Vec<u32>> {
    b.prefix_database.get(&key(word, pos)).map(|d| d.ids().clone())
}

#[test]
fn scenario_new_prefix_rebuild() {
    let word_db = word_store(vec![("cat", 0, vec![1, 2]), ("car", 0, vec![3])]);
    let mut b = WordPrefixIntegerDocids::new(PostingsStore::new(), word_db);
    b.execute(&vec![], &vec![b"ca".to_vec()], &vec![], &vec![]).unwrap();
    assert_eq!(got(&b, "ca", 0), Some(vec![1, 2, 3]));
}

#[test]
fn scenario_deleted_prefix() {
    let mut prefix_db = PostingsStore::new();
    prefix_db.insert(key("ca", 0), ids(vec![1, 2, 3]));
    let mut b = WordPrefixIntegerDocids::new(prefix_db, PostingsStore::new());
    b.execute(&vec![], &vec![], &vec![], &vec![b"ca".to_vec()]).unwrap();
    assert_eq!(got(&b, "ca", 0), None);
    assert_eq!(b.prefix_database.len(), 0);
}

#[test]
fn scenario_common_prefix_delta() {
    let mut prefix_db = PostingsStore::new();
    prefix_db.insert(key("c", 0), ids(vec![1, 2, 3]));
    let changed = vec![(key("cat", 0), ids(vec![4]))];
    let groups = vec![vec![b"c".to_vec()]];
    let mut b = WordPrefixIntegerDocids::new(prefix_db, PostingsStore::new());
    b.execute(&changed, &vec![], &groups, &vec![]).unwrap();
    assert_eq!(got(&b, "c", 0), Some(vec![1, 2, 3, 4]));
}

#[test]
fn scenario_validity_guard() {
    // A prefix so long that its encoded key exceeds the store's key bound:
    // the row for it is silently dropped, the short prefix's row is kept.
    let long_prefix = vec![b'c'; 600];
    let mut long_word = long_prefix.clone();
    long_word.push(b'x');
    let changed = vec![(encode_key(&long_word, 0), ids(vec![9]))];
    let groups = vec![vec![b"c".to_vec(), long_prefix.clone()]];
    let mut b = WordPrefixIntegerDocids::new(PostingsStore::new(), PostingsStore::new());
    b.execute(&changed, &vec![], &groups, &vec![]).unwrap();
    assert_eq!(got(&b, "c", 0), Some(vec![9]));
    assert!(b.prefix_database.get(&encode_key(&long_prefix, 0)).is_none());
    assert_eq!(b.prefix_database.len(), 1);
}

#[test]
fn guard_bounds() {
    assert!(!valid_key(&vec![]));
    assert!(valid_key(&vec![0u8; 1]));
    assert!(valid_key(&vec![0u8; 511]));
    assert!(!valid_key(&vec![0u8; 512]));
}

#[test]
fn merge_through_sorter_unions() {
    let mut sorter = MergeSorter::new();
    sorter.insert(key("ca", 0), ids(vec![1, 3]));
    sorter.insert(key("ca", 0), ids(vec![2, 3]));
    let mut store = PostingsStore::new();
    store.merge_load(sorter);
    assert_eq!(store.get(&key("ca", 0)).map(|d| d.ids().clone()), Some(vec![1, 2, 3]));
}

#[test]
fn group_matching_multiple_prefixes() {
    let changed = vec![(key("cat", 0), ids(vec![7]))];
    let groups = vec![vec![b"c".to_vec(), b"ca".to_vec()]];
    let mut b = WordPrefixIntegerDocids::new(PostingsStore::new(), PostingsStore::new());
    b.execute(&changed, &vec![], &groups, &vec![]).unwrap();
    assert_eq!(got(&b, "c", 0), Some(vec![7]));
    assert_eq!(got(&b, "ca", 0), Some(vec![7]));
}

#[test]
fn idempotent_second_run() {
    let word_db = word_store(vec![("cat", 0, vec![1, 2]), ("car", 3, vec![3])]);
    let changed = vec![(key("cat", 0), ids(vec![1, 2])), (key("car", 3, ), ids(vec![3]))];
    let groups = vec![vec![b"c".to_vec(), b"ca".to_vec()]];
    let mut b = WordPrefixIntegerDocids::new(PostingsStore::new(), word_db);
    b.execute(&changed, &vec![b"car".to_vec()], &groups, &vec![]).unwrap();
    let after_first: Vec<Option<Vec<u32>>> =
        vec![got(&b, "c", 0), got(&b, "ca", 0), got(&b, "c", 3), got(&b, "car", 3)];
    let len_first = b.prefix_database.len();
    // The dictionary has not changed: the second run sees no new and no
    // deleted prefixes.
    b.execute(&changed, &vec![], &groups, &vec![]).unwrap();
    let after_second: Vec<Option<Vec<u32>>> =
        vec![got(&b, "c", 0), got(&b, "ca", 0), got(&b, "c", 3), got(&b, "car", 3)];
    assert_eq!(after_first, after_second);
    assert_eq!(len_first, b.prefix_database.len());
    assert_eq!(got(&b, "c", 0), Some(vec![1, 2]));
    assert_eq!(got(&b, "ca", 0), Some(vec![1, 2]));
    assert_eq!(got(&b, "c", 3), Some(vec![3]));
    assert_eq!(got(&b, "car", 3), Some(vec![3]));
}

#[test]
fn deletion_keeps_other_prefixes() {
    let mut prefix_db = PostingsStore::new();
    prefix_db.insert(key("ca", 0), ids(vec![1]));
    prefix_db.insert(key("cb", 0), ids(vec![2]));
    let mut b = WordPrefixIntegerDocids::new(prefix_db, PostingsStore::new());
    b.execute(&vec![], &vec![], &vec![], &vec![b"ca".to_vec()]).unwrap();
    assert_eq!(got(&b, "ca", 0), None);
    assert_eq!(got(&b, "cb", 0), Some(vec![2]));
}

#[test]
fn malformed_changed_key_fails() {
    let changed = vec![(vec![b'x', 0u8], ids(vec![1]))];
    let groups = vec![vec![b"x".to_vec()]];
    let mut b = WordPrefixIntegerDocids::new(PostingsStore::new(), PostingsStore::new());
    let r = b.execute(&changed, &vec![], &groups, &vec![]);
    assert_eq!(r, Err(Error::Decoding(Source::ChangedPostings)));
}

#[test]
fn malformed_changed_key_ignored_without_groups() {
    // With no common-prefix groups the change stream is never read, so a
    // malformed key in it is not observed.
    let changed = vec![(vec![b'x', 0u8], ids(vec![1]))];
    let mut b = WordPrefixIntegerDocids::new(PostingsStore::new(), PostingsStore::new());
    assert_eq!(b.execute(&changed, &vec![], &vec![], &vec![]), Ok(()));
}

#[test]
fn malformed_word_key_fails() {
    let mut word_db = PostingsStore::new();
    word_db.insert(vec![b'a', b'b'], ids(vec![1]));
    let mut b = WordPrefixIntegerDocids::new(PostingsStore::new(), word_db);
    let r = b.execute(&vec![], &vec![b"a".to_vec()], &vec![], &vec![]);
    assert_eq!(r, Err(Error::Decoding(Source::WordPostings)));
}

#[test]
fn malformed_prefix_key_fails_and_leaves_store() {
    let mut prefix_db = PostingsStore::new();
    prefix_db.insert(vec![b'z'], ids(vec![5]));
    let mut b = WordPrefixIntegerDocids::new(prefix_db, PostingsStore::new());
    let r = b.execute(&vec![], &vec![], &vec![], &vec![b"q".to_vec()]);
    assert_eq!(r, Err(Error::Decoding(Source::PrefixPostings)));
    assert_eq!(b.prefix_database.get(&vec![b'z']).map(|d| d.ids().clone()), Some(vec![5]));
}

#[test]
fn key_codec_round_trip() {
    let k = encode_key(&b"word".to_vec(), 513);
    assert_eq!(k, b"word\x00\x02\x01".to_vec());
    assert_eq!(decode_key(&k), Some((b"word".to_vec(), 513)));
    assert_eq!(decode_key(&vec![b'a', 0, 2, 1]), Some((b"a".to_vec(), 513)));
    assert_eq!(decode_key(&vec![1, 2]), None);
}

#[test]
fn union_merges_sorted_without_duplicates() {
    let a = ids(vec![1, 4, 9]);
    let b = ids(vec![2, 4, 10]);
    let u = union(&a, &b);
    assert_eq!(u.ids().clone(), vec![1, 2, 4, 9, 10]);
    assert!(DocIdSet::try_from_vec(vec![3, 3]).is_none());
    assert!(DocIdSet::try_from_vec(vec![3, 1]).is_none());
}

#[test]
fn group_switches_across_stream() {
    // The stream crosses two groups and passes a word matching no group;
    // the cache is flushed on each switch and every row still lands.
    let changed = vec![
        (key("apple", 0), ids(vec![1])),
        (key("apricot", 0), ids(vec![2])),
        (key("miss", 0), ids(vec![9])),
        (key("banana", 0), ids(vec![3])),
        (key("banana", 2), ids(vec![4])),
    ];
    let groups = vec![vec![b"a".to_vec(), b"ap".to_vec()], vec![b"b".to_vec()]];
    let mut b = WordPrefixIntegerDocids::new(PostingsStore::new(), PostingsStore::new());
    b.execute(&changed, &vec![], &groups, &vec![]).unwrap();
    assert_eq!(got(&b, "a", 0), Some(vec![1, 2]));
    assert_eq!(got(&b, "ap", 0), Some(vec![1, 2]));
    assert_eq!(got(&b, "b", 0), Some(vec![3]));
    assert_eq!(got(&b, "b", 2), Some(vec![4]));
    assert_eq!(got(&b, "miss", 0), None);
    assert_eq!(b.prefix_database.len(), 4);
}

#[test]
fn position_slots_stay_separate() {
    let word_db = word_store(vec![("cat", 0, vec![1]), ("cat", 7, vec![2]), ("car", 7, vec![3])]);
    let mut b = WordPrefixIntegerDocids::new(PostingsStore::new(), word_db);
    b.execute(&vec![], &vec![b"ca".to_vec()], &vec![], &vec![]).unwrap();
    assert_eq!(got(&b, "ca", 0), Some(vec![1]));
    assert_eq!(got(&b, "ca", 7), Some(vec![2, 3]));
}

#[test]
fn range_scan_returns_matching_rows() {
    let word_db = word_store(vec![("cat", 0, vec![1, 2]), ("car", 0, vec![3]), ("dog", 0, vec![4])]);
    let rows = word_db.range_scan(&b"ca".to_vec());
    assert_eq!(rows.len(), 2);
    assert_eq!(rows[0].0, key("cat", 0));
    assert_eq!(rows[0].1.ids().clone(), vec![1, 2]);
    assert_eq!(rows[1].0, key("car", 0));
    assert_eq!(word_db.range_scan(&b"z".to_vec()).len(), 0);
}

#[test]
fn range_scan_boundary_is_rechecked() {
    // A word-database key inside the byte range of the prefix but whose word
    // component does not start with it contributes nothing.
    let mut word_db = PostingsStore::new();
    word_db.insert(key("ca", 0), ids(vec![1]));
    // Raw key "ca" ++ 0 ++ be16 matches byte prefix "ca\0"..; craft a prefix
    // equal to the word plus the separator byte: it byte-matches the raw key
    // while no word starts with it.
    let mut odd_prefix = b"ca".to_vec();
    odd_prefix.push(0);
    let mut b = WordPrefixIntegerDocids::new(PostingsStore::new(), word_db);
    b.execute(&vec![], &vec![odd_prefix.clone()], &vec![], &vec![]).unwrap();
    assert_eq!(b.prefix_database.len(), 0);
}

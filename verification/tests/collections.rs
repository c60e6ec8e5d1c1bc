use lib_nltk::collections::{AbstractLazySequence, LazySubsequence, LazyZip, OrderedDict};
use lib_nltk::tag::util::{str2tuple, tuple2str, untag};

#[test]
fn lazy_subsequence_counts_grapheme_clusters() {
    let s = LazySubsequence::new("abc");
    assert_eq!(s.len(), 3);
    assert!(!s.is_empty());
    let empty = LazySubsequence::new("");
    assert_eq!(empty.len(), 0);
    assert!(empty.is_empty());
    // a combining mark joins its base character into one cluster
    let combined = LazySubsequence::new("a\u{0310}e");
    assert_eq!(combined.len(), 2);
}

#[test]
fn lazy_subsequence_repeats_its_text() {
    let s = LazySubsequence::new("ab");
    let r = s.repeat(3);
    assert_eq!(r.len(), 6);
    assert_eq!(r.iterate_from(0), vec!["a", "b", "a", "b", "a", "b"]);
}

#[test]
fn lazy_subsequence_iterates_from_an_offset() {
    let s = LazySubsequence::new("abcd");
    assert_eq!(s.iterate_from(2), vec!["c", "d"]);
    assert_eq!(s.iterate_from(4), Vec::<String>::new());
    assert_eq!(s.iterate_from(9), Vec::<String>::new());
}

#[test]
fn lazy_zip_pairs_up_to_the_shorter_input() {
    let z: LazyZip<u64, u64> = LazyZip::new(&[1, 2, 3], &[10, 20, 30, 40]);
    let mut pairs = z.iter();
    pairs.sort();
    assert_eq!(pairs, vec![(1, 10), (2, 20), (3, 30)]);
}

#[test]
fn lazy_zip_keeps_the_last_value_of_a_repeated_key() {
    let z: LazyZip<u64, u64> = LazyZip::new(&[1, 2, 1], &[10, 20, 30]);
    let mut pairs = z.iter();
    pairs.sort();
    assert_eq!(pairs, vec![(1, 30), (2, 20)]);
}

#[test]
fn lazy_zip_iterates_from_an_offset() {
    let z: LazyZip<u64, u64> = LazyZip::new(&[1, 2, 3], &[10, 20, 30]);
    assert_eq!(z.iter_from(1).len(), 2);
    assert_eq!(z.iter_from(5).len(), 0);
}

#[test]
fn ordered_dict_keeps_keys_sorted() {
    let mut d: OrderedDict<u64, &str> = OrderedDict::new();
    assert!(d.is_empty());
    assert_eq!(d.insert(2, "two"), None);
    assert_eq!(d.insert(1, "one"), None);
    assert_eq!(d.insert(3, "three"), None);
    assert_eq!(d.len(), 3);
    assert_eq!(d.keys(), vec![&1, &2, &3]);
    assert_eq!(d.values(), vec![&"one", &"two", &"three"]);
    assert_eq!(d.items().len(), 3);
}

#[test]
fn ordered_dict_insert_replaces_and_returns_the_old_value() {
    let mut d: OrderedDict<u64, &str> = OrderedDict::new();
    assert_eq!(d.insert(7, "old"), None);
    assert_eq!(d.insert(7, "new"), Some("old"));
    assert_eq!(d.len(), 1);
    assert_eq!(d.getitem(&7), Some(&"new"));
}

#[test]
fn ordered_dict_del_removes_by_key() {
    let mut d: OrderedDict<u64, &str> = OrderedDict::new();
    d.insert(1, "one");
    d.insert(2, "two");
    assert_eq!(d.del(&1), Some("one"));
    assert_eq!(d.del(&1), None);
    assert_eq!(d.len(), 1);
    assert_eq!(d.getitem(&1), None);
    assert_eq!(d.getitem(&2), Some(&"two"));
}

#[test]
fn ordered_dict_orders_string_keys_lexicographically() {
    let mut d: OrderedDict<String, u64> = OrderedDict::new();
    d.insert("pear".to_string(), 2);
    d.insert("apple".to_string(), 1);
    d.insert("plum".to_string(), 3);
    let keys: Vec<&String> = d.keys();
    assert_eq!(keys, vec!["apple", "pear", "plum"]);
    assert_eq!(d.getitem(&"pear".to_string()), Some(&2));
}

#[test]
fn str2tuple_splits_at_the_rightmost_separator() {
    let (word, tag) = str2tuple("fly/NN", "/");
    assert_eq!(word, "fly");
    assert_eq!(tag, Some("NN".to_string()));
    let (word, tag) = str2tuple("a/b/c", "/");
    assert_eq!(word, "a/b");
    assert_eq!(tag, Some("c".to_string()));
    let (word, tag) = str2tuple("bare", "/");
    assert_eq!(word, "bare");
    assert_eq!(tag, None);
}

#[test]
fn tuple2str_joins_word_and_tag() {
    assert_eq!(tuple2str(("fly", Some("NN")), "/"), "fly/NN");
    assert_eq!(tuple2str(("bare", None), "/"), "bare");
}

#[test]
fn untag_keeps_the_words() {
    let tagged = vec![
        ("fly".to_string(), "NN".to_string()),
        ("over".to_string(), "IN".to_string()),
    ];
    assert_eq!(untag(&tagged), vec!["fly", "over"]);
}

#[test]
fn lazy_subsequence_concatenates() {
    let a = LazySubsequence::new("ab");
    let b = LazySubsequence::new("cd");
    let c = a.concat(b);
    assert_eq!(c.len(), 4);
    assert_eq!(c.iterate_from(0), vec!["a", "b", "c", "d"]);
}

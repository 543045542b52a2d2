use trie_rs::map::{Trie, TrieBuilder};

fn build_trie() -> Trie<u8, u8> {
    let mut builder = TrieBuilder::new();
    builder.push("a".as_bytes(), 0);
    builder.push("app".as_bytes(), 1);
    builder.push("apple".as_bytes(), 2);
    builder.push("better".as_bytes(), 3);
    builder.push("application".as_bytes(), 4);
    builder.push("アップル🍎".as_bytes(), 5);
    builder.build()
}

fn text(labels: &[&u8]) -> String {
    String::from_utf8(labels.iter().map(|l| **l).collect()).unwrap()
}

fn texts(found: Vec<(Vec<&u8>, &u8)>) -> Vec<(String, u8)> {
    found.into_iter().map(|(k, v)| (text(&k), *v)).collect()
}

fn expected(entries: &[(&str, u8)]) -> Vec<(String, u8)> {
    entries.iter().map(|(k, v)| (k.to_string(), *v)).collect()
}

#[test]
fn exact_match_finds_stored_keys() {
    let trie = build_trie();
    assert_eq!(trie.exact_match("a".as_bytes()), Some(&0));
    assert_eq!(trie.exact_match("app".as_bytes()), Some(&1));
    assert_eq!(trie.exact_match("apple".as_bytes()), Some(&2));
    assert_eq!(trie.exact_match("application".as_bytes()), Some(&4));
    assert_eq!(trie.exact_match("better".as_bytes()), Some(&3));
    assert_eq!(trie.exact_match("アップル🍎".as_bytes()), Some(&5));
    assert_eq!(trie.exact_match("appl".as_bytes()), None);
    assert_eq!(trie.exact_match("appler".as_bytes()), None);
    assert_eq!(trie.exact_match("".as_bytes()), None);
}

#[test]
fn is_prefix_tells_keys_that_go_on() {
    let trie = build_trie();
    assert!(trie.is_prefix("a".as_bytes()));
    assert!(trie.is_prefix("app".as_bytes()));
    assert!(!trie.is_prefix("apple".as_bytes()));
    assert!(!trie.is_prefix("application".as_bytes()));
    assert!(!trie.is_prefix("better".as_bytes()));
    assert!(!trie.is_prefix("アップル🍎".as_bytes()));
    assert!(trie.is_prefix("appl".as_bytes()));
    assert!(!trie.is_prefix("appler".as_bytes()));
    assert!(trie.is_prefix("アップル".as_bytes()));
    assert!(trie.is_prefix("".as_bytes()));
}

#[test]
fn common_prefix_search_lists_prefixes_by_length() {
    let trie = build_trie();
    assert_eq!(texts(trie.common_prefix_search("a".as_bytes()).collect()), expected(&[("a", 0)]));
    assert_eq!(texts(trie.common_prefix_search("ap".as_bytes()).collect()), expected(&[("a", 0)]));
    assert_eq!(texts(trie.common_prefix_search("appl".as_bytes()).collect()), expected(&[("a", 0), ("app", 1)]));
    assert_eq!(
        texts(trie.common_prefix_search("appler".as_bytes()).collect()),
        expected(&[("a", 0), ("app", 1), ("apple", 2)])
    );
    assert_eq!(texts(trie.common_prefix_search("bette".as_bytes()).collect()), expected(&[]));
    assert_eq!(texts(trie.common_prefix_search("betterment".as_bytes()).collect()), expected(&[("better", 3)]));
    assert_eq!(texts(trie.common_prefix_search("c".as_bytes()).collect()), expected(&[]));
    assert_eq!(texts(trie.common_prefix_search("アップル🍎🍏".as_bytes()).collect()), expected(&[("アップル🍎", 5)]));
}

#[test]
fn duplicate_key_keeps_last_value() {
    let mut builder: TrieBuilder<u8, u8> = TrieBuilder::new();
    builder.push("a".as_bytes(), 0);
    builder.push("a".as_bytes(), 9);
    let trie = builder.build();
    assert_eq!(trie.exact_match("a".as_bytes()), Some(&9));
}

#[test]
fn empty_trie_finds_nothing() {
    let builder: TrieBuilder<u8, u8> = TrieBuilder::new();
    let trie = builder.build();
    assert_eq!(trie.exact_match("a".as_bytes()), None);
    assert_eq!(trie.exact_match("".as_bytes()), None);
    assert!(!trie.is_prefix("".as_bytes()));
    assert!(!trie.is_prefix("a".as_bytes()));
    assert!(trie.common_prefix_search("abc".as_bytes()).collect().is_empty());
}

fn entry(key: &str, value: u8) -> (Vec<u8>, u8) {
    (key.as_bytes().to_vec(), value)
}

#[test]
fn sanity_check() {
    let trie = build_trie();
    let v: Vec<(String, &u8)> = trie
        .predictive_search("apple".as_bytes()).collect()
        .into_iter()
        .map(|(k, v)| (text(&k), v))
        .collect();
    assert_eq!(v, vec![("apple".to_string(), &2)]);
}

#[test]
fn clone() {
    let trie = build_trie();
    let _c: Trie<u8, u8> = trie.clone();
}

#[test]
fn value_mut() {
    let mut trie = build_trie();
    assert_eq!(trie.exact_match("apple".as_bytes()), Some(&2));
    let v = trie.exact_match_mut("apple".as_bytes()).unwrap();
    *v = 10;
    assert_eq!(trie.exact_match("apple".as_bytes()), Some(&10));
}

#[test]
fn trie_from_iter() {
    let trie = Trie::<u8, u8>::from_iter(vec![
        entry("a", 0),
        entry("app", 1),
        entry("apple", 2),
        entry("better", 3),
        entry("application", 4),
    ]);
    assert_eq!(trie.exact_match("application".as_bytes()), Some(&4));
}

#[test]
fn collect_a_trie() {
    let entries: Vec<(Vec<u8>, u8)> = vec![("a", 0), ("app", 1), ("apple", 2), ("better", 3), ("application", 4)]
        .into_iter()
        .map(|(k, v)| entry(k, v))
        .collect();
    let trie: Trie<u8, u8> = Trie::from_iter(entries);
    assert_eq!(trie.exact_match("application".as_bytes()), Some(&4));
}

#[test]
fn use_empty_queries() {
    let trie = build_trie();
    assert!(trie.exact_match("".as_bytes()).is_none());
    let _ = trie.predictive_search("".as_bytes()).next();
    let _ = trie.postfix_search("".as_bytes()).next();
    let _ = trie.common_prefix_search("".as_bytes()).next();
}

#[test]
fn predictive_search_lists_keys_in_order() {
    let trie = build_trie();
    assert_eq!(
        texts(trie.predictive_search("a".as_bytes()).collect()),
        expected(&[("a", 0), ("app", 1), ("apple", 2), ("application", 4)])
    );
    assert_eq!(
        texts(trie.predictive_search("app".as_bytes()).collect()),
        expected(&[("app", 1), ("apple", 2), ("application", 4)])
    );
    assert_eq!(texts(trie.predictive_search("appl".as_bytes()).collect()), expected(&[("apple", 2), ("application", 4)]));
    assert_eq!(texts(trie.predictive_search("apple".as_bytes()).collect()), expected(&[("apple", 2)]));
    assert_eq!(texts(trie.predictive_search("b".as_bytes()).collect()), expected(&[("better", 3)]));
    assert_eq!(texts(trie.predictive_search("c".as_bytes()).collect()), expected(&[]));
    assert_eq!(texts(trie.predictive_search("アップ".as_bytes()).collect()), expected(&[("アップル🍎", 5)]));
    assert_eq!(trie.predictive_search("".as_bytes()).collect().len(), 6);
}

#[test]
fn postfix_search_lists_what_follows() {
    let trie = build_trie();
    assert_eq!(
        texts(trie.postfix_search("a".as_bytes()).collect()),
        expected(&[("pp", 1), ("pple", 2), ("pplication", 4)])
    );
    assert_eq!(texts(trie.postfix_search("ap".as_bytes()).collect()), expected(&[("p", 1), ("ple", 2), ("plication", 4)]));
    assert_eq!(texts(trie.postfix_search("appl".as_bytes()).collect()), expected(&[("e", 2), ("ication", 4)]));
    assert_eq!(texts(trie.postfix_search("appler".as_bytes()).collect()), expected(&[]));
    assert_eq!(texts(trie.postfix_search("bette".as_bytes()).collect()), expected(&[("r", 3)]));
    assert_eq!(texts(trie.postfix_search("betterment".as_bytes()).collect()), expected(&[]));
    assert_eq!(texts(trie.postfix_search("c".as_bytes()).collect()), expected(&[]));
    assert_eq!(texts(trie.postfix_search("アップル🍎🍏".as_bytes()).collect()), expected(&[]));
}

#[test]
fn longest_prefix_follows_the_only_way() {
    let trie = build_trie();
    let longest = |q: &str| trie.longest_prefix(q.as_bytes()).map(|p| text(&p));
    assert_eq!(longest("a"), Some("a".to_string()));
    assert_eq!(longest("ap"), Some("app".to_string()));
    assert_eq!(longest("appl"), Some("appl".to_string()));
    assert_eq!(longest("appli"), Some("application".to_string()));
    assert_eq!(longest("b"), Some("better".to_string()));
    assert_eq!(longest("アップル🍎"), Some("アップル🍎".to_string()));
    assert_eq!(longest("appler"), Some("apple".to_string()));
    assert_eq!(longest("アップル"), Some("アップル🍎".to_string()));
    assert_eq!(longest("z"), None);
    assert_eq!(longest("applesDONTEXIST"), Some("apple".to_string()));
    assert_eq!(longest(""), None);
}

#[test]
fn searches_yield_one_entry_at_a_time() {
    let trie = build_trie();
    let mut found = trie.predictive_search("app".as_bytes());
    assert_eq!(found.next().map(|(k, v)| (text(&k), *v)), Some(("app".to_string(), 1)));
    assert_eq!(found.next().map(|(k, v)| (text(&k), *v)), Some(("apple".to_string(), 2)));
    assert_eq!(texts(found.collect()), expected(&[("application", 4)]));

    let mut after = trie.postfix_search("app".as_bytes());
    assert_eq!(after.next().map(|(k, v)| (text(&k), *v)), Some(("le".to_string(), 2)));
    assert_eq!(after.next().map(|(k, v)| (text(&k), *v)), Some(("lication".to_string(), 4)));
    assert!(after.next().is_none());
    assert!(after.next().is_none());

    let mut common = trie.common_prefix_search("applet".as_bytes());
    assert_eq!(common.next().map(|(k, v)| (text(&k), *v)), Some(("a".to_string(), 0)));
    assert_eq!(common.next().map(|(k, v)| (text(&k), *v)), Some(("app".to_string(), 1)));
    assert_eq!(common.next().map(|(k, v)| (text(&k), *v)), Some(("apple".to_string(), 2)));
    assert!(common.next().is_none());
    assert!(common.next().is_none());
}

#[test]
fn predictive_search_of_a_key_that_leads_nowhere() {
    let trie = build_trie();
    let mut found = trie.predictive_search("applez".as_bytes());
    assert!(found.next().is_none());
    assert!(trie.postfix_search("z".as_bytes()).collect().is_empty());
}

#[test]
fn proper_prefixes_of_stored_keys_are_prefixes() {
    let trie = build_trie();
    for key in ["a", "app", "apple", "better", "application", "アップル🍎"] {
        let bytes = key.as_bytes();
        for len in 0..bytes.len() {
            assert!(trie.is_prefix(&bytes[..len]));
        }
    }
}

#[test]
fn predictive_search_ascends_and_common_prefixes_lengthen() {
    let trie = build_trie();
    for query in ["", "a", "ap", "app", "b", "アップ"] {
        let found = texts(trie.predictive_search(query.as_bytes()).collect());
        for pair in found.windows(2) {
            assert!(pair[0].0.as_bytes() < pair[1].0.as_bytes());
        }
        for (key, value) in &found {
            assert!(key.starts_with(query));
            assert_eq!(trie.exact_match(key.as_bytes()), Some(value));
        }
    }
    for query in ["appler", "application", "betterment"] {
        let found = texts(trie.common_prefix_search(query.as_bytes()).collect());
        for pair in found.windows(2) {
            assert!(pair[0].0.len() < pair[1].0.len());
        }
        for (key, value) in &found {
            assert!(query.starts_with(key.as_str()));
            assert_eq!(trie.exact_match(key.as_bytes()), Some(value));
        }
    }
}

#[test]
fn longest_prefix_goes_on_from_the_last_label_found() {
    let trie = build_trie();
    let longest = |q: &str| trie.longest_prefix(q.as_bytes()).map(|p| text(&p));
    assert_eq!(longest("apx"), Some("app".to_string()));
    assert_eq!(longest("bz"), Some("better".to_string()));
    assert_eq!(longest("betterment"), Some("better".to_string()));
    assert_eq!(longest("applx"), Some("appl".to_string()));
    assert_eq!(longest("az"), Some("a".to_string()));
    assert_eq!(longest("c"), None);

    let mut builder: TrieBuilder<u8, u8> = TrieBuilder::new();
    builder.push("abc".as_bytes(), 0);
    let single = builder.build();
    let longest = |q: &str| single.longest_prefix(q.as_bytes()).map(|p| text(&p));
    assert_eq!(longest(""), Some("abc".to_string()));
    assert_eq!(longest("z"), Some("abc".to_string()));
    assert_eq!(longest("abz"), Some("abc".to_string()));
    assert_eq!(longest("abcd"), Some("abc".to_string()));

    let empty: Trie<u8, u8> = TrieBuilder::new().build();
    assert_eq!(empty.longest_prefix("a".as_bytes()).map(|p| text(&p)), None);
    assert_eq!(empty.longest_prefix("".as_bytes()).map(|p| text(&p)), None);
}

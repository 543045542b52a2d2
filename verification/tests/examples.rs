use trie_rs::iter::keys::{Keys, KeysExt};
use trie_rs::map::{Trie, TrieBuilder};

const PI_WINDOWS: [[u8; 10]; 14] = [
    [1, 4, 1, 5, 9, 2, 6, 5, 3, 5],
    [8, 9, 7, 9, 3, 2, 3, 8, 4, 6],
    [2, 6, 4, 3, 3, 8, 3, 2, 7, 9],
    [6, 9, 3, 9, 9, 3, 7, 5, 1, 0],
    [5, 8, 2, 0, 9, 7, 4, 9, 4, 4],
    [5, 9, 2, 3, 0, 7, 8, 1, 6, 4],
    [0, 6, 2, 8, 6, 2, 0, 8, 9, 9],
    [8, 6, 2, 8, 0, 3, 4, 8, 2, 5],
    [3, 4, 2, 1, 1, 7, 0, 6, 7, 9],
    [8, 2, 1, 4, 8, 0, 8, 6, 5, 1],
    [3, 2, 8, 2, 3, 0, 6, 6, 4, 7],
    [0, 9, 3, 8, 4, 4, 6, 0, 9, 5],
    [5, 0, 5, 8, 2, 2, 3, 1, 7, 2],
    [5, 3, 5, 9, 4, 0, 8, 1, 2, 8],
];

fn labels<L: Clone>(refs: &[&L]) -> Vec<L> {
    refs.iter().map(|l| (*l).clone()).collect()
}

#[test]
fn pi_digit_windows() {
    let mut builder: TrieBuilder<u8, usize> = TrieBuilder::new();
    for (rank, window) in PI_WINDOWS.iter().enumerate() {
        builder.push(window, rank);
    }
    let trie = builder.build();
    for (rank, window) in PI_WINDOWS.iter().enumerate() {
        assert_eq!(trie.exact_match(window), Some(&rank));
    }
    let found: Vec<(Vec<u8>, usize)> =
        trie.predictive_search(&[3]).collect().into_iter().map(|(k, v)| (labels(&k), *v)).collect();
    assert_eq!(
        found,
        vec![(vec![3, 2, 8, 2, 3, 0, 6, 6, 4, 7], 10), (vec![3, 4, 2, 1, 1, 7, 0, 6, 7, 9], 8)]
    );
    let common: Vec<Vec<u8>> = trie
        .common_prefix_search(&[1, 4, 1, 5, 9, 2, 6, 5, 3, 5]).collect()
        .into_iter()
        .map(|(k, _)| labels(&k))
        .collect();
    assert_eq!(common, vec![vec![1, 4, 1, 5, 9, 2, 6, 5, 3, 5]]);
}

#[test]
fn keys_made_of_words() {
    let mut builder: TrieBuilder<&str, u8> = TrieBuilder::new();
    builder.push(&["a", "woman"], 0);
    builder.push(&["a", "woman", "on", "the", "beach"], 1);
    builder.push(&["a", "woman", "on", "the", "run"], 2);
    let trie = builder.build();
    assert_eq!(trie.exact_match(&["a", "woman", "on", "the", "beach"]), Some(&1));
    let common: Vec<(Vec<&str>, u8)> = trie
        .common_prefix_search(&["a", "woman", "on", "the", "beach"]).collect()
        .into_iter()
        .map(|(k, v)| (labels(&k), *v))
        .collect();
    assert_eq!(common, vec![(vec!["a", "woman"], 0), (vec!["a", "woman", "on", "the", "beach"], 1)]);
    let found: Vec<Vec<&str>> =
        trie.predictive_search(&["a", "woman", "on"]).collect().into_iter().map(|(k, _)| labels(&k)).collect();
    assert_eq!(found, vec![vec!["a", "woman", "on", "the", "beach"], vec!["a", "woman", "on", "the", "run"]]);
}

#[test]
fn sushi_keys() {
    let mut builder: TrieBuilder<u8, u8> = TrieBuilder::new();
    builder.push("すし".as_bytes(), 0);
    builder.push("すしや".as_bytes(), 1);
    builder.push("すしだね".as_bytes(), 2);
    builder.push("すしづめ".as_bytes(), 3);
    builder.push("すしめし".as_bytes(), 4);
    builder.push("すしをにぎる".as_bytes(), 5);
    builder.push("すし".as_bytes(), 6);
    builder.push("🍣".as_bytes(), 7);
    let mut trie = builder.build();
    assert_eq!(trie.exact_match("すし".as_bytes()), Some(&6));
    assert_eq!(trie.exact_match("🍣".as_bytes()), Some(&7));
    assert_eq!(trie.exact_match("🍜".as_bytes()), None);
    let v = trie.exact_match_mut("🍣".as_bytes()).unwrap();
    *v = 8;
    assert_eq!(trie.exact_match("🍣".as_bytes()), Some(&8));
    assert!(trie.exact_match_mut("🍜".as_bytes()).is_none());
    let found: Vec<String> = trie
        .predictive_search("すし".as_bytes()).collect()
        .keys()
        .collect()
        .into_iter()
        .map(|k| String::from_utf8(labels(&k)).unwrap())
        .collect();
    assert_eq!(found, vec!["すし", "すしだね", "すしづめ", "すしめし", "すしや", "すしをにぎる"]);
    let common: Vec<String> = Keys::new(trie.common_prefix_search("すしや".as_bytes()).collect())
        .collect()
        .into_iter()
        .map(|k| String::from_utf8(labels(&k)).unwrap())
        .collect();
    assert_eq!(common, vec!["すし", "すしや"]);
}

#[test]
fn empty_key_is_taken_and_never_reported() {
    let mut builder: TrieBuilder<u8, u8> = TrieBuilder::new();
    builder.insert(vec![], 1);
    builder.insert(vec![b'a'], 2);
    let trie = builder.build();
    assert_eq!(trie.exact_match(&[]), None);
    assert_eq!(trie.exact_match(&[b'a']), Some(&2));
    assert!(trie.is_prefix(&[]));
    assert_eq!(trie.predictive_search(&[]).collect().len(), 1);
    assert_eq!(trie.postfix_search(&[]).collect().len(), 1);
    assert!(trie.common_prefix_search(&[b'a']).collect().len() == 1);
    assert_eq!(trie.longest_prefix(&[]).map(|p| labels(&p)), None);
    assert_eq!(trie.longest_prefix(&[b'a']).map(|p| labels(&p)), Some(vec![b'a']));
}

#[test]
fn a_clone_answers_like_the_trie() {
    let mut builder: TrieBuilder<u8, u8> = TrieBuilder::new();
    builder.push("ab".as_bytes(), 1);
    builder.push("ac".as_bytes(), 2);
    let trie = builder.build();
    let copy: Trie<u8, u8> = trie.clone();
    assert_eq!(copy.exact_match("ab".as_bytes()), Some(&1));
    assert_eq!(copy.exact_match("ac".as_bytes()), Some(&2));
    assert_eq!(copy.exact_match("a".as_bytes()), None);
    assert!(copy.is_prefix("a".as_bytes()));
    assert_eq!(copy.predictive_search("a".as_bytes()).collect().len(), 2);
}

#[test]
fn from_iter_keeps_the_last_value_of_a_key() {
    let trie: Trie<u8, u8> = Trie::from_iter(vec![(vec![1, 2], 0), (vec![1], 1), (vec![1, 2], 2)]);
    assert_eq!(trie.exact_match(&[1, 2]), Some(&2));
    assert_eq!(trie.exact_match(&[1]), Some(&1));
    assert_eq!(trie.exact_match(&[2]), None);
}

#[test]
fn keys_of_a_search_one_by_one() {
    let mut builder: TrieBuilder<u8, u8> = TrieBuilder::new();
    builder.push("ab".as_bytes(), 1);
    builder.push("ac".as_bytes(), 2);
    builder.push("a".as_bytes(), 3);
    let trie = builder.build();
    let mut keys = trie.predictive_search("a".as_bytes()).keys();
    assert_eq!(keys.next().map(|k| labels(&k)), Some(b"a".to_vec()));
    assert_eq!(keys.next().map(|k| labels(&k)), Some(b"ab".to_vec()));
    assert_eq!(keys.next().map(|k| labels(&k)), Some(b"ac".to_vec()));
    assert_eq!(keys.next(), None);
    let mut after = trie.postfix_search("a".as_bytes()).keys();
    assert_eq!(after.next().map(|k| labels(&k)), Some(b"b".to_vec()));
    assert_eq!(after.next().map(|k| labels(&k)), Some(b"c".to_vec()));
    assert_eq!(after.next(), None);
    let mut common = trie.common_prefix_search("abc".as_bytes()).keys();
    assert_eq!(common.next().map(|k| labels(&k)), Some(b"a".to_vec()));
    assert_eq!(common.next().map(|k| labels(&k)), Some(b"ab".to_vec()));
    assert_eq!(common.next(), None);
}

fn sample_keys(count: usize) -> Vec<Vec<u8>> {
    let mut state: u64 = 0x2545_f491_4f6c_dd1d;
    let mut keys = Vec::new();
    for _ in 0..count {
        state = state.wrapping_mul(6364136223846793005).wrapping_add(1442695040888963407);
        let len = 1 + ((state >> 33) % 6) as usize;
        let mut key = Vec::new();
        for _ in 0..len {
            state = state.wrapping_mul(6364136223846793005).wrapping_add(1442695040888963407);
            key.push(b'a' + ((state >> 33) % 4) as u8);
        }
        keys.push(key);
    }
    keys
}

#[test]
fn a_trie_answers_like_an_ordered_map() {
    let keys = sample_keys(300);
    let mut model = std::collections::BTreeMap::new();
    let mut builder: TrieBuilder<u8, usize> = TrieBuilder::new();
    for (i, key) in keys.iter().enumerate() {
        model.insert(key.clone(), i);
        builder.push(key, i);
    }
    let trie = builder.build();
    for key in &keys {
        assert_eq!(trie.exact_match(key), model.get(key));
    }
    let all: Vec<(Vec<u8>, usize)> =
        trie.predictive_search(&[]).collect().into_iter().map(|(k, v)| (labels(&k), *v)).collect();
    let expected: Vec<(Vec<u8>, usize)> = model.iter().map(|(k, v)| (k.clone(), *v)).collect();
    assert_eq!(all, expected);
    for query in sample_keys(60) {
        let found: Vec<(Vec<u8>, usize)> =
            trie.predictive_search(&query).collect().into_iter().map(|(k, v)| (labels(&k), *v)).collect();
        let wanted: Vec<(Vec<u8>, usize)> =
            model.iter().filter(|(k, _)| k.starts_with(&query)).map(|(k, v)| (k.clone(), *v)).collect();
        assert_eq!(found, wanted);
        let after: Vec<(Vec<u8>, usize)> =
            trie.postfix_search(&query).collect().into_iter().map(|(k, v)| (labels(&k), *v)).collect();
        let wanted_after: Vec<(Vec<u8>, usize)> = model
            .iter()
            .filter(|(k, _)| k.starts_with(&query) && k.len() > query.len())
            .map(|(k, v)| (k[query.len()..].to_vec(), *v))
            .collect();
        assert_eq!(after, wanted_after);
        let common: Vec<(Vec<u8>, usize)> =
            trie.common_prefix_search(&query).collect().into_iter().map(|(k, v)| (labels(&k), *v)).collect();
        let wanted_common: Vec<(Vec<u8>, usize)> = (1..=query.len())
            .filter_map(|len| model.get(&query[..len]).map(|v| (query[..len].to_vec(), *v)))
            .collect();
        assert_eq!(common, wanted_common);
        let goes_on = model.keys().any(|k| k.starts_with(&query) && k.len() > query.len());
        assert_eq!(trie.is_prefix(&query), goes_on);
    }
}

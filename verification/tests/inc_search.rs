use trie_rs::inc_search::{Answer, IncSearch};
use trie_rs::map::{Trie, TrieBuilder};

fn build_trie() -> Trie<u8, u8> {
    let mut builder = TrieBuilder::new();
    builder.push("a".as_bytes(), 0);
    builder.push("app".as_bytes(), 1);
    builder.push("apple".as_bytes(), 2);
    builder.push("better".as_bytes(), 3);
    builder.push("application".as_bytes(), 4);
    builder.push("アップル🍎".as_bytes(), 5);
    builder.build()
}

fn build_sushi() -> Trie<u8, u8> {
    let mut builder = TrieBuilder::new();
    builder.push("ab".as_bytes(), 0);
    builder.push("すし".as_bytes(), 1);
    builder.push("すしや".as_bytes(), 2);
    builder.push("すしだね".as_bytes(), 3);
    builder.push("すしづめ".as_bytes(), 4);
    builder.push("すしめし".as_bytes(), 5);
    builder.push("すしをにぎる".as_bytes(), 6);
    builder.build()
}

#[test]
fn incremental_walk_over_apple() {
    let trie = build_trie();
    let mut search = trie.inc_search();
    assert_eq!(search.query(&b'a'), Some(Answer::PrefixAndMatch));
    assert_eq!(search.query(&b'p'), Some(Answer::Prefix));
    assert_eq!(search.query(&b'p'), Some(Answer::PrefixAndMatch));
    assert_eq!(search.query(&b'l'), Some(Answer::Prefix));
    assert_eq!(search.query(&b'e'), Some(Answer::Match));
    assert_eq!(search.value(), Some(&2));
    assert_eq!(search.query(&b'x'), None);
    assert_eq!(search.value(), Some(&2));
    assert_eq!(search.peek(&b'r'), None);
}

#[test]
fn cursor_stays_on_a_label_that_is_not_there() {
    let trie = build_sushi();
    let mut search = trie.inc_search();
    assert_eq!(search.query(&b'a'), Some(Answer::Prefix));
    assert_eq!(search.query(&b'c'), None);
    assert_eq!(search.query(&b'b'), Some(Answer::Match));
}

#[test]
fn query_until_gives_last_answer_or_failing_place() {
    let trie = build_sushi();
    let mut search = trie.inc_search();
    assert_eq!(search.query_until("す".as_bytes()), Ok(Answer::Prefix));
    assert_eq!(search.query_until("し".as_bytes()), Ok(Answer::PrefixAndMatch));
    assert_eq!(search.query_until("や".as_bytes()), Ok(Answer::Match));
    assert_eq!(search.query(&b'a'), None);
    assert_eq!(search.query_until("a".as_bytes()), Err(0));

    search.reset();
    assert_eq!(search.query_until("ab-NO-MATCH-".as_bytes()), Err(2));
}

#[test]
fn query_until_of_nothing_has_no_answer() {
    let trie = build_sushi();
    let mut search = trie.inc_search();
    assert_eq!(search.query_until("".as_bytes()), Err(0));
    assert_eq!(search.query_until("ab".as_bytes()), Ok(Answer::Match));
    assert_eq!(search.query_until("".as_bytes()), Err(0));
}

#[test]
fn query_until_agrees_with_exact_match_and_is_prefix() {
    let trie = build_trie();
    for query in ["a", "ap", "app", "appl", "apple", "appler", "b", "better", "c", "アップル", "アップル🍎"] {
        let mut search = IncSearch::new(&trie);
        let stored = trie.exact_match(query.as_bytes()).is_some();
        let goes_on = trie.is_prefix(query.as_bytes());
        match search.query_until(query.as_bytes()) {
            Ok(answer) => {
                assert_eq!(answer.is_match(), stored);
                assert_eq!(answer.is_prefix(), goes_on);
            }
            Err(_) => {
                assert!(!stored);
                assert!(!goes_on);
            }
        }
    }
}

#[test]
fn peek_answers_without_moving() {
    let trie = build_trie();
    let mut search = trie.inc_search();
    assert_eq!(search.peek(&b'a'), Some(Answer::PrefixAndMatch));
    assert_eq!(search.peek(&b'b'), Some(Answer::Prefix));
    assert_eq!(search.peek(&b'c'), None);
    assert_eq!(search.value(), None);
    assert_eq!(search.query(&b'b'), Some(Answer::Prefix));
    assert_eq!(search.peek(&b'a'), None);
    assert_eq!(search.peek(&b'e'), Some(Answer::Prefix));
}

#[test]
fn reset_puts_the_cursor_back() {
    let trie = build_trie();
    let mut search = trie.inc_search();
    assert_eq!(search.query_until("app".as_bytes()), Ok(Answer::PrefixAndMatch));
    assert_eq!(search.value(), Some(&1));
    search.reset();
    assert_eq!(search.value(), None);
    assert_eq!(search.query(&b'b'), Some(Answer::Prefix));
}

#[test]
fn answer_from_two_facts() {
    assert_eq!(Answer::new(true, true), Some(Answer::PrefixAndMatch));
    assert_eq!(Answer::new(true, false), Some(Answer::Prefix));
    assert_eq!(Answer::new(false, true), Some(Answer::Match));
    assert_eq!(Answer::new(false, false), None);
    assert!(Answer::Prefix.is_prefix());
    assert!(!Answer::Prefix.is_match());
    assert!(Answer::Match.is_match());
    assert!(!Answer::Match.is_prefix());
    assert!(Answer::PrefixAndMatch.is_prefix());
    assert!(Answer::PrefixAndMatch.is_match());
}

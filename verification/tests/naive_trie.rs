use trie_rs::map::TrieLabel;
use trie_rs::naive_trie::NaiveTrie;
use trie_rs::naive_trie_b_f_iter::NaiveTrieBFIter;
use trie_rs::order::{compare, Side};

#[derive(Debug, PartialEq)]
enum Item {
    Root,
    Label(u8),
    Leaf,
    Mark,
}

fn walk(words: &[&str]) -> Vec<Item> {
    let mut trie: NaiveTrie<u8, ()> = NaiveTrie::make_root();
    for word in words {
        trie.push(word.bytes().collect(), ());
    }
    let mut iter = NaiveTrieBFIter::new(trie);
    let mut items = Vec::new();
    while let Some(node) = iter.next() {
        assert!(match &node {
            NaiveTrie::PhantomSibling => true,
            other => other.children().is_empty(),
        });
        items.push(match node {
            NaiveTrie::Root(_) => Item::Root,
            NaiveTrie::IntermOrLeaf(n) => match n.label {
                TrieLabel::Label(l) => Item::Label(l),
                TrieLabel::Value(()) => Item::Leaf,
            },
            NaiveTrie::PhantomSibling => Item::Mark,
        });
    }
    items
}

#[test]
fn walk_of_empty_trie() {
    assert_eq!(walk(&[]), vec![Item::Root, Item::Mark]);
}

#[test]
fn walk_of_one_key() {
    let expected = vec![Item::Root, Item::Label(b'a'), Item::Mark, Item::Leaf, Item::Mark, Item::Mark];
    assert_eq!(walk(&["a"]), expected);
}

#[test]
fn walk_of_one_key_pushed_twice() {
    let expected = vec![Item::Root, Item::Label(b'a'), Item::Mark, Item::Leaf, Item::Mark, Item::Mark];
    assert_eq!(walk(&["a", "a"]), expected);
}

#[test]
fn walk_of_two_keys() {
    let expected = vec![
        Item::Root,
        Item::Label(b'a'),
        Item::Label(b'b'),
        Item::Mark,
        Item::Leaf,
        Item::Mark,
        Item::Leaf,
        Item::Mark,
        Item::Mark,
        Item::Mark,
    ];
    assert_eq!(walk(&["a", "b"]), expected);
    assert_eq!(walk(&["b", "a"]), expected);
}

#[test]
fn walk_of_three_keys() {
    let expected = vec![
        Item::Root,
        Item::Label(b'a'),
        Item::Label(b'b'),
        Item::Mark,
        Item::Leaf,
        Item::Label(b'n'),
        Item::Mark,
        Item::Label(b'a'),
        Item::Mark,
        Item::Mark,
        Item::Leaf,
        Item::Mark,
        Item::Label(b'd'),
        Item::Mark,
        Item::Mark,
        Item::Leaf,
        Item::Mark,
        Item::Mark,
    ];
    assert_eq!(walk(&["a", "bad", "an"]), expected);
}

#[test]
fn walk_has_as_many_marks_as_nodes() {
    let items = walk(&["a", "app", "apple", "better", "application"]);
    let marks = items.iter().filter(|i| **i == Item::Mark).count();
    assert_eq!(marks * 2, items.len());
    assert_eq!(items.last(), Some(&Item::Mark));
}

#[test]
fn push_keeps_children_in_order() {
    let mut trie: NaiveTrie<u8, u8> = NaiveTrie::make_root();
    trie.push(vec![b'c'], 1);
    trie.push(vec![b'a'], 2);
    trie.push(vec![b'b'], 3);
    trie.push(vec![], 4);
    let labels: Vec<&TrieLabel<u8, u8>> = trie.children().iter().map(|c| c.label()).collect();
    assert_eq!(
        labels,
        vec![&TrieLabel::Value(4), &TrieLabel::Label(b'a'), &TrieLabel::Label(b'b'), &TrieLabel::Label(b'c')]
    );
}

#[test]
fn push_overwrites_the_value_of_a_key() {
    let mut trie: NaiveTrie<u8, u8> = NaiveTrie::make_root();
    trie.push(vec![b'a'], 0);
    trie.push(vec![b'a', b'b'], 1);
    trie.push(vec![b'a'], 9);
    let a = &trie.children()[0];
    assert_eq!(a.label(), &TrieLabel::Label(b'a'));
    assert_eq!(a.children().len(), 2);
    assert_eq!(a.children()[0].label(), &TrieLabel::Value(9));
    assert_eq!(a.children()[1].label(), &TrieLabel::Label(b'b'));
    assert_eq!(a.children()[1].children()[0].label(), &TrieLabel::Value(1));
}

#[test]
fn nodes_are_made_without_children() {
    let root: NaiveTrie<u8, u8> = NaiveTrie::make_root();
    assert!(root.children().is_empty());
    let interm: NaiveTrie<u8, u8> = NaiveTrie::make_interm(b'x');
    assert_eq!(interm.label(), &TrieLabel::Label(b'x'));
    assert!(interm.children().is_empty());
    let leaf: NaiveTrie<u8, u8> = NaiveTrie::make_leaf(7);
    assert_eq!(leaf.label(), &TrieLabel::Value(7));
    assert!(leaf.children().is_empty());
    let other: NaiveTrie<u8, u8> = NaiveTrie::make_interm_or_leaf(TrieLabel::Value(3));
    assert_eq!(other.label(), &TrieLabel::Value(3));
}

#[test]
fn drain_children_takes_them_all() {
    let mut trie: NaiveTrie<u8, u8> = NaiveTrie::make_root();
    trie.push(vec![b'a'], 1);
    trie.push(vec![b'b'], 2);
    let children = trie.drain_children();
    assert_eq!(children.len(), 2);
    assert_eq!(children[0].label(), &TrieLabel::Label(b'a'));
    assert_eq!(children[1].label(), &TrieLabel::Label(b'b'));
    assert!(trie.children().is_empty());
}

#[test]
fn search_children_finds_or_places() {
    let mut trie: NaiveTrie<u8, u8> = NaiveTrie::make_root();
    trie.push(vec![], 0);
    trie.push(vec![b'b'], 1);
    trie.push(vec![b'd'], 2);
    let children = trie.drain_children();
    assert_eq!(NaiveTrie::search_children(&children, &b'b'), Ok(1));
    assert_eq!(NaiveTrie::search_children(&children, &b'd'), Ok(2));
    assert_eq!(NaiveTrie::search_children(&children, &b'a'), Err(1));
    assert_eq!(NaiveTrie::search_children(&children, &b'c'), Err(2));
    assert_eq!(NaiveTrie::search_children(&children, &b'e'), Err(3));
}

#[test]
fn insert_or_set_value_puts_the_value_in_front() {
    let mut children: Vec<NaiveTrie<u8, u8>> = vec![NaiveTrie::make_interm(b'a')];
    NaiveTrie::insert_or_set_value(&mut children, 5);
    assert_eq!(children.len(), 2);
    assert_eq!(children[0].label(), &TrieLabel::Value(5));
    NaiveTrie::insert_or_set_value(&mut children, 6);
    assert_eq!(children.len(), 2);
    assert_eq!(children[0].label(), &TrieLabel::Value(6));
    assert_eq!(children[1].label(), &TrieLabel::Label(b'a'));
}

#[test]
fn cells_compare_with_labels_and_cells() {
    let value: TrieLabel<u8, u8> = TrieLabel::Value(0);
    let b: TrieLabel<u8, u8> = TrieLabel::Label(b'b');
    let c: TrieLabel<u8, u8> = TrieLabel::Label(b'c');
    assert_eq!(value.side(&b'a'), Side::Below);
    assert_eq!(b.side(&b'a'), Side::Above);
    assert_eq!(b.side(&b'b'), Side::Same);
    assert_eq!(b.side(&b'c'), Side::Below);
    assert!(b.is_label(&b'b'));
    assert!(!b.is_label(&b'c'));
    assert!(!value.is_label(&0));
    assert_eq!(value.side_of_cell(&b), Side::Below);
    assert_eq!(b.side_of_cell(&value), Side::Above);
    assert_eq!(b.side_of_cell(&c), Side::Below);
    assert_eq!(c.side_of_cell(&b), Side::Above);
    assert_eq!(b.side_of_cell(&b), Side::Same);
    assert!(b == b.clone());
    assert!(b != c);
    assert!(value != b);
    assert!(value == TrieLabel::Value(0));
    assert!(value != TrieLabel::Value(1));
}

#[test]
fn labels_compare_by_their_order() {
    assert_eq!(compare(&1u8, &2u8), Side::Below);
    assert_eq!(compare(&2u8, &2u8), Side::Same);
    assert_eq!(compare(&"b", &"a"), Side::Above);
}

#[test]
fn cells_compare_with_labels_by_operators() {
    let value: TrieLabel<u8, u8> = TrieLabel::Value(0);
    let b: TrieLabel<u8, u8> = TrieLabel::Label(b'b');
    assert!(b == b'b');
    assert!(b != b'c');
    assert!(value != 0u8);
    assert!(b < b'c');
    assert!(b > b'a');
    assert!(b <= b'b');
    assert!(value < b'a');
    assert!(value < 0u8);
    assert_eq!(b.partial_cmp(&b'b'), Some(std::cmp::Ordering::Equal));
    assert_eq!(value.partial_cmp(&b'b'), Some(std::cmp::Ordering::Less));
}

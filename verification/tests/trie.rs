use ruulang::utils::trie::{Trie, TrieNode};

fn path(parts: &[&str]) -> Vec<String> {
    parts.iter().map(|p| p.to_string()).collect()
}

#[test]
fn trie_prefix_scenario() {
    let mut trie: Trie<String, u32> = Trie::new();
    assert!(trie.add(&path(&["a", "b", "c"]), 7));
    assert!(trie.contains(&path(&["a", "b", "c"])));
    assert!(trie.contains_prefix(&path(&["a", "b"])));
    assert!(trie.contains_prefix(&path(&["a", "b", "c"])));
    assert!(!trie.contains(&path(&["a", "b"])));
    assert!(trie.contains_suffix(&path(&["a", "b", "c", "d"])));
    assert!(!trie.contains_prefix(&path(&["z"])));
}

#[test]
fn trie_add_reports_whether_the_path_was_new() {
    let mut trie: Trie<String, u32> = Trie::new();
    assert!(trie.add(&path(&["a", "b"]), 1));
    assert!(!trie.add(&path(&["a", "b"]), 2));
    assert_eq!(trie.get(&path(&["a", "b"])), Some(&1));
    assert!(trie.add(&path(&["a"]), 3));
    assert_eq!(trie.get(&path(&["a"])), Some(&3));
    assert_eq!(trie.get(&path(&["a", "b", "c"])), None);
    assert_eq!(trie.get(&path(&["b"])), None);
}

#[test]
fn trie_empty_path_answers_nothing() {
    let mut trie: Trie<String, u32> = Trie::new();
    assert!(!trie.add(&path(&[]), 1));
    assert!(trie.add(&path(&["a"]), 1));
    assert!(!trie.contains(&path(&[])));
    assert!(!trie.contains_prefix(&path(&[])));
    assert!(!trie.contains_suffix(&path(&[])));
    assert_eq!(trie.get(&path(&[])), None);
}

#[test]
fn trie_stored_path_answers_every_query() {
    let mut trie: Trie<String, u32> = Trie::new();
    let p = path(&["read", "self", "name"]);
    assert!(trie.add(&p, 1));
    assert!(trie.contains(&p));
    for k in 1..=p.len() {
        assert!(trie.contains_prefix(&p[..k].to_vec()));
    }
    let mut longer = p.clone();
    longer.push("x".to_string());
    assert!(trie.contains_suffix(&longer));
    assert!(trie.contains_suffix(&p));
}

#[test]
fn trie_suffix_needs_a_stored_path_on_the_way() {
    let mut trie: Trie<String, u32> = Trie::new();
    assert!(trie.add(&path(&["a", "b"]), 1));
    assert!(trie.contains_suffix(&path(&["a", "b", "c"])));
    assert!(!trie.contains_suffix(&path(&["a"])));
    assert!(!trie.contains_suffix(&path(&["a", "x"])));
    assert!(!trie.contains_suffix(&path(&["x"])));
}

#[test]
fn trie_node_matches_trie() {
    let mut node: TrieNode<String, &str> = TrieNode::new();
    assert!(node.add(&path(&["a", "b"]), "ab"));
    assert!(node.add(&path(&["a", "c"]), "ac"));
    assert_eq!(node.get(&path(&["a", "c"])), Some(&"ac"));
    assert!(node.contains(&path(&["a", "b"])));
    assert!(node.contains_prefix(&path(&["a"])));
    assert!(!node.contains(&path(&["a"])));
    assert!(node.contains_suffix(&path(&["a", "c", "d"])));
}

#[test]
fn trie_takes_numbers_and_characters_for_tokens() {
    let mut numbers: Trie<u64, &str> = Trie::new();
    assert!(numbers.add(&vec![1, 2, 3], "deep"));
    assert!(!numbers.add(&vec![1, 2, 3], "again"));
    assert!(numbers.add(&vec![1], "top"));
    assert_eq!(numbers.get(&vec![1, 2, 3]), Some(&"deep"));
    assert_eq!(numbers.get(&vec![1]), Some(&"top"));
    assert_eq!(numbers.get(&vec![1, 2]), None);
    assert!(numbers.contains_prefix(&vec![1, 2]));
    assert!(!numbers.contains_prefix(&vec![2]));
    assert!(numbers.contains_suffix(&vec![1, 9]));
    assert!(!numbers.contains_suffix(&vec![9, 1]));
    assert!(!numbers.contains(&vec![]));
    let mut letters: Trie<char, u8> = Trie::new();
    assert!(letters.add(&"path".chars().collect(), 4));
    assert!(letters.contains(&vec!['p', 'a', 't', 'h']));
    assert!(letters.contains_prefix(&vec!['p', 'a']));
    assert!(letters.contains_suffix(&"paths".chars().collect()));
    assert!(!letters.contains(&vec!['p', 'a']));
}

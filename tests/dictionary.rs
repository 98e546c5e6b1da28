use spellcast::dictionary::{load_dictionary_tree, Node};

/// Whether the tree holds `word`.
fn holds(kids: &Vec<(char, Node)>, word: &str) -> bool {
    let letters: Vec<char> = word.chars().collect();
    let mut level = kids;
    for (i, c) in letters.iter().enumerate() {
        let Some((_, node)) = level.iter().find(|(k, _)| k == c) else {
            return false;
        };
        let last = i + 1 == letters.len();
        match node {
            Node::Word => return last,
            Node::Both { next_letters } => {
                if last {
                    return true;
                }
                level = next_letters;
            }
            Node::Prefix { next_letters } => {
                if last {
                    return false;
                }
                level = next_letters;
            }
        }
    }
    false
}

/// Checks that every `Prefix` or `Both` node has children and no letter repeats among siblings.
fn check_shape(kids: &Vec<(char, Node)>) {
    for (i, (c, node)) in kids.iter().enumerate() {
        for (d, _) in kids.iter().skip(i + 1) {
            assert_ne!(c, d);
        }
        match node {
            Node::Word => {}
            Node::Prefix { next_letters } | Node::Both { next_letters } => {
                assert!(!next_letters.is_empty());
                check_shape(next_letters);
            }
        }
    }
}

#[test]
fn load_keeps_words_of_playable_length() {
    let tree = load_dictionary_tree("at\ncat\nabcdefghijklmnopqrstuvwxy\nabcdefghijklmnopqrstuvwxyz\n".to_string());
    assert!(holds(&tree, "cat"));
    assert!(!holds(&tree, "at"));
    assert!(holds(&tree, "abcdefghijklmnopqrstuvwxy"));
    assert!(!holds(&tree, "abcdefghijklmnopqrstuvwxyz"));
    check_shape(&tree);
}

#[test]
fn load_of_empty_text_is_empty() {
    assert!(load_dictionary_tree(String::new()).is_empty());
    assert!(load_dictionary_tree("a\nbe\n\n".to_string()).is_empty());
}

#[test]
fn duplicates_collapse() {
    let tree = load_dictionary_tree("tea\ntea\ntea".to_string());
    assert_eq!(tree.len(), 1);
    assert!(holds(&tree, "tea"));
    check_shape(&tree);
}

#[test]
fn shorter_word_after_longer_becomes_both() {
    let tree = load_dictionary_tree("cart\ncar\n".to_string());
    assert!(holds(&tree, "car"));
    assert!(holds(&tree, "cart"));
    assert!(!holds(&tree, "ca"));
    check_shape(&tree);
}

#[test]
fn longer_word_after_shorter_extends_it() {
    let tree = load_dictionary_tree("car\ncart\ncards".to_string());
    assert!(holds(&tree, "car"));
    assert!(holds(&tree, "cart"));
    assert!(holds(&tree, "cards"));
    assert!(!holds(&tree, "card"));
    check_shape(&tree);
}

#[test]
fn carriage_returns_before_newlines_are_dropped() {
    let tree = load_dictionary_tree("sea\r\nzoo\r\nbee\r".to_string());
    assert!(holds(&tree, "sea"));
    assert!(holds(&tree, "zoo"));
    assert!(!holds(&tree, "bee"));
    assert!(holds(&tree, "bee\r"));
}

#[test]
fn every_branch_ends_in_a_word() {
    let tree = load_dictionary_tree("tea\nten\ntent\nto\ntoe\ntoes\nzebra\nzebras\n".to_string());
    check_shape(&tree);
    for w in ["tea", "ten", "tent", "toe", "toes", "zebra", "zebras"] {
        assert!(holds(&tree, w));
    }
    assert!(!holds(&tree, "to"));
    assert!(!holds(&tree, "zebr"));
}

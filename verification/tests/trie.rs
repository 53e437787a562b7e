use english_trie::{Node, Trie};

fn base_node(child: Node) -> Node {
    Node::new(' ', false).with_child(child)
}

fn sorted(mut list: Vec<String>) -> Vec<String> {
    list.sort_unstable();
    list
}

fn vehicles() -> Trie {
    let mut trie = Trie::new();
    trie.add_word("car");
    trie.add_word("truck");
    trie.add_word("train");
    trie
}

#[test]
fn trie_can_receive_words() {
    let mut trie = Trie::new();

    trie.add_word("te");

    let expected = base_node(Node::new('t', false).with_child(Node::new('e', true)));

    assert_eq!(trie.root(), &expected);

    trie.add_word("tes");

    let expected = base_node(
        Node::new('t', false).with_child(Node::new('e', true).with_child(Node::new('s', true))),
    );

    assert_eq!(trie.root(), &expected);
}

#[test]
fn trie_can_provide_suggestions() {
    let mut trie = Trie::new();

    trie.add_word("car");
    trie.add_word("truck");
    trie.add_word("train");

    let mut suggestions = trie.get_suggestions("t");
    suggestions.sort_unstable();
    assert_eq!(suggestions, vec!["train", "truck"]);

    let mut suggestions = trie.get_suggestions("tr");
    suggestions.sort_unstable();
    assert_eq!(suggestions, vec!["train", "truck"]);

    let mut suggestions = trie.get_suggestions("tru");
    suggestions.sort_unstable();
    assert_eq!(suggestions, vec!["truck"]);

    let mut suggestions = trie.get_suggestions("pla");
    suggestions.sort_unstable();
    assert_eq!(suggestions.len(), 0);
}

#[test]
fn new_trie_is_a_bare_root() {
    let trie = Trie::new();
    assert_eq!(trie.root().symbol(), ' ');
    assert!(!trie.root().is_terminal());
    assert_eq!(trie.root().child_count(), 0);
    assert_eq!(trie.root(), &Node::new(' ', false));
    assert!(trie.get_suggestions("").is_empty());
    assert!(trie.get_suggestions("a").is_empty());
}

#[test]
fn inserting_twice_changes_nothing() {
    let mut once = vehicles();
    once.add_word("trunk");
    let mut twice = vehicles();
    twice.add_word("trunk");
    twice.add_word("trunk");

    assert_eq!(once.root(), twice.root());
    for prefix in ["", "t", "tr", "tru", "trunk", "c", "x"] {
        assert_eq!(sorted(once.get_suggestions(prefix)), sorted(twice.get_suggestions(prefix)));
    }
    assert_eq!(sorted(twice.get_suggestions("tru")), vec!["truck", "trunk"]);
}

#[test]
fn every_prefix_of_a_word_suggests_it() {
    let trie = vehicles();
    for prefix in ["", "t", "tr", "tra", "trai", "train"] {
        let suggestions = trie.get_suggestions(prefix);
        assert!(suggestions.contains(&"train".to_string()), "prefix {:?}", prefix);
    }
}

#[test]
fn suggestions_start_with_the_prefix() {
    let mut trie = Trie::new();
    trie.add_word("te");
    trie.add_word("tes");

    assert_eq!(sorted(trie.get_suggestions("te")), vec!["te", "tes"]);
    assert_eq!(sorted(trie.get_suggestions("t")), vec!["te", "tes"]);
    assert_eq!(sorted(trie.get_suggestions("tes")), vec!["tes"]);
    for prefix in ["", "t", "te", "tes"] {
        for word in trie.get_suggestions(prefix) {
            assert!(word.starts_with(prefix));
        }
    }
}

#[test]
fn no_match_gives_an_empty_list() {
    let trie = vehicles();
    assert_eq!(trie.get_suggestions("pla"), Vec::<String>::new());
    assert_eq!(trie.get_suggestions("cars"), Vec::<String>::new());
    assert_eq!(trie.get_suggestions("trz"), Vec::<String>::new());
}

#[test]
fn a_stored_prefix_is_terminal_and_its_parent_is_not() {
    let mut trie = Trie::new();
    trie.add_word("te");
    trie.add_word("tes");

    let root = trie.root();
    assert_eq!(root.child_count(), 1);
    let t = root.child('t').expect("child t");
    assert_eq!(t.symbol(), 't');
    assert!(!t.is_terminal());
    assert_eq!(t.child_count(), 1);
    let e = t.child('e').expect("child e");
    assert_eq!(e.symbol(), 'e');
    assert!(e.is_terminal());
    assert_eq!(e.child_count(), 1);
    let s = e.child('s').expect("child s");
    assert_eq!(s.symbol(), 's');
    assert!(s.is_terminal());
    assert_eq!(s.child_count(), 0);
    assert!(root.child('e').is_none());
    assert!(t.child('s').is_none());
}

#[test]
fn a_prefix_stored_after_the_longer_word_is_marked() {
    let mut trie = Trie::new();
    trie.add_word("tes");
    assert_eq!(sorted(trie.get_suggestions("te")), vec!["tes"]);

    trie.add_word("te");
    assert_eq!(sorted(trie.get_suggestions("te")), vec!["te", "tes"]);
    let e = trie.root().child('t').unwrap().child('e').unwrap();
    assert!(e.is_terminal());
    assert!(e.child('s').unwrap().is_terminal());
    assert!(!trie.root().child('t').unwrap().is_terminal());
}

#[test]
fn the_empty_word_is_not_stored() {
    let mut trie = Trie::new();
    trie.add_word("");
    assert_eq!(trie.root(), &Node::new(' ', false));
    assert!(trie.get_suggestions("").is_empty());

    let mut trie = vehicles();
    let before = sorted(trie.get_suggestions(""));
    trie.add_word("");
    assert!(!trie.root().is_terminal());
    assert_eq!(trie.root().child_count(), 2);
    assert_eq!(sorted(trie.get_suggestions("")), before);
}

#[test]
fn the_empty_prefix_lists_every_word() {
    let trie = vehicles();
    assert_eq!(sorted(trie.get_suggestions("")), vec!["car", "train", "truck"]);
}

#[test]
fn each_word_is_listed_once() {
    let mut trie = vehicles();
    trie.add_word("car");
    trie.add_word("cart");
    trie.add_word("train");
    let all = sorted(trie.get_suggestions(""));
    assert_eq!(all, vec!["car", "cart", "train", "truck"]);
    assert_eq!(trie.get_suggestions("car").len(), 2);
    assert_eq!(trie.get_suggestions("t").len(), 2);
}

#[test]
fn symbols_are_scalar_values_not_bytes() {
    let mut trie = Trie::new();
    trie.add_word("über");
    trie.add_word("übel");
    trie.add_word("日本語");
    trie.add_word("日本");

    assert_eq!(sorted(trie.get_suggestions("ü")), vec!["übel", "über"]);
    assert_eq!(sorted(trie.get_suggestions("日")), vec!["日本", "日本語"]);
    assert_eq!(sorted(trie.get_suggestions("日本語")), vec!["日本語"]);
    assert!(trie.get_suggestions("u").is_empty());
    assert_eq!(trie.root().child_count(), 2);
    assert!(trie.root().child('ü').is_some());
    assert_eq!(trie.root().child('日').unwrap().child('本').unwrap().is_terminal(), true);
}

#[test]
fn case_is_kept_as_given() {
    let mut trie = Trie::new();
    trie.add_word("Car");
    trie.add_word("car");
    assert_eq!(sorted(trie.get_suggestions("C")), vec!["Car"]);
    assert_eq!(sorted(trie.get_suggestions("c")), vec!["car"]);
    assert_eq!(sorted(trie.get_suggestions("")), vec!["Car", "car"]);
}

#[test]
fn find_prefix_node_follows_the_characters() {
    let trie = vehicles();
    let root = trie.root();

    let same = Trie::find_prefix_node(root, "".chars()).expect("the node itself");
    assert_eq!(same, root);

    let tr = Trie::find_prefix_node(root, "tr".chars()).expect("node for tr");
    assert_eq!(tr.symbol(), 'r');
    assert!(!tr.is_terminal());
    assert_eq!(tr.child_count(), 2);

    let car = Trie::find_prefix_node(root, "car".chars()).expect("node for car");
    assert_eq!(car.symbol(), 'r');
    assert!(car.is_terminal());
    assert_eq!(car.child_count(), 0);

    assert!(Trie::find_prefix_node(root, "pla".chars()).is_none());
    assert!(Trie::find_prefix_node(root, "cars".chars()).is_none());

    let mut chars = "xtru".chars();
    chars.next();
    let tru = Trie::find_prefix_node(root, chars).expect("node for tru");
    assert_eq!(tru.symbol(), 'u');
}

#[test]
fn dfs_words_appends_the_words_of_a_subtree() {
    let trie = vehicles();
    let tr = Trie::find_prefix_node(trie.root(), "tr".chars()).unwrap();

    let mut found = vec!["kept".to_string()];
    Trie::dfs_words(tr, "t".to_string(), &mut found);
    assert_eq!(found.len(), 3);
    assert_eq!(found[0], "kept");
    assert_eq!(sorted(found[1..].to_vec()), vec!["train", "truck"]);

    let leaf = Node::new('x', true);
    let mut found = Vec::new();
    Trie::dfs_words(&leaf, "prefi".to_string(), &mut found);
    assert_eq!(found, vec!["prefix"]);

    let chain = Node::new('a', false).with_child(Node::new('b', true));
    let mut found = Vec::new();
    Trie::dfs_words(&chain, String::new(), &mut found);
    assert_eq!(found, vec!["ab"]);
}

#[test]
fn dfs_words_puts_the_symbol_of_the_node_behind_the_path() {
    let e = Node::new('e', true);
    let mut found = vec!["x".to_string()];
    Trie::dfs_words(&e, "t".to_string(), &mut found);
    assert_eq!(found, vec!["x", "te"]);

    let e = Node::new('e', true).with_child(Node::new('s', true));
    let mut found = Vec::new();
    Trie::dfs_words(&e, "t".to_string(), &mut found);
    assert_eq!(sorted(found), vec!["te", "tes"]);
}

#[test]
fn dfs_words_lists_the_start_node_only_where_it_is_terminal() {
    let open = Node::new('e', false).with_child(Node::new('s', true)).with_child(Node::new('a', true));
    let mut found = Vec::new();
    Trie::dfs_words(&open, "t".to_string(), &mut found);
    assert_eq!(sorted(found.clone()), vec!["tea", "tes"]);
    for word in &found {
        assert!(word.starts_with("te"));
    }

    let bare = Node::new('e', false);
    let mut found = vec!["x".to_string()];
    Trie::dfs_words(&bare, "t".to_string(), &mut found);
    assert_eq!(found, vec!["x"]);
}

#[test]
fn the_sentinel_symbol_never_shows_in_a_suggestion() {
    let mut trie = Trie::new();
    trie.add_word("a");
    trie.add_word("ab");
    trie.add_word(" b");
    assert_eq!(sorted(trie.get_suggestions("")), vec![" b", "a", "ab"]);
    assert_eq!(sorted(trie.get_suggestions("a")), vec!["a", "ab"]);
    assert_eq!(sorted(trie.get_suggestions("ab")), vec!["ab"]);
    assert_eq!(sorted(trie.get_suggestions(" ")), vec![" b"]);
}

#[test]
fn a_prefix_that_leads_to_a_node_has_a_suggestion() {
    let trie = vehicles();
    for prefix in ["c", "ca", "car", "t", "tr", "tra", "trai", "train", "tru", "truc", "truck"] {
        assert!(Trie::find_prefix_node(trie.root(), prefix.chars()).is_some());
        assert!(!trie.get_suggestions(prefix).is_empty(), "prefix {:?}", prefix);
    }
    for prefix in ["a", "cb", "cars", "trains", "tx"] {
        assert!(Trie::find_prefix_node(trie.root(), prefix.chars()).is_none());
        assert!(trie.get_suggestions(prefix).is_empty(), "prefix {:?}", prefix);
    }
}

#[test]
fn with_child_files_a_child_under_its_symbol() {
    let node = Node::new('a', false).with_child(Node::new('b', false));
    assert_eq!(node.child_count(), 1);
    assert!(!node.child('b').unwrap().is_terminal());

    let node = node.with_child(Node::new('b', true)).with_child(Node::new('c', false));
    assert_eq!(node.symbol(), 'a');
    assert!(!node.is_terminal());
    assert_eq!(node.child_count(), 2);
    assert!(node.child('b').unwrap().is_terminal());
    assert_eq!(node.child('c').unwrap().symbol(), 'c');
    assert!(node.child('d').is_none());
}

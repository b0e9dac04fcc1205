use wordbush::radix::Radix;

#[test]
fn tree_insert_one_word() {
    let mut root = Radix::new();

    let _ = root.insert(String::from("hej"));
    let child: Option<&Radix> = root.child('h');
    assert_eq!(child.is_some_and(|w| w.chars() == "hej"), true);
}

#[test]
fn tree_insert_parent_then_child() {
    let mut root = Radix::new();

    let _ = root.insert(String::from("hej"));
    let _ = root.insert(String::from("hejsa"));

    let first_child: Option<&Radix> = root.child('h');
    assert_eq!(first_child.is_some_and(|node| node.chars() == "hej"), true);

    let second_child: Option<&Radix> = first_child.unwrap().child('s');
    assert_eq!(second_child.is_some_and(|node| *node.chars() == String::from("sa")), true);
}

#[test]
fn tree_insert_child_then_parent() {
    let mut root = Radix::new();

    let _ = root.insert(String::from("hejsa"));
    let _ = root.insert(String::from("hej"));

    let first_child: Option<&Radix> = root.child('h');
    assert_eq!(first_child.is_some_and(|node| node.chars() == "hej"), true);

    let second_child: Option<&Radix> = first_child.unwrap().child('s');
    assert_eq!(second_child.is_some_and(|node| *node.chars() == String::from("sa")), true);
}

#[test]
fn tree_split_common_prefix_into_parent() {
    let mut root = Radix::new();

    let _ = root.insert(String::from("hejsa"));
    let _ = root.insert(String::from("hejse"));

    let level_one_child: Option<&Radix> = root.child('h');
    assert_eq!(level_one_child.is_some_and(|node| *node.chars() == String::from("hejs")), true);

    let level_one_child = level_one_child.unwrap();
    assert_eq!(level_one_child.is_word(), false);

    let level_two_child_one: Option<&Radix> = level_one_child.child('a');
    assert_eq!(level_two_child_one.is_some_and(|node| *node.chars() == String::from("a")), true);

    let level_two_child_two: Option<&Radix> = level_one_child.child('e');
    assert_eq!(level_two_child_two.is_some_and(|node| *node.chars() == String::from('e')), true);
}

#[test]
fn tree_mark_existing_node_as_word() {
    let mut root = Radix::new();

    let _ = root.insert(String::from("hejsa"));
    let _ = root.insert(String::from("hejse"));
    let _ = root.insert(String::from("hejs"));

    let level_one_child: Option<&Radix> = root.child('h');
    assert_eq!(level_one_child.is_some_and(|node| node.is_word() == true), true);
}

#[test]
fn tree_lookup_positive() {
    let mut root = Radix::new();

    let _ = root.insert(String::from("hej"));
    let res = root.lookup(&String::from("hej"));
    assert_eq!(res, Ok(()));
}

#[test]
fn tree_lookup_negative() {
    let mut root = Radix::new();

    let _ = root.insert(String::from("hej"));
    let res = root.lookup(&String::from("hehe"));
    assert_eq!(res, Err("Key not found in tree"));
}

#[test]
fn new_tree_is_empty() {
    let root = Radix::new();
    assert_eq!(root.chars().as_str(), "");
    assert!(!root.is_word());
    assert!(root.child('a').is_none());
    assert_eq!(root.lookup(&String::from("a")), Err("Key not found in tree"));
    assert_eq!(root.lookup(&String::new()), Err("Key found, but is not marked as a word"));
}

#[test]
fn lookup_of_split_prefix_is_not_a_word() {
    let mut root = Radix::new();
    root.insert(String::from("hejsa"));
    root.insert(String::from("hejse"));
    assert_eq!(root.lookup(&String::from("hejs")), Err("Key found, but is not marked as a word"));
    assert_eq!(root.lookup(&String::from("hejsa")), Ok(()));
    assert_eq!(root.lookup(&String::from("hejse")), Ok(()));
    assert_eq!(root.lookup(&String::from("hejsx")), Err("Key not found in tree"));
    assert_eq!(root.lookup(&String::from("he")), Err("Key not found in tree"));
}

#[test]
fn lookup_lowercases_the_key() {
    let mut root = Radix::new();
    root.insert(String::from("hej"));
    assert_eq!(root.lookup(&String::from("HEJ")), Ok(()));
    assert_eq!(root.lookup(&String::from("Hej")), Ok(()));
}

#[test]
fn uppercase_words_are_stored_as_given() {
    let mut root = Radix::new();
    root.insert(String::from("Hej"));
    assert!(root.child('H').is_some());
    assert_eq!(root.lookup(&String::from("Hej")), Err("Key not found in tree"));
}

#[test]
fn lookup_descends_past_a_partial_match() {
    let mut root = Radix::new();
    root.insert(String::from("abd"));
    root.insert(String::from("abe"));
    assert_eq!(root.lookup(&String::from("abd")), Ok(()));
    assert_eq!(root.lookup(&String::from("ae")), Ok(()));
}

#[test]
fn insert_below_existing_word() {
    let mut root = Radix::new();
    root.insert(String::from("hej"));
    root.insert(String::from("hejsan"));
    root.insert(String::from("hejsa"));
    let hej = root.child('h').unwrap();
    assert_eq!(hej.chars(), "hej");
    assert!(hej.is_word());
    let sa = hej.child('s').unwrap();
    assert_eq!(sa.chars(), "sa");
    assert!(sa.is_word());
    let n = sa.child('n').unwrap();
    assert_eq!(n.chars(), "n");
    assert!(n.is_word());
    for w in ["hej", "hejsa", "hejsan"] {
        assert_eq!(root.lookup(&String::from(w)), Ok(()));
    }
}

#[test]
fn insert_is_idempotent() {
    let mut root = Radix::new();
    root.insert(String::from("ord"));
    root.insert(String::from("ord"));
    let node = root.child('o').unwrap();
    assert_eq!(node.chars(), "ord");
    assert!(node.is_word());
    assert!(node.child('d').is_none());
}

#[test]
fn can_insert_rejects_what_would_panic() {
    let mut root = Radix::new();
    assert!(!root.can_insert(&String::new()));
    assert!(root.can_insert(&String::from("éa")));
    root.insert(String::from("éa"));
    // the prefix "é" has two bytes: the rest would be skipped by two characters
    assert!(!root.can_insert(&String::from("é")));
    assert!(root.can_insert(&String::from("éb")));
    assert!(root.can_insert(&String::from("x")));
}

#[test]
fn non_ascii_prefix_skips_by_bytes() {
    let mut root = Radix::new();
    root.insert(String::from("é"));
    root.insert(String::from("éab"));
    let e = root.child('é').unwrap();
    assert_eq!(e.chars(), "é");
    let b = e.child('b').unwrap();
    assert_eq!(b.chars(), "b");
    assert!(e.child('a').is_none());
}

fn same_tree(a: &Radix, b: &Radix) -> bool {
    if a.chars() != b.chars() || a.is_word() != b.is_word() {
        return false;
    }
    ('a'..='z').all(|c| match (a.child(c), b.child(c)) {
        (None, None) => true,
        (Some(x), Some(y)) => same_tree(x, y),
        _ => false,
    })
}

#[test]
fn clone_copies_the_tree() {
    let mut root = Radix::new();
    root.insert(String::from("hej"));
    root.insert(String::from("hejsa"));
    let mut copy = root.clone();
    assert!(same_tree(&root, &copy));
    copy.insert(String::from("ord"));
    assert_eq!(copy.lookup(&String::from("ord")), Ok(()));
    assert_eq!(root.lookup(&String::from("ord")), Err("Key not found in tree"));
    assert!(!same_tree(&root, &copy));
}

#[test]
fn insertions_commute() {
    let words = ["hej", "hejsa", "hejse", "hejs", "ord", "orden", "o"];
    for a in words {
        for b in words {
            let mut base = Radix::new();
            base.insert(String::from("hejsan"));
            base.insert(String::from("or"));
            let mut ab = base.clone();
            ab.insert(String::from(a));
            ab.insert(String::from(b));
            let mut ba = base.clone();
            ba.insert(String::from(b));
            ba.insert(String::from(a));
            assert!(same_tree(&ab, &ba), "{a} then {b}");
        }
    }
}

#[test]
fn word_less_nodes_have_two_children() {
    let mut root = Radix::new();
    root.insert(String::from("hejsa"));
    root.insert(String::from("hejse"));
    let hejs = root.child('h').unwrap();
    assert!(!hejs.is_word());
    assert!(hejs.child('a').is_some() && hejs.child('e').is_some());
    root.insert(String::from("hejst"));
    let hejs = root.child('h').unwrap();
    assert!(hejs.child('a').is_some() && hejs.child('e').is_some() && hejs.child('t').is_some());
}

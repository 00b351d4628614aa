use art::{none_header, Art, NodeHeader, NodePtr, TwigNode};

fn twig(doc: &str) -> TwigNode {
    TwigNode::new(none_header(), String::from(doc))
}

fn numbered(n: usize) -> TwigNode {
    TwigNode::new(none_header(), format!("doc {}", n))
}

#[test]
fn basic() {
    let mut art = Art::new();
    art.insert(&[37], TwigNode::new(none_header(), String::from("Test")));
    art.insert(&[0], TwigNode::new(none_header(), String::from("Test2")));
    assert_eq!(art.len(), 2);

    art.insert(&[5], TwigNode::new(none_header(), String::from("Test5")));
    art.insert(&[1], TwigNode::new(none_header(), String::from("Test1")));
    art.insert(&[0], TwigNode::new(none_header(), String::from("Test0")));
    art.insert(&[255], TwigNode::new(none_header(), String::from("Test255")));
    art.insert(&[0], TwigNode::new(none_header(), String::from("Test0")));
    art.insert(&[47], TwigNode::new(none_header(), String::from("Test47")));
    art.insert(&[253], TwigNode::new(none_header(), String::from("Test253")));
    assert_eq!(art.len(), 7);

    art.insert(&[10], TwigNode::new(none_header(), String::from("Test")));
    art.insert(&[38], TwigNode::new(none_header(), String::from("Test2")));
    art.insert(&[24], TwigNode::new(none_header(), String::from("Test72")));
    assert_eq!(art.len(), 10);
    art.insert(&[28], TwigNode::new(none_header(), String::from("Test")));
    art.insert(&[30], TwigNode::new(none_header(), String::from("Test")));
    art.insert(&[28], TwigNode::new(none_header(), String::from("Test44")));
    art.insert(&[51], TwigNode::new(none_header(), String::from("Test")));
    art.insert(&[53], TwigNode::new(none_header(), String::from("Test")));
    art.insert(&[59], TwigNode::new(none_header(), String::from("Test")));
    art.insert(&[58], TwigNode::new(none_header(), String::from("Test")));
    assert_eq!(art.len(), 16);
}

#[test]
fn regression_04() {
    let mut art = Art::new();

    art.insert(&[], TwigNode::new(none_header(), String::from("Test")));

    assert_eq!(
        art.get(&[]),
        Some(&TwigNode::new(none_header(), String::from("Test")))
    );
    assert_eq!(
        art.remove(&[]),
        Some(TwigNode::new(none_header(), String::from("Test")))
    );
    assert_eq!(art.get(&[]), None);
}

#[test]
fn regression_05() {
    let art = Art::new();

    assert!(art.root.is_none());
}

#[test]
fn single_byte_keys_with_replacements() {
    let mut art = Art::new();
    assert_eq!(art.insert(&[37], numbered(38)), None);
    assert_eq!(art.insert(&[0], numbered(1)), None);
    assert_eq!(art.len(), 2);
    art.insert(&[5], numbered(5));
    art.insert(&[1], numbered(9));
    assert_eq!(art.insert(&[0], numbered(0)), Some(numbered(1)));
    art.insert(&[255], numbered(255));
    assert_eq!(art.insert(&[0], numbered(0)), Some(numbered(0)));
    art.insert(&[47], numbered(0));
    art.insert(&[253], numbered(37));
    assert_eq!(art.len(), 7);
    for (key, value) in [(10, 0), (38, 28), (24, 28)] {
        art.insert(&[key], numbered(value));
    }
    assert_eq!(art.len(), 10);
    for (key, value) in [(28, 30), (30, 30), (28, 15), (51, 48), (53, 255), (59, 58), (58, 58)] {
        art.insert(&[key], numbered(value));
    }
    assert_eq!(art.len(), 16);
    assert_eq!(art.remove(&[85]), None);
    assert_eq!(art.len(), 16);
    for value in [30, 0, 0] {
        art.insert(&[30], numbered(value));
    }
    assert_eq!(art.len(), 16);
    art.insert(&[143], numbered(254));
    assert_eq!(art.len(), 17);
    art.insert(&[30], numbered(30));
    assert_eq!(art.len(), 17);
    assert_eq!(art.remove(&[85]), None);
    assert_eq!(art.len(), 17);
    assert_eq!(art.get(&[28]), Some(&numbered(15)));
    assert_eq!(art.get(&[143]), Some(&numbered(254)));
}

#[test]
fn an_insertion_returns_what_it_replaces() {
    let mut art = Art::new();
    assert_eq!(art.insert(&[0, 0, 0], numbered(0)), None);
    assert_eq!(art.insert(&[0, 11, 0], numbered(1)), None);
    assert_eq!(art.insert(&[0, 0, 0], numbered(2)), Some(numbered(0)));
    assert_eq!(art.get(&[0, 0, 0]), Some(&numbered(2)));
    assert_eq!(art.get(&[0, 11, 0]), Some(&numbered(1)));
    assert_eq!(art.len(), 2);
}

#[test]
fn removing_an_absent_key_changes_nothing() {
    let mut art = Art::new();
    art.insert(&[1, 1, 1], numbered(1));
    assert_eq!(art.remove(&[2, 2, 2]), None);
    assert_eq!(art.len(), 1);
    art.insert(&[0, 0, 0], numbered(5));
    assert_eq!(art.remove(&[0, 1, 0]), None);
    assert_eq!(art.remove(&[2, 1, 0]), None);
    assert_eq!(art.len(), 2);
    assert_eq!(art.get(&[0, 0, 0]), Some(&numbered(5)));
    assert_eq!(art.get(&[1, 1, 1]), Some(&numbered(1)));
}

#[test]
fn removing_the_only_key_removes_the_root() {
    let mut art = Art::new();
    let k = [0; 2];
    art.insert(&k, numbered(0));
    assert!(!art.root.is_none());
    assert!(!art.is_empty());
    assert_eq!(art.remove(&k), Some(numbered(0)));
    assert!(art.root.is_none());
    assert!(art.is_empty());
    assert_eq!(art.remove(&k), None);
}

#[test]
fn many_keys_come_and_go() {
    let mut art = Art::new();
    let max = u16::MAX as u32 + 1;
    for i in 0..max {
        assert_eq!(art.insert(&i.to_be_bytes(), numbered(i as usize)), None);
    }
    assert_eq!(art.len(), max as usize);
    for i in 0..max {
        assert_eq!(art.get(&i.to_be_bytes()), Some(&numbered(i as usize)));
    }
    for i in 0..max {
        assert_eq!(art.remove(&i.to_be_bytes()), Some(numbered(i as usize)));
    }
    assert!(art.is_empty());
    assert!(art.root.is_none());
}

#[test]
fn the_default_map_is_empty() {
    let art = Art::default();
    assert_eq!(art.len(), 0);
    assert!(art.is_empty());
    assert!(art.root.is_none());
    assert_eq!(art.get(&[1, 2]), None);
    assert_eq!(art.get(&[]), None);
}

#[test]
fn long_keys_take_several_nodes() {
    let mut art = Art::new();
    let long: Vec<u8> = (0..35).collect();
    let mut other = long.clone();
    other[34] = 200;
    art.insert(&long, twig("long"));
    match &art.root {
        NodePtr::Node1(n1) => {
            assert_eq!(n1.header.path_len, 9);
            assert_eq!(n1.header.path, [0, 1, 2, 3, 4, 5, 6, 7, 8]);
            assert_eq!(n1.key, 9);
            assert_eq!(n1.header.children, 1);
        }
        _ => panic!("one child"),
    }
    assert_eq!(art.insert(&other, twig("other")), None);
    assert_eq!(art.get(&long), Some(&twig("long")));
    assert_eq!(art.get(&other), Some(&twig("other")));
    let mut third = long.clone();
    third[3] = 77;
    assert_eq!(art.get(&third), None);
    assert_eq!(art.insert(&third, twig("third")), None);
    match &art.root {
        NodePtr::Node4(n4) => {
            assert_eq!(n4.header.path_len, 3);
            assert_eq!(n4.header.path, [0, 1, 2, 0, 0, 0, 0, 0, 0]);
            assert_eq!(n4.header.children, 2);
        }
        _ => panic!("two children"),
    }
    assert_eq!(art.len(), 3);
    assert_eq!(art.remove(&long), Some(twig("long")));
    assert_eq!(art.remove(&third), Some(twig("third")));
    assert_eq!(art.get(&other), Some(&twig("other")));
    assert_eq!(art.remove(&other), Some(twig("other")));
    assert!(art.root.is_none());
}

#[test]
fn a_cut_path_keeps_its_rest() {
    let mut art = Art::new();
    art.insert(&[1, 2, 3, 4, 5], twig("a"));
    art.insert(&[1, 2, 9, 4, 5], twig("b"));
    match art.root.child(3) {
        Some(NodePtr::Node1(n1)) => {
            assert_eq!(n1.header.path_len, 1);
            assert_eq!(n1.header.path, [4, 0, 0, 0, 0, 0, 1, 2, 3]);
            assert_eq!(n1.key, 5);
        }
        _ => panic!("the old node"),
    }
    assert_eq!(art.get(&[1, 2, 3, 4, 5]), Some(&twig("a")));
    assert_eq!(art.get(&[1, 2, 9, 4, 5]), Some(&twig("b")));
    assert_eq!(art.get(&[1, 2, 3, 4, 6]), None);
    assert_eq!(art.get(&[1, 2, 4, 4, 5]), None);
}

#[test]
fn nodes_grow_and_shrink_with_their_children() {
    let mut art = Art::new();
    for n in 1..=256usize {
        art.insert(&[7, (n - 1) as u8], numbered(n));
        art.root.assert_size();
        assert!(art.root.has_size());
        assert_eq!(art.root.len(), n);
        match n {
            1 => assert!(matches!(art.root, NodePtr::Node1(_))),
            2..=4 => assert!(matches!(art.root, NodePtr::Node4(_))),
            5..=16 => assert!(matches!(art.root, NodePtr::Node16(_))),
            17..=48 => assert!(matches!(art.root, NodePtr::Node48(_))),
            _ => assert!(matches!(art.root, NodePtr::Node256(_))),
        }
    }
    for n in (1..=256usize).rev() {
        assert_eq!(art.get(&[7, (n - 1) as u8]), Some(&numbered(n)));
        assert_eq!(art.remove(&[7, (n - 1) as u8]), Some(numbered(n)));
        assert_eq!(art.get(&[7, (n - 1) as u8]), None);
        assert_eq!(art.len(), n - 1);
        match n - 1 {
            0 => assert!(art.root.is_none()),
            1 => assert!(matches!(art.root, NodePtr::Node1(_))),
            2..=4 => assert!(matches!(art.root, NodePtr::Node4(_))),
            5..=16 => assert!(matches!(art.root, NodePtr::Node16(_))),
            17..=48 => assert!(matches!(art.root, NodePtr::Node48(_))),
            _ => assert!(matches!(art.root, NodePtr::Node256(_))),
        }
        for k in 1..n {
            assert_eq!(art.get(&[7, (k - 1) as u8]), Some(&numbered(k)));
        }
    }
}

#[test]
fn a_removal_empties_whole_branches() {
    let mut art = Art::new();
    for x in 0..20u8 {
        art.insert(&[x, 1, 2, 3], numbered(x as usize));
    }
    assert!(matches!(art.root, NodePtr::Node48(_)));
    for x in 0..16u8 {
        assert_eq!(art.remove(&[x, 1, 2, 3]), Some(numbered(x as usize)));
        assert!(art.root.child(x).is_none());
        assert_eq!(art.root.len(), 19 - x as usize);
    }
    assert!(matches!(art.root, NodePtr::Node4(_)));
    for x in 16..20u8 {
        assert_eq!(art.get(&[x, 1, 2, 3]), Some(&numbered(x as usize)));
    }
    for x in 16..20u8 {
        art.remove(&[x, 1, 2, 3]);
    }
    assert!(art.root.is_none());
}

#[test]
fn a_key_may_return_to_another_slot() {
    let mut art = Art::new();
    for x in [5u8, 6, 7] {
        art.insert(&[x], numbered(x as usize));
    }
    art.remove(&[6]);
    art.remove(&[5]);
    art.insert(&[8], numbered(8));
    art.insert(&[6], numbered(60));
    art.insert(&[5], numbered(50));
    assert_eq!(art.len(), 4);
    assert_eq!(art.get(&[5]), Some(&numbered(50)));
    assert_eq!(art.get(&[6]), Some(&numbered(60)));
    assert_eq!(art.get(&[7]), Some(&numbered(7)));
    assert_eq!(art.get(&[8]), Some(&numbered(8)));
    assert_eq!(art.remove(&[6]), Some(numbered(60)));
    assert_eq!(art.get(&[6]), None);
}

#[test]
fn insertions_commute() {
    let keys: [&[u8]; 4] = [&[1, 2, 3], &[1, 2, 4], &[1, 3], &[2]];
    let mut forth = Art::new();
    let mut back = Art::new();
    for (i, key) in keys.iter().enumerate() {
        forth.insert(key, numbered(i));
    }
    for (i, key) in keys.iter().enumerate().rev() {
        back.insert(key, numbered(i));
    }
    assert_eq!(forth.len(), back.len());
    for (i, key) in keys.iter().enumerate() {
        assert_eq!(forth.get(key), Some(&numbered(i)));
        assert_eq!(back.get(key), Some(&numbered(i)));
    }
}

#[test]
fn a_removal_undoes_an_insertion() {
    let mut art = Art::new();
    art.insert(&[1, 2, 3], twig("kept"));
    assert_eq!(art.insert(&[1, 2, 4], twig("gone")), None);
    assert_eq!(art.remove(&[1, 2, 4]), Some(twig("gone")));
    assert_eq!(art.len(), 1);
    assert_eq!(art.get(&[1, 2, 3]), Some(&twig("kept")));
    assert_eq!(art.get(&[1, 2, 4]), None);
}

#[test]
fn a_copy_is_independent() {
    let mut art = Art::new();
    for i in 0..60u16 {
        art.insert(&i.to_be_bytes(), numbered(i as usize));
        art.insert(&[1 + (i as u8), 0, 0, 1], numbered(1000 + i as usize));
    }
    let copy = art.clone();
    assert_eq!(copy.len(), art.len());
    for i in 0..60u16 {
        assert_eq!(art.remove(&i.to_be_bytes()), Some(numbered(i as usize)));
        assert_eq!(copy.get(&i.to_be_bytes()), Some(&numbered(i as usize)));
        assert_eq!(
            copy.get(&[1 + (i as u8), 0, 0, 1]),
            Some(&numbered(1000 + i as usize))
        );
    }
    assert_eq!(art.len(), 60);
    assert_eq!(copy.len(), 120);
}

#[test]
fn keys_that_clash_are_known_beforehand() {
    let mut art = Art::new();
    assert!(art.can_insert(&[]));
    assert!(art.can_get(&[]));
    assert!(art.can_remove(&[]));
    art.insert(&[1, 2, 3], twig("a"));
    assert!(art.can_insert(&[1, 2, 3]));
    assert!(art.can_insert(&[1, 2, 4]));
    assert!(art.can_insert(&[2]));
    assert!(!art.can_insert(&[]));
    assert!(!art.can_insert(&[1]));
    assert!(!art.can_insert(&[1, 2]));
    assert!(!art.can_insert(&[1, 2, 3, 4]));
    assert!(!art.can_get(&[]));
    assert!(!art.can_get(&[1, 2]));
    assert!(!art.can_get(&[1, 2, 3, 4]));
    assert!(!art.can_remove(&[]));
    assert!(!art.can_remove(&[1, 2, 3, 4]));
    // inside the compressed path a lookup ends
    assert!(art.can_get(&[1]));
    assert_eq!(art.get(&[1]), None);
    assert!(art.can_remove(&[1]));
    assert_eq!(art.remove(&[1]), None);
    assert!(art.can_remove(&[1, 2]));
    assert_eq!(art.remove(&[1, 2]), None);
    assert_eq!(art.len(), 1);
}

#[test]
fn a_leaf_with_a_path_of_its_own_ends_a_lookup() {
    let mut art = Art::new();
    let header = NodeHeader {
        path: [8, 8, 0, 0, 0, 0, 0, 0, 0],
        path_len: 2,
        children: 0,
        ts: 3,
    };
    let leaf = TwigNode::new(header, String::from("leaf"));
    art.insert(&[1], leaf.clone());
    assert!(art.can_get(&[1, 2]));
    assert_eq!(art.get(&[1, 2]), None);
    assert!(art.can_remove(&[1, 2]));
    assert_eq!(art.remove(&[1, 2]), None);
    assert!(!art.can_get(&[1, 8, 8]));
    assert!(!art.can_get(&[1, 8, 8, 1]));
    assert!(art.can_remove(&[1, 8, 8]));
    assert!(!art.can_remove(&[1, 8, 8, 1]));
    assert_eq!(art.get(&[1]), Some(&leaf));

    let counted = NodeHeader { children: 1, ..header };
    art.insert(&[1], TwigNode::new(counted, String::from("leaf")));
    assert!(art.can_get(&[1, 2]));
    assert!(!art.can_remove(&[1, 2]));
    let torn = NodeHeader { path_len: 10, ..header };
    art.insert(&[1], TwigNode::new(torn, String::from("leaf")));
    assert!(!art.can_get(&[1, 2]));
    assert!(!art.can_remove(&[1, 2]));
}

#[test]
fn a_removal_makes_room() {
    let mut art = Art::new();
    art.insert(&[1, 2], twig("a"));
    art.insert(&[3], twig("b"));
    assert!(!art.can_insert(&[1]));
    assert!(!art.can_insert(&[1, 2, 3]));
    assert!(art.can_insert(&[4]));
    assert_eq!(art.remove(&[1, 2]), Some(twig("a")));
    assert!(art.can_insert(&[4]));
    assert!(art.can_insert(&[1, 2, 3]));
    assert!(art.can_insert(&[1]));
    assert_eq!(art.insert(&[1], twig("c")), None);
    assert_eq!(art.get(&[1]), Some(&twig("c")));
    assert_eq!(art.get(&[3]), Some(&twig("b")));
}

#[test]
fn time_stamps_stay_with_their_nodes() {
    let mut art = Art::new();
    art.insert(&[1, 2, 3, 4], twig("a"));
    assert_eq!(art.root.header().ts, 0);
    art.root.header_mut().ts = 7;
    art.insert(&[1, 2, 3, 5], twig("b"));
    assert_eq!(art.root.header().ts, 7);
    art.insert(&[1, 9, 9, 9], twig("c"));
    assert_eq!(art.root.header().ts, 0);
    assert_eq!(art.root.child(2).map(|node| node.header().ts), Some(7));
    assert_eq!(art.root.child(9).map(|node| node.header().ts), Some(0));
    art.remove(&[1, 2, 3, 5]);
    assert!(matches!(art.root.child(2), Some(NodePtr::Node1(_))));
    assert_eq!(art.root.child(2).map(|node| node.header().ts), Some(7));
}

#[test]
fn a_removal_that_finds_nothing_keeps_the_nodes() {
    let mut art = Art::new();
    for x in 0..20u8 {
        art.insert(&[x, 1], numbered(x as usize));
    }
    for key in [&[30u8, 1][..], &[3, 2], &[3], &[40, 1, 1]] {
        if art.can_remove(key) {
            assert_eq!(art.remove(key), None);
        }
    }
    match &art.root {
        NodePtr::Node48(n48) => {
            for x in 0..20u8 {
                assert_eq!(n48.key_hashes[x as usize], Some(x));
            }
            assert_eq!(n48.key_hashes[30], None);
            assert_eq!(n48.header.children, 20);
        }
        _ => panic!("twenty children"),
    }
    assert_eq!(art.len(), 20);
}

#[test]
fn children_stand_in_the_slots_in_which_they_came() {
    let mut art = Art::new();
    for x in [9u8, 3, 200] {
        art.insert(&[7, x], numbered(x as usize));
    }
    match &art.root {
        NodePtr::Node4(n4) => assert_eq!(n4.keys, [Some(9), Some(3), Some(200), None]),
        _ => panic!("three children"),
    }
    art.remove(&[7, 3]);
    art.insert(&[7, 5], numbered(5));
    match &art.root {
        NodePtr::Node4(n4) => {
            assert_eq!(n4.keys, [Some(9), Some(5), Some(200), None]);
            assert_eq!(n4.header.path, [7, 0, 0, 0, 0, 0, 0, 0, 0]);
        }
        _ => panic!("three children"),
    }
    // a cut puts the old node first, and the key that caused it next
    art.insert(&[6, 1], numbered(1));
    match &art.root {
        NodePtr::Node4(n4) => {
            assert_eq!(n4.keys, [Some(7), Some(6), None, None]);
            assert_eq!(n4.header.path_len, 0);
            assert_eq!(n4.slots[0].header().path, [0, 0, 0, 0, 0, 0, 0, 0, 7]);
            assert!(matches!(n4.slots[1], NodePtr::Node1(_)));
        }
        _ => panic!("two children"),
    }
}

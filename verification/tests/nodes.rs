use art::bound::map_bound;
use art::bytes::{count_shared, starts_with};
use art::header::none_header_ref;
use art::node1::Node1;
use art::node16::Node16;
use art::node256::Node256;
use art::node4::Node4;
use art::node48::Node48;
use art::pointer::{NodeMut, NodeRef};
use art::slots::{count_filled, first_free, first_key, no_slots};
use art::{none_header, Art, NodeHeader, NodePtr, TwigNode};
use std::ops::Bound;

fn leaf(n: u32) -> NodePtr {
    NodePtr::value(TwigNode::new(none_header(), format!("{}", n)))
}

fn doc(node: &NodePtr) -> String {
    match node {
        NodePtr::Value(twig) => twig.doc.clone(),
        _ => panic!("no leaf"),
    }
}

fn tree(n: u32) -> Art {
    let mut art = Art::new();
    // the bytes come in an order of their own
    for i in 0..n {
        let x = ((i * 101 + 3) % 256) as u8;
        art.insert(&[x], TwigNode::new(none_header(), format!("{}", x)));
    }
    art
}

#[test]
fn byte_strings() {
    assert!(starts_with(&[1, 2, 3], &[]));
    assert!(starts_with(&[1, 2, 3], &[1, 2]));
    assert!(starts_with(&[1, 2, 3], &[1, 2, 3]));
    assert!(!starts_with(&[1, 2, 3], &[1, 3]));
    assert!(!starts_with(&[1, 2], &[1, 2, 3]));
    assert_eq!(count_shared(&[1, 2, 3], &[1, 2, 4]), 2);
    assert_eq!(count_shared(&[1, 2], &[1, 2, 4]), 2);
    assert_eq!(count_shared(&[], &[1]), 0);
    assert_eq!(count_shared(&[2], &[1]), 0);
}

#[test]
fn headers() {
    let blank = none_header();
    assert_eq!(blank, NodeHeader::default());
    assert_eq!(blank, *none_header_ref());
    assert_eq!(blank.path, [0; 9]);
    assert_eq!((blank.path_len, blank.children, blank.ts), (0, 0, 0));
    let mut header = NodeHeader::with_path(&[1, 2, 3, 4]);
    assert_eq!(header.prefix_bytes(), &[1, 2, 3, 4]);
    header.strip(3);
    assert_eq!(header.prefix_bytes(), &[4]);
    assert_eq!(header.path, [4, 0, 0, 0, 0, 0, 1, 2, 3]);
    let mut whole = NodeHeader::with_path(&[1, 2, 3, 4, 5, 6, 7, 8, 9]);
    whole.strip(9);
    assert_eq!(whole.path_len, 0);
    assert_eq!(whole.path, [1, 2, 3, 4, 5, 6, 7, 8, 9]);
}

#[test]
fn slots_are_counted_and_found() {
    let mut slots = no_slots(4);
    assert_eq!(slots.len(), 4);
    assert_eq!(count_filled(&slots), 0);
    assert_eq!(first_free(&slots), Some(0));
    slots[0] = leaf(1);
    slots[2] = leaf(2);
    assert_eq!(count_filled(&slots), 2);
    assert_eq!(first_free(&slots), Some(1));
    slots[1] = leaf(3);
    slots[3] = leaf(4);
    assert_eq!(first_free(&slots), None);
    assert_eq!(first_key(&[None, Some(3), Some(3)], 3), Some(1));
    assert_eq!(first_key(&[None, Some(3)], 4), None);
}

#[test]
fn fresh_nodes_have_no_children() {
    assert!(Node1::default().child(0).is_none());
    assert!(Node4::default().child(0).is_none());
    assert!(Node16::default().child(0).is_none());
    assert!(Node48::default().child(0).is_none());
    assert!(Node256::default().child(0).is_none());
    assert!(NodePtr::default().is_none());
    assert!(NodePtr::none().child(0).is_none());
    assert_eq!(Node4::default().free_slot(), Some(0));
    assert_eq!(Node16::default().free_slot(), Some(0));
    assert_eq!(Node48::default().free_slot(), Some(0));
}

#[test]
fn a_child_is_stored_through_its_slot() {
    let mut n1 = Node1::default();
    {
        let (children, slot) = n1.child_mut(9);
        *children = 1;
        *slot = leaf(9);
    }
    assert_eq!(n1.header.children, 1);
    assert_eq!(doc(n1.child(9).unwrap()), "9");
    assert!(n1.child(8).is_none());

    let mut n4 = n1.upgrade();
    assert!(n1.child(9).is_none());
    assert_eq!(doc(n4.child(9).unwrap()), "9");
    for x in [3u8, 200, 5] {
        let (_, slot) = n4.child_mut(x);
        *slot = leaf(x as u32);
    }
    assert_eq!(n4.free_slot(), None);
    let mut n16 = n4.upgrade();
    assert!(n4.child(3).is_none());
    for x in 20..32u8 {
        let (_, slot) = n16.child_mut(x);
        *slot = leaf(x as u32);
    }
    assert_eq!(n16.free_slot(), None);
    let mut n48 = n16.upgrade();
    for x in 40..72u8 {
        let (_, slot) = n48.child_mut(x, false);
        *slot = leaf(x as u32);
    }
    assert_eq!(n48.free_slot(), None);
    let n256 = n48.upgrade();
    assert!(n48.child(40).is_none());
    for x in [9u8, 3, 200, 5].into_iter().chain(20..32).chain(40..72) {
        assert_eq!(doc(n256.child(x).unwrap()), format!("{}", x));
    }
    assert!(n256.child(0).is_none());
    assert_eq!(n256.iter().len(), 48);
}

#[test]
fn nodes_shrink_by_one_size() {
    let mut n256 = Node256::default();
    for x in 100..148u8 {
        let (_, slot) = n256.child_mut(x);
        *slot = leaf(x as u32);
    }
    let mut n48 = n256.downgrade();
    assert_eq!(n48.iter().len(), 48);
    for x in 116..148u8 {
        let (_, slot) = n48.child_mut(x, true);
        *slot = NodePtr::none();
        assert!(n48.child(x).is_none());
    }
    let mut n16 = n48.downgrade();
    assert_eq!(n16.iter().len(), 16);
    for x in 104..116u8 {
        let (_, slot) = n16.child_mut(x);
        *slot = NodePtr::none();
    }
    let mut n4 = n16.downgrade();
    assert_eq!(n4.iter().len(), 4);
    for x in [100u8, 101, 103] {
        let (_, slot) = n4.child_mut(x);
        *slot = NodePtr::none();
    }
    let n1 = n4.downgrade();
    assert_eq!(n1.key, 102);
    assert_eq!(doc(&n1.slot), "102");
}

#[test]
fn children_are_listed_in_order() {
    for n in [1u32, 3, 4, 11, 16, 30, 48, 100, 256] {
        let art = tree(n);
        let iter = art.root.node_iter();
        assert_eq!(iter.children.len(), n as usize);
        assert_eq!(iter.node.len(), n as usize);
        let mut last: Option<u8> = None;
        for (key, child) in iter.children.iter() {
            assert!(*key > last);
            assert_eq!(doc(child), format!("{}", key.unwrap()));
            last = *key;
        }
    }
    assert_eq!(NodePtr::none().node_iter().children.len(), 0);
    assert_eq!(leaf(1).node_iter().children.len(), 0);
    let n1 = Node1::default();
    assert_eq!(n1.iter().len(), 1);
    assert_eq!(n1.iter()[0].0, Some(0));
}

#[test]
fn pointers_lead_to_their_nodes() {
    let mut node = NodePtr::node4(Box::new(Node4::default()));
    assert!(matches!(node.deref(), NodeRef::Node4(_)));
    match node.deref_mut() {
        NodeMut::Node4(n4) => n4.header.ts = 5,
        _ => panic!("four"),
    }
    assert_eq!(node.header().ts, 5);
    node.header_mut().children = 3;
    assert_eq!(node.len(), 3);
    assert!(!node.has_size());
    assert!(!node.is_full());
    node.header_mut().children = 4;
    assert!(node.is_full());
    assert!(matches!(NodePtr::node1(Box::new(Node1::default())).deref(), NodeRef::Node1(_)));
    assert!(matches!(NodePtr::node16(Box::new(Node16::default())).deref(), NodeRef::Node16(_)));
    assert!(matches!(NodePtr::node48(Box::new(Node48::default())).deref(), NodeRef::Node48(_)));
    assert!(matches!(NodePtr::node256(Box::new(Node256::default())).deref(), NodeRef::Node256(_)));
    let mut full = leaf(7);
    assert_eq!(full.take().map(|twig| twig.doc), Some(String::from("7")));
    assert!(full.is_none());
    assert!(full.take().is_none());
}

#[test]
fn a_node_without_children_is_dropped() {
    let mut node = NodePtr::node1(Box::new(Node1::default()));
    assert!(node.should_shrink());
    assert!(node.shrink_to_fit());
    assert!(node.is_none());
    assert!(!node.should_shrink());
    let mut kept = tree(3).root.clone();
    assert!(!kept.should_shrink());
    assert!(!kept.shrink_to_fit());
    assert_eq!(kept.len(), 3);
}

#[test]
fn bounds_are_mapped() {
    assert_eq!(map_bound(Bound::Included(3), |x: u32| x + 1), Bound::Included(4));
    assert_eq!(map_bound(Bound::Excluded(3), |x: u32| x + 1), Bound::Excluded(4));
    assert_eq!(map_bound(Bound::Unbounded, |x: u32| x + 1), Bound::Unbounded);
}

#[test]
fn moved_children_keep_their_order() {
    let mut n1 = Node1::default();
    *n1.child_mut(9).1 = leaf(9);
    let mut n4 = n1.upgrade();
    assert_eq!(n4.keys, [Some(9), None, None, None]);
    for x in [3u8, 200, 5] {
        *n4.child_mut(x).1 = leaf(x as u32);
    }
    assert_eq!(n4.keys, [Some(9), Some(3), Some(200), Some(5)]);
    // the place of a child that has gone is taken again
    *n4.child_mut(3).1 = NodePtr::none();
    *n4.child_mut(7).1 = leaf(7);
    assert_eq!(n4.keys, [Some(9), Some(7), Some(200), Some(5)]);
    let mut n16 = n4.upgrade();
    assert_eq!(n16.keys[..5], [Some(9), Some(7), Some(200), Some(5), None]);
    for x in 20..32u8 {
        *n16.child_mut(x).1 = leaf(x as u32);
    }
    let mut n48 = n16.upgrade();
    assert_eq!(n48.key_hashes[9], Some(0));
    assert_eq!(n48.key_hashes[200], Some(2));
    assert_eq!(n48.key_hashes[31], Some(15));
    assert_eq!(n48.key_hashes[0], None);
    let mut back = n48.downgrade();
    let expected: Vec<Option<u8>> = [5u8, 7, 9]
        .into_iter()
        .chain(20..32)
        .chain([200])
        .map(Some)
        .collect();
    assert_eq!(back.keys.to_vec(), expected);
    for x in 20..32u8 {
        *back.child_mut(x).1 = NodePtr::none();
    }
    let four = back.downgrade();
    assert_eq!(four.keys, [Some(5), Some(7), Some(9), Some(200)]);
    assert_eq!(doc(&four.slots[3]), "200");
}

#[test]
fn a_full_index_is_filled_by_byte() {
    let mut n256 = Node256::default();
    for x in (100..148u8).rev() {
        *n256.child_mut(x).1 = leaf(x as u32);
    }
    let n48 = n256.downgrade();
    for x in 100..148u8 {
        assert_eq!(n48.key_hashes[x as usize], Some(x - 100));
        assert_eq!(doc(&n48.slots[x as usize - 100]), format!("{}", x));
    }
}

#[test]
fn pruning_leaves_a_settled_tree_alone() {
    let mut none = NodePtr::none();
    assert!(!none.prune(&[]));
    assert!(none.is_none());
    let mut value = leaf(4);
    assert!(!value.prune(&[]));
    assert_eq!(doc(&value), "4");
    let mut root = tree(5).root.clone();
    assert!(!root.prune(&[3]));
    assert!(matches!(root, NodePtr::Node16(_)));
    assert_eq!(root.len(), 5);
}

#[test]
fn sizes_are_asserted() {
    NodePtr::none().assert_size();
    leaf(1).assert_size();
    for n in [1u32, 4, 16, 48, 256] {
        tree(n).root().assert_size();
        assert!(tree(n).root().has_size());
    }
    assert!(!NodePtr::node1(Box::new(Node1::default())).has_size());
}

//! What holds of single nodes, said in terms of the fields that they have.

use crate::bytes::{clash, lemma_shared_len, shared_len};
use crate::counting::{count, lemma_count_take, rank};
use crate::header::{blank_header, padded, NodeHeader};
use crate::laws::{branches, lemma_branches};
use crate::pointer::{larger, smaller, NodePtr};
use crate::slots::{
    filled, holds, indexed, indexed_place, keyed_place, lemma_keyed_kid, lists, live,
};
use vstd::prelude::*;

verus! {

/// Two keys clash exactly when they differ and there is no position at which both have a byte
/// and the bytes differ.
pub proof fn law_clash(a: Seq<u8>, b: Seq<u8>)
    ensures
        clash(a, b) <==> a != b && forall|i: int|
            0 <= i < a.len() && i < b.len() ==> #[trigger] a[i] == b[i],
{
    if clash(a, b) {
        if a.is_prefix_of(b) {
            assert forall|i: int| 0 <= i < a.len() && i < b.len() implies #[trigger] a[i]
                == b[i] by {
                assert(b.subrange(0, a.len() as int)[i] == b[i]);
            }
        } else {
            assert forall|i: int| 0 <= i < a.len() && i < b.len() implies #[trigger] a[i]
                == b[i] by {
                assert(a.subrange(0, b.len() as int)[i] == a[i]);
            }
        }
    } else if a != b && forall|i: int|
        0 <= i < a.len() && i < b.len() ==> #[trigger] a[i] == b[i] {
        if a.len() <= b.len() {
            assert(a =~= b.subrange(0, a.len() as int));
        } else {
            assert(b =~= a.subrange(0, b.len() as int));
        }
    }
}

/// Two byte strings agree below their shared length, and not at it.
pub proof fn law_shared_len(a: Seq<u8>, b: Seq<u8>)
    ensures
        shared_len(a, b) <= a.len(),
        shared_len(a, b) <= b.len(),
        forall|i: int| 0 <= i < shared_len(a, b) ==> #[trigger] a[i] == b[i],
        shared_len(a, b) < a.len() && shared_len(a, b) < b.len() ==> a[shared_len(a, b) as int]
            != b[shared_len(a, b) as int],
{
    lemma_shared_len(a, b);
    let n = shared_len(a, b) as int;
    assert forall|i: int| 0 <= i < n implies #[trigger] a[i] == b[i] by {
        assert(a.take(n)[i] == b.take(n)[i]);
    }
}

/// Nine bytes fit into a header, and its compressed path is as many of them as it says.
pub proof fn law_compressed_path(header: NodeHeader)
    ensures
        header.path@.len() == 9,
        header.fits() <==> header.path_len <= 9,
        header.fits() ==> header.prefix().len() == header.path_len,
        header.fits() ==> forall|i: int|
            0 <= i < header.path_len ==> #[trigger] header.prefix()[i] == header.path@[i],
{
}

/// Changing the number of children changes nothing else of a header.
pub proof fn law_header_with_children(header: NodeHeader, children: u16)
    ensures
        header.with_children(children).children == children,
        header.with_children(children).path == header.path,
        header.with_children(children).path_len == header.path_len,
        header.with_children(children).ts == header.ts,
{
}

/// The blank header has no path, no children and the time stamp zero.
pub proof fn law_blank_header()
    ensures
        blank_header().path_len == 0,
        blank_header().children == 0,
        blank_header().ts == 0,
        forall|i: int| 0 <= i < 9 ==> #[trigger] blank_header().path@[i] == 0,
{
}

/// A path that fits is filled up with zeros.
pub proof fn law_padding(bytes: Seq<u8>)
    requires
        bytes.len() <= 9,
    ensures
        padded(bytes).len() == 9,
        forall|i: int| 0 <= i < bytes.len() ==> #[trigger] padded(bytes)[i] == bytes[i],
        forall|i: int| bytes.len() <= i < 9 ==> #[trigger] padded(bytes)[i] == 0,
{
}

/// The header of a node is the one that it holds.
pub proof fn law_header_of(node: NodePtr)
    ensures
        match node {
            NodePtr::Empty => node.hdr() == blank_header(),
            NodePtr::Value(twig) => node.hdr() == twig.header,
            NodePtr::Node1(n1) => node.hdr() == n1.header,
            NodePtr::Node4(n4) => node.hdr() == n4.header,
            NodePtr::Node16(n16) => node.hdr() == n16.header,
            NodePtr::Node48(n48) => node.hdr() == n48.header,
            NodePtr::Node256(n256) => node.hdr() == n256.header,
        },
        node.is_inner() <==> !(node is Empty) && !(node is Value),
{
}

/// Another header changes nothing else of a node.
pub proof fn law_with_header(node: NodePtr, header: NodeHeader)
    ensures
        match (node, node.with_header(header)) {
            (NodePtr::Empty, NodePtr::Empty) => true,
            (NodePtr::Value(a), NodePtr::Value(b)) => b.header == header && b.doc == a.doc,
            (NodePtr::Node1(a), NodePtr::Node1(b)) => b.header == header && b.key == a.key && b.slot
                == a.slot,
            (NodePtr::Node4(a), NodePtr::Node4(b)) => b.header == header && b.keys == a.keys
                && b.slots == a.slots,
            (NodePtr::Node16(a), NodePtr::Node16(b)) => b.header == header && b.keys == a.keys
                && b.slots == a.slots,
            (NodePtr::Node48(a), NodePtr::Node48(b)) => b.header == header && b.key_hashes
                == a.key_hashes && b.slots == a.slots,
            (NodePtr::Node256(a), NodePtr::Node256(b)) => b.header == header && b.slots == a.slots,
            _ => false,
        },
{
}

/// The child of a node for a byte: nothing and leaves have none; it is in the slot in use that
/// has the byte as its key, in the slot that the index gives, or in the slot of the byte.
pub proof fn law_child_of(node: NodePtr, x: u8)
    requires
        node.layout(),
    ensures
        match node {
            NodePtr::Empty => node.kid(x) is Empty,
            NodePtr::Value(_) => node.kid(x) is Empty,
            NodePtr::Node1(n1) => node.kid(x) == if x == n1.key {
                n1.slot
            } else {
                NodePtr::Empty
            },
            NodePtr::Node4(n4) => {
                &&& forall|i: int|
                    0 <= i < 4 && n4.keys@[i] == Some(x) && !(#[trigger] n4.slots@[i] is Empty)
                        ==> node.kid(x) == n4.slots@[i]
                &&& !(node.kid(x) is Empty) ==> exists|i: int|
                    0 <= i < 4 && n4.keys@[i] == Some(x) && #[trigger] n4.slots@[i] == node.kid(x)
            },
            NodePtr::Node16(n16) => {
                &&& forall|i: int|
                    0 <= i < 16 && n16.keys@[i] == Some(x) && !(#[trigger] n16.slots@[i] is Empty)
                        ==> node.kid(x) == n16.slots@[i]
                &&& !(node.kid(x) is Empty) ==> exists|i: int|
                    0 <= i < 16 && n16.keys@[i] == Some(x) && #[trigger] n16.slots@[i] == node.kid(
                        x,
                    )
            },
            NodePtr::Node48(n48) => match n48.key_hashes@[x as int] {
                Some(i) => i < 48 && node.kid(x) == n48.slots@[i as int] && !(node.kid(x) is Empty),
                None => node.kid(x) is Empty,
            },
            NodePtr::Node256(n256) => node.kid(x) == n256.slots@[x as int],
        },
{
    match node {
        NodePtr::Node4(n4) => {
            assert forall|i: int|
                0 <= i < 4 && n4.keys@[i] == Some(x) && !(
                #[trigger] n4.slots@[i] is Empty) implies node.kid(x) == n4.slots@[i] by {
                lemma_keyed_kid(n4.keys@, n4.slots@, x, i);
            }
        },
        NodePtr::Node16(n16) => {
            assert forall|i: int|
                0 <= i < 16 && n16.keys@[i] == Some(x) && !(
                #[trigger] n16.slots@[i] is Empty) implies node.kid(x) == n16.slots@[i] by {
                lemma_keyed_kid(n16.keys@, n16.slots@, x, i);
            }
        },
        _ => {},
    }
}

/// The methods of the nodes speak of the same children, counts and layouts as those of pointers
/// to them.
pub proof fn law_nodes_behind_pointers(node: NodePtr, x: u8)
    ensures
        match node {
            NodePtr::Node1(n) => n.kid(x) == node.kid(x) && n.live() == node.live() && n.layout()
                == node.layout(),
            NodePtr::Node4(n) => n.kid(x) == node.kid(x) && n.live() == node.live() && n.layout()
                == node.layout(),
            NodePtr::Node16(n) => n.kid(x) == node.kid(x) && n.live() == node.live() && n.layout()
                == node.layout(),
            NodePtr::Node48(n) => n.kid(x) == node.kid(x) && n.live() == node.live() && n.layout()
                == node.layout(),
            NodePtr::Node256(n) => n.kid(x) == node.kid(x) && n.live() == node.live() && n.layout()
                == node.layout(),
            _ => true,
        },
{
}

/// The slots of a node are in order exactly when its path fits and, where it has keys, every slot
/// in use has one and no slot before it has the same; where it has an index, each byte in it has
/// a slot of its own that is in use, and as many bytes are in it as slots are in use.
pub proof fn law_layout(node: NodePtr)
    ensures
        match node {
            NodePtr::Empty => node.layout(),
            NodePtr::Value(_) => node.layout(),
            NodePtr::Node1(n1) => node.layout() <==> n1.header.path_len <= 9,
            NodePtr::Node4(n4) => node.layout() <==> {
                &&& n4.header.path_len <= 9
                &&& n4.slots@.len() == 4
                &&& forall|j: int|
                    0 <= j < 4 && !(#[trigger] n4.slots@[j] is Empty) ==> n4.keys@[j] is Some
                &&& forall|i: int, j: int|
                    #![trigger n4.keys@[i], n4.slots@[j]]
                    0 <= i < j < 4 && !(n4.slots@[j] is Empty) ==> n4.keys@[i] != n4.keys@[j]
            },
            NodePtr::Node16(n16) => node.layout() <==> {
                &&& n16.header.path_len <= 9
                &&& n16.slots@.len() == 16
                &&& forall|j: int|
                    0 <= j < 16 && !(#[trigger] n16.slots@[j] is Empty) ==> n16.keys@[j] is Some
                &&& forall|i: int, j: int|
                    #![trigger n16.keys@[i], n16.slots@[j]]
                    0 <= i < j < 16 && !(n16.slots@[j] is Empty) ==> n16.keys@[i] != n16.keys@[j]
            },
            NodePtr::Node48(n48) => node.layout() <==> {
                &&& n48.header.path_len <= 9
                &&& n48.slots@.len() == 48
                &&& forall|b: int|
                    0 <= b < 256 && (#[trigger] n48.key_hashes@[b]) is Some
                        ==> n48.key_hashes@[b]->0 < 48 && !(
                    n48.slots@[n48.key_hashes@[b]->0 as int] is Empty)
                &&& forall|a: int, b: int|
                    0 <= a < b < 256 && (#[trigger] n48.key_hashes@[a]) is Some
                        ==> n48.key_hashes@[a] != #[trigger] n48.key_hashes@[b]
                &&& Set::new(|x: u8| n48.key_hashes@[x as int] is Some).len() == Set::new(
                    |i: int| 0 <= i < 48 && !(n48.slots@[i] is Empty),
                ).len()
            },
            NodePtr::Node256(n256) => node.layout() <==> n256.header.path_len <= 9
                && n256.slots@.len() == 256,
        },
{
    if let NodePtr::Node48(n48) = node {
        lemma_count_bytes(indexed(n48.key_hashes@));
        lemma_count_positions(filled(n48.slots@));
        assert(Set::new(|x: u8| n48.key_hashes@[x as int] is Some) =~= Set::new(
            |x: u8| indexed(n48.key_hashes@)[x as int],
        ));
        if n48.slots@.len() == 48 {
            assert(Set::new(|i: int| 0 <= i < 48 && !(n48.slots@[i] is Empty)) =~= Set::new(
                |i: int| 0 <= i < filled(n48.slots@).len() && filled(n48.slots@)[i],
            ));
        }
    }
}

/// The slots of a node are in order but for a byte exactly when they are in order once the byte
/// has left the index, where there is one.
pub proof fn law_layout_without(node: NodePtr, after: NodePtr, x: u8)
    requires
        match (node, after) {
            (NodePtr::Node48(a), NodePtr::Node48(b)) => {
                &&& b.header == a.header
                &&& b.slots == a.slots
                &&& b.key_hashes@[x as int] is None
                &&& forall|y: int|
                    0 <= y < 256 && y != x ==> #[trigger] b.key_hashes@[y] == a.key_hashes@[y]
            },
            _ => after == node,
        },
    ensures
        node.layout_without(x) <==> after.layout(),
{
    if let (NodePtr::Node48(a), NodePtr::Node48(b)) = (node, after) {
        assert(b.key_hashes@ =~= a.key_hashes@.update(x as int, None));
    }
}

/// A count of flags is the number of positions with a set flag.
proof fn lemma_count_positions(flags: Seq<bool>)
    ensures
        Set::new(|i: int| 0 <= i < flags.len() && flags[i]).finite(),
        Set::new(|i: int| 0 <= i < flags.len() && flags[i]).len() == count(flags),
    decreases flags.len(),
{
    let all = Set::new(|i: int| 0 <= i < flags.len() && flags[i]);
    if flags.len() == 0 {
        assert(all =~= Set::empty());
    } else {
        let init = flags.drop_last();
        lemma_count_positions(init);
        let n = flags.len() - 1;
        let before = Set::new(|i: int| 0 <= i < init.len() && init[i]);
        if flags[n] {
            assert(all =~= before.insert(n));
        } else {
            assert(all =~= before);
        }
    }
}

/// A count of flags for each byte is the number of bytes with a set flag.
proof fn lemma_count_bytes(flags: Seq<bool>)
    requires
        flags.len() == 256,
    ensures
        Set::new(|x: u8| flags[x as int]).finite(),
        Set::new(|x: u8| flags[x as int]).len() == count(flags),
{
    lemma_count_bytes_below(flags, 256);
    assert(flags.take(256) =~= flags);
    assert(Set::new(|x: u8| x < 256int && flags[x as int]) =~= Set::new(|x: u8| flags[x as int]));
}

/// The same for the bytes below `n`.
proof fn lemma_count_bytes_below(flags: Seq<bool>, n: int)
    requires
        flags.len() == 256,
        0 <= n <= 256,
    ensures
        Set::new(|x: u8| x < n && flags[x as int]).finite(),
        Set::new(|x: u8| x < n && flags[x as int]).len() == count(flags.take(n)),
    decreases n,
{
    let all = Set::new(|x: u8| x < n && flags[x as int]);
    if n == 0 {
        assert(all =~= Set::empty());
    } else {
        let m = n - 1;
        lemma_count_bytes_below(flags, m);
        lemma_count_take(flags, m);
        let before = Set::new(|x: u8| x < m && flags[x as int]);
        if flags[m] {
            assert(all =~= before.insert(m as u8));
        } else {
            assert(all =~= before);
        }
    }
}

/// The number of children of a node is the number of bytes that lead to one.
pub proof fn law_children_are_counted_by_byte(node: NodePtr)
    requires
        node.layout(),
    ensures
        Set::new(|x: u8| !(node.kid(x) is Empty)).finite(),
        node.live() == Set::new(|x: u8| !(node.kid(x) is Empty)).len(),
{
    let all = Set::new(|x: u8| !(node.kid(x) is Empty));
    if node.is_inner() {
        lemma_branches(node);
        lemma_count_bytes(branches(node));
        assert(all =~= Set::new(|x: u8| branches(node)[x as int]));
    } else {
        assert(all =~= Set::empty());
    }
}

/// The number of children of a node is the number of its slots in use.
pub proof fn law_children_are_counted_by_slot(node: NodePtr)
    ensures
        match node {
            NodePtr::Empty => node.live() == 0,
            NodePtr::Value(_) => node.live() == 0,
            NodePtr::Node1(n1) => node.live() == if n1.slot is Empty {
                0int
            } else {
                1
            },
            NodePtr::Node4(n4) => node.live() == Set::new(
                |i: int| 0 <= i < n4.slots@.len() && !(n4.slots@[i] is Empty),
            ).len(),
            NodePtr::Node16(n16) => node.live() == Set::new(
                |i: int| 0 <= i < n16.slots@.len() && !(n16.slots@[i] is Empty),
            ).len(),
            NodePtr::Node48(n48) => node.live() == Set::new(
                |i: int| 0 <= i < n48.slots@.len() && !(n48.slots@[i] is Empty),
            ).len(),
            NodePtr::Node256(n256) => node.live() == Set::new(
                |i: int| 0 <= i < n256.slots@.len() && !(n256.slots@[i] is Empty),
            ).len(),
        },
{
    match node {
        NodePtr::Node4(n4) => lemma_live_positions(n4.slots@),
        NodePtr::Node16(n16) => lemma_live_positions(n16.slots@),
        NodePtr::Node48(n48) => lemma_live_positions(n48.slots@),
        NodePtr::Node256(n256) => lemma_live_positions(n256.slots@),
        _ => {},
    }
}

/// As many slots are in use as there are positions of them.
proof fn lemma_live_positions(slots: Seq<NodePtr>)
    ensures
        live(slots) == Set::new(|i: int| 0 <= i < slots.len() && !(slots[i] is Empty)).len(),
{
    lemma_count_positions(filled(slots));
    assert(Set::new(|i: int| 0 <= i < slots.len() && !(slots[i] is Empty)) =~= Set::new(
        |i: int| 0 <= i < filled(slots).len() && filled(slots)[i],
    ));
}

/// What the sizes of nodes are: how many children each has room for, which sizes are next to it,
/// the number of children at which it is given up, and when its header counts its children.
pub proof fn law_sizes(node: NodePtr)
    ensures
        match node {
            NodePtr::Empty => node.capacity() == 0 && node.least() == 0 && !node.shrinks()
                && node.size_agrees(),
            NodePtr::Value(twig) => node.capacity() == 0 && node.least() == 0 && !node.shrinks() && (
            node.size_agrees() <==> twig.header.children == 0),
            NodePtr::Node1(n1) => node.capacity() == 1 && node.least() == 1 && (node.shrinks()
                <==> n1.header.children == 0) && (node.size_agrees() <==> n1.header.children == 1),
            NodePtr::Node4(n4) => node.capacity() == 4 && node.least() == 2 && (node.shrinks()
                <==> n4.header.children == 1) && (node.size_agrees() <==> n4.header.children
                == node.live()),
            NodePtr::Node16(n16) => node.capacity() == 16 && node.least() == 5 && (node.shrinks()
                <==> n16.header.children == 4) && (node.size_agrees() <==> n16.header.children
                == node.live()),
            NodePtr::Node48(n48) => node.capacity() == 48 && node.least() == 17 && (node.shrinks()
                <==> n48.header.children == 16) && (node.size_agrees() <==> n48.header.children
                == node.live()),
            NodePtr::Node256(n256) => node.capacity() == 256 && node.least() == 49 && (
            node.shrinks() <==> n256.header.children == 48) && (node.size_agrees()
                <==> n256.header.children == node.live()),
        },
        larger(1) == 4 && larger(4) == 16 && larger(16) == 48 && larger(48) == 256,
        smaller(256) == 48 && smaller(48) == 16 && smaller(16) == 4 && smaller(4) == 1,
{
}

/// A list of the children of a node is as long as there are children. It has each of them under
/// its byte, nothing else, and the bytes ascend.
pub proof fn law_listing(children: Seq<(Option<u8>, &NodePtr)>, node: NodePtr)
    requires
        node.layout(),
        lists(children, |x: u8| node.kid(x)),
    ensures
        children.len() == node.live(),
        children.len() == Set::new(|x: u8| !(node.kid(x) is Empty)).len(),
        forall|x: u8|
            !(#[trigger] node.kid(x) is Empty) <==> exists|j: int|
                0 <= j < children.len() && (#[trigger] children[j]).0 == Some(x),
        forall|j: int|
            0 <= j < children.len() ==> (#[trigger] children[j]).0 is Some && !(
            *children[j].1 is Empty) && *children[j].1 == node.kid(children[j].0->0),
        forall|i: int, j: int|
            0 <= i < j < children.len() ==> (#[trigger] children[i]).0->0 < (
            #[trigger] children[j]).0->0,
{
    let kids = |x: u8| node.kid(x);
    let all = Set::new(|x: u8| !(node.kid(x) is Empty));
    assert forall|j: int| 0 <= j < children.len() implies (#[trigger] children[j]).0 is Some && !(
    *children[j].1 is Empty) && *children[j].1 == node.kid(children[j].0->0) by {
        assert(kids(children[j].0->0) == node.kid(children[j].0->0));
    }
    assert forall|x: u8|
        !(#[trigger] node.kid(x) is Empty) <==> exists|j: int|
            0 <= j < children.len() && (#[trigger] children[j]).0 == Some(x) by {
        assert(kids(x) == node.kid(x));
    }
    lemma_listed(children, children.len() as int);
    assert(all =~= Set::new(
        |x: u8| exists|j: int| 0 <= j < children.len() && (#[trigger] children[j]).0 == Some(x),
    ));
    law_children_are_counted_by_byte(node);
}

/// The first `n` entries of an ascending list are for as many bytes.
proof fn lemma_listed(children: Seq<(Option<u8>, &NodePtr)>, n: int)
    requires
        0 <= n <= children.len(),
        forall|j: int| 0 <= j < children.len() ==> (#[trigger] children[j]).0 is Some,
        forall|i: int, j: int|
            0 <= i < j < children.len() ==> (#[trigger] children[i]).0->0 < (
            #[trigger] children[j]).0->0,
    ensures
        ({
            let listed = Set::new(
                |x: u8| exists|j: int| 0 <= j < n && (#[trigger] children[j]).0 == Some(x),
            );
            listed.finite() && listed.len() == n
        }),
    decreases n,
{
    let listed = Set::new(
        |x: u8| exists|j: int| 0 <= j < n && (#[trigger] children[j]).0 == Some(x),
    );
    if n == 0 {
        assert(listed =~= Set::empty());
    } else {
        let m = n - 1;
        lemma_listed(children, m);
        let before = Set::new(
            |x: u8| exists|j: int| 0 <= j < m && (#[trigger] children[j]).0 == Some(x),
        );
        let last = children[m].0->0;
        assert(!before.contains(last));
        assert forall|x: u8| listed.contains(x) == before.insert(last).contains(x) by {
            if before.contains(x) {
                let j = choose|j: int| 0 <= j < m && (#[trigger] children[j]).0 == Some(x);
                assert(0 <= j < n && children[j].0 == Some(x));
            }
            if x == last {
                assert(0 <= m < n && children[m].0 == Some(x));
            }
        }
        assert(listed =~= before.insert(last));
    }
}

/// A child is stored in the slot that its byte has already, or else in the first slot that is
/// empty. The byte is then the key of the slot, or in the index with it, unless it is to leave
/// the index. Nothing else of the node changes but its header.
pub proof fn law_storing(node: NodePtr, after: NodePtr, x: u8, clear: bool, stored: NodePtr)
    requires
        node.layout(),
        node.stores(after, x, clear, stored),
    ensures
        match (node, after) {
            (NodePtr::Node1(_), NodePtr::Node1(b)) => b.key == x && b.slot == stored,
            (NodePtr::Node4(a), NodePtr::Node4(b)) => b.slots@.len() == 4 && exists|i: int|
                {
                    &&& 0 <= i < 4
                    &&& #[trigger] b.slots@[i] == stored
                    &&& b.keys@[i] == Some(x)
                    &&& forall|j: int|
                        0 <= j < 4 && j != i ==> b.keys@[j] == a.keys@[j] && #[trigger] b.slots@[j]
                            == a.slots@[j]
                    &&& if node.kid(x) is Empty {
                        &&& a.slots@[i] is Empty
                        &&& forall|j: int| 0 <= j < i ==> !(#[trigger] a.slots@[j] is Empty)
                    } else {
                        a.slots@[i] == node.kid(x) && a.keys@[i] == Some(x)
                    }
                },
            (NodePtr::Node16(a), NodePtr::Node16(b)) => b.slots@.len() == 16 && exists|i: int|
                {
                    &&& 0 <= i < 16
                    &&& #[trigger] b.slots@[i] == stored
                    &&& b.keys@[i] == Some(x)
                    &&& forall|j: int|
                        0 <= j < 16 && j != i ==> b.keys@[j] == a.keys@[j] && #[trigger] b.slots@[j]
                            == a.slots@[j]
                    &&& if node.kid(x) is Empty {
                        &&& a.slots@[i] is Empty
                        &&& forall|j: int| 0 <= j < i ==> !(#[trigger] a.slots@[j] is Empty)
                    } else {
                        a.slots@[i] == node.kid(x) && a.keys@[i] == Some(x)
                    }
                },
            (NodePtr::Node48(a), NodePtr::Node48(b)) => b.slots@.len() == 48 && exists|i: int|
                {
                    &&& 0 <= i < 48
                    &&& #[trigger] b.slots@[i] == stored
                    &&& b.key_hashes@[x as int] == if clear {
                        None
                    } else {
                        Some(i as u8)
                    }
                    &&& forall|j: int|
                        0 <= j < 48 && j != i ==> #[trigger] b.slots@[j] == a.slots@[j]
                    &&& forall|y: int|
                        0 <= y < 256 && y != x ==> #[trigger] b.key_hashes@[y] == a.key_hashes@[y]
                    &&& if node.kid(x) is Empty {
                        &&& a.slots@[i] is Empty
                        &&& forall|j: int| 0 <= j < i ==> !(#[trigger] a.slots@[j] is Empty)
                    } else {
                        a.key_hashes@[x as int] == Some(i as u8)
                    }
                },
            (NodePtr::Node256(a), NodePtr::Node256(b)) => {
                &&& b.slots@.len() == 256
                &&& b.slots@[x as int] == stored
                &&& forall|y: int| 0 <= y < 256 && y != x ==> #[trigger] b.slots@[y] == a.slots@[y]
            },
            _ => false,
        },
{
    match (node, after) {
        (NodePtr::Node4(a), NodePtr::Node4(b)) => {
            let i = choose|i: int|
                {
                    &&& #[trigger] keyed_place(a.keys@, a.slots@, x, i)
                    &&& b.keys@ == a.keys@.update(i, Some(x))
                    &&& b.slots@ == a.slots@.update(i, stored)
                };
            if !(node.kid(x) is Empty) {
                lemma_keyed_kid(a.keys@, a.slots@, x, i);
            }
            assert(b.slots@[i] == stored);
        },
        (NodePtr::Node16(a), NodePtr::Node16(b)) => {
            let i = choose|i: int|
                {
                    &&& #[trigger] keyed_place(a.keys@, a.slots@, x, i)
                    &&& b.keys@ == a.keys@.update(i, Some(x))
                    &&& b.slots@ == a.slots@.update(i, stored)
                };
            if !(node.kid(x) is Empty) {
                lemma_keyed_kid(a.keys@, a.slots@, x, i);
            }
            assert(b.slots@[i] == stored);
        },
        (NodePtr::Node48(a), NodePtr::Node48(b)) => {
            let i = choose|i: int|
                {
                    &&& #[trigger] indexed_place(a.key_hashes@, a.slots@, x, i)
                    &&& b.key_hashes@ == a.key_hashes@.update(
                        x as int,
                        if clear {
                            None
                        } else {
                            Some(i as u8)
                        },
                    )
                    &&& b.slots@ == a.slots@.update(i, stored)
                };
            assert(b.slots@[i] == stored);
        },
        _ => {},
    }
}

/// The methods of the nodes speak of the same changes as those of pointers to them.
pub proof fn law_changes_behind_pointers(
    node: NodePtr,
    after: NodePtr,
    x: u8,
    clear: bool,
    stored: NodePtr,
)
    ensures
        match (node, after) {
            (NodePtr::Node1(a), NodePtr::Node4(b)) => a.grows_into(*b) == node.grows_into(after),
            (NodePtr::Node4(a), NodePtr::Node16(b)) => a.grows_into(*b) == node.grows_into(after),
            (NodePtr::Node16(a), NodePtr::Node48(b)) => a.grows_into(*b) == node.grows_into(after),
            (NodePtr::Node48(a), NodePtr::Node256(b)) => a.grows_into(*b) == node.grows_into(after),
            (NodePtr::Node4(a), NodePtr::Node1(b)) => a.shrinks_into(*b) == node.shrinks_into(
                after,
            ),
            (NodePtr::Node16(a), NodePtr::Node4(b)) => a.shrinks_into(*b) == node.shrinks_into(
                after,
            ),
            (NodePtr::Node48(a), NodePtr::Node16(b)) => a.shrinks_into(*b) == node.shrinks_into(
                after,
            ),
            (NodePtr::Node256(a), NodePtr::Node48(b)) => a.shrinks_into(*b) == node.shrinks_into(
                after,
            ),
            (NodePtr::Node4(a), NodePtr::Node4(b)) => a.stores(*b, x, stored) == node.stores(
                after,
                x,
                clear,
                stored,
            ),
            (NodePtr::Node16(a), NodePtr::Node16(b)) => a.stores(*b, x, stored) == node.stores(
                after,
                x,
                clear,
                stored,
            ),
            (NodePtr::Node48(a), NodePtr::Node48(b)) => a.stores(*b, x, clear, stored)
                == node.stores(after, x, clear, stored),
            _ => true,
        },
{
}

/// The children of a node that grows stay in their slots. Where the larger node has an index, it
/// gives these slots, and where it has a slot for every byte, each child goes to that of its own.
pub proof fn law_growing(node: NodePtr, after: NodePtr)
    requires
        node.layout(),
        after.layout(),
        node.grows_into(after),
    ensures
        match (node, after) {
            (NodePtr::Node1(a), NodePtr::Node4(b)) => {
                &&& b.slots@[0] == a.slot
                &&& b.keys@[0] == Some(a.key)
                &&& forall|i: int|
                    1 <= i < 4 ==> b.keys@[i] is None && #[trigger] b.slots@[i] is Empty
            },
            (NodePtr::Node4(a), NodePtr::Node16(b)) => {
                &&& forall|i: int|
                    0 <= i < 4 ==> b.keys@[i] == a.keys@[i] && #[trigger] b.slots@[i]
                        == a.slots@[i]
                &&& forall|i: int|
                    4 <= i < 16 ==> b.keys@[i] is None && #[trigger] b.slots@[i] is Empty
            },
            (NodePtr::Node16(a), NodePtr::Node48(b)) => {
                &&& forall|i: int| 0 <= i < 16 ==> #[trigger] b.slots@[i] == a.slots@[i]
                &&& forall|i: int| 16 <= i < 48 ==> #[trigger] b.slots@[i] is Empty
                &&& forall|i: int|
                    0 <= i < 16 && !(#[trigger] a.slots@[i] is Empty)
                        ==> b.key_hashes@[a.keys@[i]->0 as int] == Some(i as u8)
            },
            (NodePtr::Node48(a), NodePtr::Node256(b)) => forall|x: u8| #[trigger]
                b.slots@[x as int] == a.kid(x),
            _ => false,
        },
{
    match (node, after) {
        (NodePtr::Node1(a), NodePtr::Node4(b)) => {
            assert forall|i: int| 1 <= i < 4 implies b.keys@[i] is None
                && #[trigger] b.slots@[i] is Empty by {}
        },
        (NodePtr::Node16(a), NodePtr::Node48(b)) => {
            assert forall|i: int|
                0 <= i < 16 && !(#[trigger] a.slots@[i] is Empty) implies b.key_hashes@[a.keys@[i]->0 as int]
                == Some(i as u8) by {
                let x = a.keys@[i]->0;
                lemma_keyed_kid(a.keys@, a.slots@, x, i);
                assert(b.key_hashes@[x as int] is Some);
                let k = b.key_hashes@[x as int]->0 as int;
                assert(holds(a.keys@, a.slots@, x, k));
                if k < i {
                    assert(a.keys@[k] != a.keys@[i]);
                } else if i < k {
                    assert(a.keys@[i] != a.keys@[k]);
                }
            }
        },
        _ => {},
    }
}

/// The children of a node that shrinks keep their order: that of their slots where the node has
/// keys, and that of their bytes where it has not.
pub proof fn law_shrinking(node: NodePtr, after: NodePtr)
    requires
        node.layout(),
        after.layout(),
        node.shrinks_into(after),
    ensures
        match (node, after) {
            (NodePtr::Node4(a), NodePtr::Node1(b)) => forall|i: int|
                0 <= i < 4 && !(#[trigger] a.slots@[i] is Empty) ==> a.slots@[i] == b.slot
                    && a.keys@[i] == Some(b.key),
            (NodePtr::Node16(a), NodePtr::Node4(b)) => {
                &&& forall|i: int|
                    0 <= i < 16 && !(#[trigger] a.slots@[i] is Empty) ==> exists|j: int|
                        0 <= j < 4 && #[trigger] b.slots@[j] == a.slots@[i] && b.keys@[j]
                            == a.keys@[i]
                &&& forall|h: int, i: int|
                    0 <= h < i < 16 && !(#[trigger] a.slots@[h] is Empty) && !(
                    #[trigger] a.slots@[i] is Empty) ==> exists|j: int, k: int|
                        0 <= j < k < 4 && b.slots@[j] == a.slots@[h] && b.slots@[k] == a.slots@[i]
                            && #[trigger] b.keys@[j] == a.keys@[h] && #[trigger] b.keys@[k]
                            == a.keys@[i]
            },
            (NodePtr::Node48(a), NodePtr::Node16(b)) => {
                &&& forall|i: int, j: int|
                    0 <= i < j < 16 ==> (#[trigger] b.keys@[i])->0 < (#[trigger] b.keys@[j])->0
                &&& forall|x: u8|
                    !(#[trigger] a.kid(x) is Empty) ==> exists|j: int|
                        0 <= j < 16 && #[trigger] b.keys@[j] == Some(x) && b.slots@[j] == a.kid(x)
            },
            (NodePtr::Node256(a), NodePtr::Node48(b)) => {
                &&& forall|x: u8|
                    (#[trigger] b.key_hashes@[x as int]) is Some <==> !(a.slots@[x as int] is Empty)
                &&& forall|x: u8|
                    (#[trigger] b.key_hashes@[x as int]) matches Some(i) ==> b.slots@[i as int]
                        == a.slots@[x as int]
                &&& forall|x: u8, y: u8|
                    x < y && (#[trigger] b.key_hashes@[x as int]) is Some && (
                    #[trigger] b.key_hashes@[y as int]) is Some ==> b.key_hashes@[x as int]->0
                        < b.key_hashes@[y as int]->0
            },
            _ => false,
        },
{
    match (node, after) {
        (NodePtr::Node16(a), NodePtr::Node4(b)) => {
            let flags = filled(a.slots@);
            assert forall|i: int| 0 <= i < 16 && !(#[trigger] a.slots@[i] is Empty) implies exists|
                j: int,
            |
                0 <= j < 4 && #[trigger] b.slots@[j] == a.slots@[i] && b.keys@[j]
                    == a.keys@[i] by {
                assert(b.slots@[rank(flags, i)] == a.slots@[i]);
            }
            assert forall|h: int, i: int|
                0 <= h < i < 16 && !(#[trigger] a.slots@[h] is Empty) && !(
                #[trigger] a.slots@[i] is Empty) implies exists|j: int, k: int|
                0 <= j < k < 4 && b.slots@[j] == a.slots@[h] && b.slots@[k] == a.slots@[i]
                    && #[trigger] b.keys@[j] == a.keys@[h] && #[trigger] b.keys@[k]
                    == a.keys@[i] by {
                lemma_rank_ascends(flags, h, i);
                assert(b.keys@[rank(flags, h)] == a.keys@[h]);
                assert(b.keys@[rank(flags, i)] == a.keys@[i]);
            }
        },
        (NodePtr::Node48(a), NodePtr::Node16(b)) => {
            assert forall|x: u8| !(#[trigger] a.kid(x) is Empty) implies exists|j: int|
                0 <= j < 16 && #[trigger] b.keys@[j] == Some(x) && b.slots@[j] == a.kid(x) by {
                assert(a.key_hashes@[x as int] is Some);
                assert(b.keys@[rank(indexed(a.key_hashes@), x as int)] == Some(x));
            }
        },
        (NodePtr::Node256(a), NodePtr::Node48(b)) => {
            assert forall|x: u8, y: u8|
                x < y && (#[trigger] b.key_hashes@[x as int]) is Some && (
                #[trigger] b.key_hashes@[y as int]) is Some implies b.key_hashes@[x as int]->0
                < b.key_hashes@[y as int]->0 by {
                lemma_rank_ascends(filled(a.slots@), x as int, y as int);
            }
        },
        _ => {},
    }
}

/// A later position comes after every set flag before it.
proof fn lemma_rank_ascends(flags: Seq<bool>, i: int, j: int)
    requires
        0 <= i < j <= flags.len(),
        flags[i],
    ensures
        rank(flags, i) < rank(flags, j),
    decreases j,
{
    lemma_count_take(flags, j - 1);
    if i < j - 1 {
        lemma_rank_ascends(flags, i, j - 1);
    }
}

/// A copy of a node has the same fields, and copies in its slots.
pub proof fn law_copies(node: NodePtr, copy: NodePtr)
    requires
        node.same(copy),
    ensures
        match (node, copy) {
            (NodePtr::Empty, NodePtr::Empty) => true,
            (NodePtr::Value(a), NodePtr::Value(b)) => a.header == b.header && a.doc == b.doc,
            (NodePtr::Node1(a), NodePtr::Node1(b)) => a.header == b.header && a.key == b.key
                && a.slot.same(b.slot),
            (NodePtr::Node4(a), NodePtr::Node4(b)) => {
                &&& a.header == b.header && a.keys == b.keys && a.slots@.len() == b.slots@.len()
                &&& forall|i: int|
                    0 <= i < a.slots@.len() ==> (#[trigger] a.slots@[i]).same(b.slots@[i])
            },
            (NodePtr::Node16(a), NodePtr::Node16(b)) => {
                &&& a.header == b.header && a.keys == b.keys && a.slots@.len() == b.slots@.len()
                &&& forall|i: int|
                    0 <= i < a.slots@.len() ==> (#[trigger] a.slots@[i]).same(b.slots@[i])
            },
            (NodePtr::Node48(a), NodePtr::Node48(b)) => {
                &&& a.header == b.header && a.key_hashes == b.key_hashes && a.slots@.len()
                    == b.slots@.len()
                &&& forall|i: int|
                    0 <= i < a.slots@.len() ==> (#[trigger] a.slots@[i]).same(b.slots@[i])
            },
            (NodePtr::Node256(a), NodePtr::Node256(b)) => {
                &&& a.header == b.header && a.slots@.len() == b.slots@.len()
                &&& forall|i: int|
                    0 <= i < a.slots@.len() ==> (#[trigger] a.slots@[i]).same(b.slots@[i])
            },
            _ => false,
        },
{
}

} // verus!

//! What holds of trees: which keys they hold, which can be looked up and removed, and what
//! becomes of their nodes when a key comes or goes.

use crate::art::{clear_of, Art};
use crate::bytes::{clash, lemma_shared_len, shared_len};
use crate::header::{padded, TwigNode};
use crate::laws::{law_no_keys_no_root, lemma_node_at_wf};
use crate::node_laws::{law_clash, law_children_are_counted_by_byte};
use crate::pointer::NodePtr;
use crate::shape::{no_kids, Shape};
use crate::tree::at_limit;
use vstd::prelude::*;

verus! {

/// A map is clear of a key exactly when every key in it is that key or differs from it at a
/// position that both have.
pub proof fn law_clear_of(art: Art, key: Seq<u8>)
    ensures
        clear_of(art@, key) <==> forall|k: Seq<u8>| #[trigger]
            art@.contains_key(k) ==> k == key || exists|i: int|
                0 <= i < k.len() && i < key.len() && #[trigger] k[i] != key[i],
{
    assert forall|k: Seq<u8>|
        !clash(k, key) <==> k == key || exists|i: int|
            0 <= i < k.len() && i < key.len() && #[trigger] k[i] != key[i] by {
        law_clash(k, key);
    }
}

/// Nothing holds no keys, a leaf holds the empty key, and a node holds the keys that begin with
/// its compressed path, go on with a byte, and end with a key of the child for that byte.
pub proof fn law_keys_of(node: NodePtr, key: Seq<u8>)
    requires
        node.layout(),
    ensures
        match node {
            NodePtr::Empty => !node.entries().contains_key(key),
            NodePtr::Value(twig) => {
                &&& node.entries().contains_key(key) <==> key.len() == 0
                &&& key.len() == 0 ==> node.entries()[key] == *twig
            },
            _ => {
                let n = node.hdr().path_len as int;
                let below = node.kid(key[n]).entries();
                &&& node.entries().contains_key(key) <==> {
                    &&& n < key.len()
                    &&& forall|i: int| 0 <= i < n ==> #[trigger] key[i] == node.hdr().path@[i]
                    &&& below.contains_key(key.skip(n + 1))
                }
                &&& node.entries().contains_key(key) ==> node.entries()[key] == below[key.skip(
                    n + 1,
                )]
            },
        },
{
    if node.is_inner() {
        lemma_leads(node, key);
    }
}

/// A path leads through a node exactly when it has the bytes of the compressed path, and more.
proof fn lemma_leads(node: NodePtr, path: Seq<u8>)
    requires
        node.is_inner(),
        node.layout(),
    ensures
        node.hdr().prefix().len() == node.hdr().path_len,
        node.hdr().path_len <= 9,
        node.leads(path) <==> node.hdr().path_len < path.len() && forall|i: int|
            0 <= i < node.hdr().path_len ==> #[trigger] path[i] == node.hdr().path@[i],
        node.hdr().prefix().is_prefix_of(path) <==> node.hdr().path_len <= path.len() && forall|
            i: int,
        |
            0 <= i < node.hdr().path_len ==> #[trigger] path[i] == node.hdr().path@[i],
{
    let prefix = node.hdr().prefix();
    if prefix.is_prefix_of(path) {
        assert forall|i: int| 0 <= i < node.hdr().path_len implies #[trigger] path[i]
            == node.hdr().path@[i] by {
            assert(path.subrange(0, prefix.len() as int)[i] == prefix[i]);
        }
    } else if node.hdr().path_len <= path.len() && forall|i: int|
        0 <= i < node.hdr().path_len ==> #[trigger] path[i] == node.hdr().path@[i] {
        assert(prefix =~= path.subrange(0, prefix.len() as int));
    }
}

/// What is found at the end of a path: the node itself where the path is empty, and else what
/// is found below the child that it leads to, if it leads through the node.
pub proof fn law_node_at(node: NodePtr, path: Seq<u8>)
    requires
        node.layout(),
    ensures
        path.len() == 0 ==> node.node_at(path) == node,
        path.len() > 0 && !node.is_inner() ==> node.node_at(path) is Empty,
        path.len() > 0 && node.is_inner() ==> ({
            let n = node.hdr().path_len as int;
            node.node_at(path) == if n < path.len() && forall|i: int|
                0 <= i < n ==> #[trigger] path[i] == node.hdr().path@[i] {
                node.kid(path[n]).node_at(path.skip(n + 1))
            } else {
                NodePtr::Empty
            }
        }),
{
    if node.is_inner() {
        lemma_leads(node, path);
    }
}

/// A tree is well formed exactly when in each of its nodes the slots are in order, the header
/// counts the bytes that lead to a child, the node is of the smallest size that has room for
/// them, and what is below each of these bytes is well formed.
pub proof fn law_well_formed(node: NodePtr)
    ensures
        node.is_inner() ==> (node.wf() <==> {
            let n = Set::new(|x: u8| !(node.kid(x) is Empty)).len();
            &&& node.layout()
            &&& node.hdr().children == n
            &&& match node {
                NodePtr::Node1(_) => n == 1,
                NodePtr::Node4(_) => 2 <= n <= 4,
                NodePtr::Node16(_) => 5 <= n <= 16,
                NodePtr::Node48(_) => 17 <= n <= 48,
                _ => 49 <= n <= 256,
            }
            &&& forall|x: u8| (#[trigger] node.kid(x)).wf()
        }),
        !node.is_inner() ==> node.wf(),
{
    if node.is_inner() && node.layout() {
        law_children_are_counted_by_byte(node);
        node.lemma_live();
        assert(NodePtr::Empty.wf());
        if node.wf() {
            assert forall|x: u8| (#[trigger] node.kid(x)).wf() by {
                if !(node.kid(x) is Empty) {
                }
            }
        }
    }
}

/// From where a part of a key leads, the rest of the key fares as the whole: it is looked up with
/// the same result, and it can be looked up and removed there exactly when the key can.
pub proof fn law_key_below(node: NodePtr, key: Seq<u8>, n: int)
    requires
        0 <= n <= key.len(),
        !(node.node_at(key.take(n)) is Empty),
    ensures
        ({
            let at = node.node_at(key.take(n));
            let rest = key.skip(n);
            &&& node.lookup(key) == at.lookup(rest)
            &&& node.shape().readable(key) == at.shape().readable(rest)
            &&& node.shape().removable(key) == at.shape().removable(rest)
        }),
    decreases key.len(),
{
    if n == 0 {
        assert(key.skip(0) =~= key);
        assert(key.take(0).len() == 0);
    } else {
        let p = node.hdr().prefix().len() as int;
        assert(node.leads(key.take(n)));
        let rest = node.rest(key);
        let x = node.branch(key);
        assert(key.take(n).subrange(0, p) =~= key.subrange(0, p));
        assert(node.leads(key));
        assert(node.rest(key.take(n)) =~= rest.take(n - p - 1));
        assert(node.branch(key.take(n)) == x);
        law_key_below(node.kid(x), rest, n - p - 1);
        assert(rest.skip(n - p - 1) =~= key.skip(n));
        node.lemma_shape();
        assert(node.shape().leads(key));
        assert(node.shape().rest(key) == rest);
        assert(node.shape().kid(x) == node.kid(x).shape());
    }
}

/// A key cannot be looked up exactly when, at a place to which a part of it leads, the rest ends
/// on reaching a node or right after its compressed path, or goes on from a leaf and begins with
/// the leaf's own path. A leaf whose path does not fit lets no key go on.
pub proof fn law_readable(node: NodePtr, key: Seq<u8>)
    requires
        node.wf(),
    ensures
        !node.shape().readable(key) <==> exists|n: int|
            {
                let at = #[trigger] node.node_at(key.take(n));
                let rest = key.skip(n);
                &&& 0 <= n <= key.len()
                &&& match at {
                    NodePtr::Empty => false,
                    NodePtr::Value(twig) => rest.len() > 0 && (twig.header.path_len > 9 || (
                    twig.header.path_len <= rest.len() && forall|i: int|
                        0 <= i < twig.header.path_len ==> #[trigger] rest[i]
                            == twig.header.path@[i])),
                    _ => rest.len() == 0 || (rest.len() == at.hdr().path_len && forall|i: int|
                        0 <= i < rest.len() ==> #[trigger] rest[i] == at.hdr().path@[i]),
                }
            },
    decreases key.len(),
{
    node.lemma_shape();
    assert(key.take(0).len() == 0);
    assert(key.skip(0) =~= key);
    assert(node.node_at(key.take(0)) == node);
    if node.is_inner() {
        lemma_leads(node, key);
        lemma_prefix_whole(node.hdr().prefix(), key);
    }
    lemma_begins_with(node, key);
    if !node.shape().readable(key) {
        if node.is_inner() && key.len() > 0 && node.hdr().prefix().len() < key.len() {
            let x = node.branch(key);
            let rest = node.rest(key);
            assert(node.shape().kid(x) == node.kid(x).shape());
            assert(!node.kid(x).shape().readable(rest));
            law_readable(node.kid(x), rest);
            let m = choose|m: int|
                {
                    let at = #[trigger] node.kid(x).node_at(rest.take(m));
                    let rest = rest.skip(m);
                    &&& 0 <= m <= node.rest(key).len()
                    &&& match at {
                        NodePtr::Empty => false,
                        NodePtr::Value(twig) => rest.len() > 0 && (twig.header.path_len > 9 || (
                        twig.header.path_len <= rest.len() && forall|i: int|
                            0 <= i < twig.header.path_len ==> #[trigger] rest[i]
                                == twig.header.path@[i])),
                        _ => rest.len() == 0 || (rest.len() == at.hdr().path_len && forall|i: int|
                            0 <= i < rest.len() ==> #[trigger] rest[i] == at.hdr().path@[i]),
                    }
                };
            lemma_step(node, key, m);
        }
    }
    assert forall|n: int|
        {
            let at = #[trigger] node.node_at(key.take(n));
            let rest = key.skip(n);
            &&& 0 <= n <= key.len()
            &&& match at {
                NodePtr::Empty => false,
                NodePtr::Value(twig) => rest.len() > 0 && (twig.header.path_len > 9 || (
                twig.header.path_len <= rest.len() && forall|i: int|
                    0 <= i < twig.header.path_len ==> #[trigger] rest[i] == twig.header.path@[i])),
                _ => rest.len() == 0 || (rest.len() == at.hdr().path_len && forall|i: int|
                    0 <= i < rest.len() ==> #[trigger] rest[i] == at.hdr().path@[i]),
            }
        } implies !node.shape().readable(key) by {
        let at = node.node_at(key.take(n));
        let rest = key.skip(n);
        law_key_below(node, key, n);
        lemma_node_at_wf(node, key.take(n));
        at.lemma_shape();
        if at.is_inner() {
            lemma_leads(at, rest);
        }
        lemma_begins_with(at, rest);
    }
}

/// A key cannot be removed exactly when, at a place to which a part of it leads, the rest ends on
/// reaching a node, or goes on from a leaf that counts children, or whose own path does not fit
/// or is what the rest begins with before its last byte.
pub proof fn law_removable(node: NodePtr, key: Seq<u8>)
    requires
        node.wf(),
    ensures
        !node.shape().removable(key) <==> exists|n: int|
            {
                let at = #[trigger] node.node_at(key.take(n));
                let rest = key.skip(n);
                &&& 0 <= n <= key.len()
                &&& match at {
                    NodePtr::Empty => false,
                    NodePtr::Value(twig) => rest.len() > 0 && (twig.header.children != 0
                        || twig.header.path_len > 9 || (twig.header.path_len < rest.len() && forall|
                        i: int,
                    |
                        0 <= i < twig.header.path_len ==> #[trigger] rest[i]
                            == twig.header.path@[i])),
                    _ => rest.len() == 0,
                }
            },
    decreases key.len(),
{
    node.lemma_shape();
    assert(key.take(0).len() == 0);
    assert(key.skip(0) =~= key);
    assert(node.node_at(key.take(0)) == node);
    if node.is_inner() {
        lemma_leads(node, key);
    }
    if key.len() > 0 {
        lemma_begins_with(node, key.drop_last());
    }
    if !node.shape().removable(key) {
        if node.is_inner() && key.len() > 0 {
            let x = node.branch(key);
            let rest = node.rest(key);
            assert(node.shape().leads(key));
            assert(node.shape().kid(x) == node.kid(x).shape());
            assert(!node.kid(x).shape().removable(rest));
            law_removable(node.kid(x), rest);
            let m = choose|m: int|
                {
                    let at = #[trigger] node.kid(x).node_at(rest.take(m));
                    let rest = rest.skip(m);
                    &&& 0 <= m <= node.rest(key).len()
                    &&& match at {
                        NodePtr::Empty => false,
                        NodePtr::Value(twig) => rest.len() > 0 && (twig.header.children != 0
                            || twig.header.path_len > 9 || (twig.header.path_len < rest.len()
                            && forall|i: int|
                            0 <= i < twig.header.path_len ==> #[trigger] rest[i]
                                == twig.header.path@[i])),
                        _ => rest.len() == 0,
                    }
                };
            lemma_step(node, key, m);
        }
    }
    assert forall|n: int|
        {
            let at = #[trigger] node.node_at(key.take(n));
            let rest = key.skip(n);
            &&& 0 <= n <= key.len()
            &&& match at {
                NodePtr::Empty => false,
                NodePtr::Value(twig) => rest.len() > 0 && (twig.header.children != 0
                    || twig.header.path_len > 9 || (twig.header.path_len < rest.len() && forall|
                    i: int,
                |
                    0 <= i < twig.header.path_len ==> #[trigger] rest[i] == twig.header.path@[i])),
                _ => rest.len() == 0,
            }
        } implies !node.shape().removable(key) by {
        let at = node.node_at(key.take(n));
        let rest = key.skip(n);
        law_key_below(node, key, n);
        at.lemma_shape();
        if rest.len() > 0 {
            lemma_begins_with(at, rest.drop_last());
        }
    }
}

/// What is found below a child is found below its node.
proof fn lemma_step(node: NodePtr, key: Seq<u8>, m: int)
    requires
        node.leads(key),
        0 <= m <= node.rest(key).len(),
    ensures
        ({
            let n = node.hdr().prefix().len() + 1 + m;
            &&& n <= key.len()
            &&& node.node_at(key.take(n)) == node.kid(node.branch(key)).node_at(
                node.rest(key).take(m),
            )
            &&& key.skip(n) == node.rest(key).skip(m)
        }),
{
    let p = node.hdr().prefix().len() as int;
    let n = p + 1 + m;
    assert(key.take(n).subrange(0, p) =~= key.subrange(0, p));
    assert(node.leads(key.take(n)));
    assert(node.rest(key.take(n)) =~= node.rest(key).take(m));
    assert(key.skip(n) =~= node.rest(key).skip(m));
}

/// A prefix as long as the whole is the whole.
proof fn lemma_prefix_whole(prefix: Seq<u8>, key: Seq<u8>)
    ensures
        prefix.len() == key.len() ==> (prefix.is_prefix_of(key) <==> prefix == key),
{
    if prefix.len() == key.len() {
        assert(key.subrange(0, prefix.len() as int) =~= key);
    }
}

/// Where a part of a key leads to a node and the rest leaves its compressed path, ends inside it,
/// or goes on after it with a byte that has no child, the key can be looked up and removed, and
/// the map does not hold it.
pub proof fn law_keys_off_the_way(art: Art, key: Seq<u8>, n: int)
    requires
        art.wf(),
        0 <= n < key.len(),
        art.tree().node_at(key.take(n)).is_inner(),
        ({
            let at = art.tree().node_at(key.take(n));
            let m = at.hdr().path_len as int;
            ||| key.len() - n < m
            ||| exists|i: int|
                0 <= i < m && n + i < key.len() && #[trigger] at.hdr().path@[i] != key[n + i]
            ||| n + m < key.len() && at.kid(key[n + m]) is Empty
        }),
    ensures
        art.shape().readable(key),
        art.shape().removable(key),
        !art@.contains_key(key),
{
    let root = art.tree();
    let at = root.node_at(key.take(n));
    let rest = key.skip(n);
    let m = at.hdr().path_len as int;
    law_key_below(root, key, n);
    lemma_node_at_wf(root, key.take(n));
    lemma_leads(at, rest);
    at.lemma_shape();
    if exists|i: int| 0 <= i < m && n + i < key.len() && #[trigger] at.hdr().path@[i] != key[n + i] {
        let i = choose|i: int|
            0 <= i < m && n + i < key.len() && #[trigger] at.hdr().path@[i] != key[n + i];
        assert(rest[i] != at.hdr().path@[i]);
    }
    if at.leads(rest) {
        assert(at.branch(rest) == key[n + m]);
        assert(at.shape().kid(at.branch(rest)) == at.kid(at.branch(rest)).shape());
        assert(Shape::Empty.readable(at.rest(rest)));
        assert(Shape::Empty.removable(at.rest(rest)));
        NodePtr::lemma_empty_lookup();
        assert(NodePtr::Empty.lookup(at.rest(rest)) is None);
    }
}

/// Two well-formed trees of the same shape are alike: the same leaf, or nodes of the same kind
/// with the same compressed path and time stamp, and below each byte trees of the same shape.
pub proof fn law_shape(a: NodePtr, b: NodePtr, x: u8)
    requires
        a.wf(),
        b.wf(),
        a.shape() == b.shape(),
    ensures
        a is Empty <==> b is Empty,
        a is Value <==> b is Value,
        a is Value ==> *a->Value_0 == *b->Value_0,
        a is Node1 <==> b is Node1,
        a is Node4 <==> b is Node4,
        a is Node16 <==> b is Node16,
        a is Node48 <==> b is Node48,
        a is Node256 <==> b is Node256,
        a.is_inner() ==> {
            &&& a.hdr().path_len == b.hdr().path_len
            &&& forall|i: int|
                0 <= i < a.hdr().path_len ==> #[trigger] a.hdr().path@[i] == b.hdr().path@[i]
            &&& a.hdr().ts == b.hdr().ts
            &&& a.hdr().children == b.hdr().children
            &&& a.kid(x).wf() && b.kid(x).wf()
            &&& a.kid(x).shape() == b.kid(x).shape()
        },
{
    a.lemma_shape();
    b.lemma_shape();
    assert(a.shape().kid(x) == a.kid(x).shape());
    assert(b.shape().kid(x) == b.kid(x).shape());
    if a.is_inner() {
        law_well_formed(a);
        law_well_formed(b);
        let p = a.hdr().prefix();
        assert(p == b.hdr().prefix());
        assert forall|i: int| 0 <= i < a.hdr().path_len implies #[trigger] a.hdr().path@[i]
            == b.hdr().path@[i] by {
            assert(p[i] == a.hdr().path@[i]);
            assert(p[i] == b.hdr().path@[i]);
        }
        assert forall|y: u8| (#[trigger] a.kid(y) is Empty) == (b.kid(y) is Empty) by {
            a.kid(y).lemma_shape();
            b.kid(y).lemma_shape();
            assert(a.shape().kid(y) == a.kid(y).shape());
            assert(b.shape().kid(y) == b.kid(y).shape());
        }
        assert(Set::new(|y: u8| !(a.kid(y) is Empty)) =~= Set::new(|y: u8| !(b.kid(y) is Empty)));
    }
}

/// The compressed path of a node, byte by byte, from that of its shape.
proof fn lemma_path_bytes(node: NodePtr, prefix: Seq<u8>)
    requires
        node.is_inner(),
        node.layout(),
        node.hdr().prefix() == prefix,
    ensures
        node.hdr().path_len == prefix.len(),
        forall|i: int| 0 <= i < prefix.len() ==> #[trigger] node.hdr().path@[i] == prefix[i],
{
    assert forall|i: int| 0 <= i < prefix.len() implies #[trigger] node.hdr().path@[i]
        == prefix[i] by {
        assert(node.hdr().prefix()[i] == node.hdr().path@[i]);
    }
}

/// Inserting the empty key leaves the leaf alone.
pub proof fn law_insert_ends(before: NodePtr, after: NodePtr, value: TwigNode)
    requires
        before.wf(),
        after.wf(),
        after.shape() == before.shape().insert(Seq::empty(), value),
    ensures
        after == NodePtr::Value(Box::new(value)),
{
    after.lemma_shape();
}

/// Inserting a key where there is nothing makes a node with one slot. Its compressed path is the
/// key without its last byte, or nine bytes of it if it is longer. The next byte leads to what
/// comes of inserting the rest.
pub proof fn law_insert_into_nothing(after: NodePtr, key: Seq<u8>, value: TwigNode)
    requires
        after.wf(),
        key.len() > 0,
        after.shape() == NodePtr::Empty.shape().insert(key, value),
    ensures
        ({
            let n = if key.len() <= 10 {
                key.len() - 1
            } else {
                9
            };
            after matches NodePtr::Node1(n1) && {
                &&& n1.header.path_len == n
                &&& forall|i: int| 0 <= i < n ==> #[trigger] n1.header.path@[i] == key[i]
                &&& n1.header.ts == 0
                &&& n1.header.children == 1
                &&& n1.key == key[n]
                &&& n1.slot.wf()
                &&& n1.slot.shape() == NodePtr::Empty.shape().insert(key.skip(n + 1), value)
            }
        }),
{
    let n = if key.len() <= 10 {
        key.len() - 1
    } else {
        9
    };
    let x = key[n];
    let below = Shape::Empty.insert(key.skip(n + 1), value);
    let bare = Shape::Inner(key.take(n), 0, no_kids());
    bare.lemma_with_kid(x, below);
    assert(after.shape() == bare.with_kid(x, below));
    after.lemma_shape();
    lemma_path_bytes(after, key.take(n));
    assert forall|y: u8| (#[trigger] after.kid(y) is Empty) == (y != x) by {
        after.kid(y).lemma_shape();
        assert(after.shape().kid(y) == after.kid(y).shape());
    }
    assert(Set::new(|y: u8| !(after.kid(y) is Empty)) =~= set![x]);
    law_well_formed(after);
    assert(after.shape().kid(x) == after.kid(x).shape());
    assert(after.kid(x).wf());
}

/// The only key of a map, if it has from one to ten bytes, is below a single node, whose
/// compressed path is the key without its last byte.
pub proof fn law_only_key(before: Art, after: Art, key: Seq<u8>, value: TwigNode)
    requires
        before.wf(),
        after.wf(),
        before@ == Map::<Seq<u8>, TwigNode>::empty(),
        1 <= key.len() <= 10,
        after.shape() == before.shape().insert(key, value),
    ensures
        after.tree() matches NodePtr::Node1(n1) && {
            &&& n1.header.path_len == key.len() - 1
            &&& forall|i: int| 0 <= i < key.len() - 1 ==> #[trigger] n1.header.path@[i] == key[i]
            &&& n1.key == key.last()
            &&& n1.slot == NodePtr::Value(Box::new(value))
        },
{
    law_no_keys_no_root(before);
    law_insert_into_nothing(after.tree(), key, value);
    let n1 = after.tree()->Node1_0;
    assert(key.skip(key.len() as int) =~= Seq::empty());
    law_insert_ends(NodePtr::Empty, n1.slot, value);
}

/// Inserting a key that has the bytes of the compressed path of a node, and more, keeps the
/// compressed path and the time stamp, and what is below every other byte. Below the byte at
/// which the key goes on is what comes of inserting the rest there.
pub proof fn law_insert_follows(
    before: NodePtr,
    after: NodePtr,
    key: Seq<u8>,
    value: TwigNode,
    y: u8,
)
    requires
        before.wf(),
        after.wf(),
        before.is_inner(),
        before.hdr().path_len < key.len(),
        forall|i: int|
            0 <= i < before.hdr().path_len ==> #[trigger] key[i] == before.hdr().path@[i],
        after.shape() == before.shape().insert(key, value),
    ensures
        ({
            let n = before.hdr().path_len as int;
            &&& after.is_inner()
            &&& after.hdr().path_len == n
            &&& forall|i: int|
                0 <= i < n ==> #[trigger] after.hdr().path@[i] == before.hdr().path@[i]
            &&& after.hdr().ts == before.hdr().ts
            &&& before.kid(y).wf() && after.kid(y).wf()
            &&& after.kid(y).shape() == if y == key[n] {
                before.kid(y).shape().insert(key.skip(n + 1), value)
            } else {
                before.kid(y).shape()
            }
        }),
{
    lemma_leads(before, key);
    before.lemma_shape();
    after.lemma_shape();
    let x = before.branch(key);
    assert(before.shape().leads(key));
    assert(before.shape().kid(x) == before.kid(x).shape());
    before.shape().lemma_with_kid(x, before.kid(x).shape().insert(before.rest(key), value));
    assert(before.shape().kid(y) == before.kid(y).shape());
    assert(after.shape().kid(y) == after.kid(y).shape());
    lemma_path_bytes(after, before.hdr().prefix());
    lemma_path_bytes(before, before.hdr().prefix());
    assert(before.kid(y).wf());
    assert(after.kid(y).wf());
}

/// Inserting a key that leaves the compressed path of a node at its byte `n` makes a node with
/// four slots above it. Its compressed path is what key and path share, its time stamp is zero,
/// and it has two children: the old node with the rest of its path, and what comes of inserting
/// the rest of the key where there is nothing.
pub proof fn law_insert_splits(
    before: NodePtr,
    after: NodePtr,
    key: Seq<u8>,
    value: TwigNode,
    n: int,
    y: u8,
)
    requires
        before.wf(),
        after.wf(),
        before.is_inner(),
        0 <= n < key.len(),
        n < before.hdr().path_len,
        forall|i: int| 0 <= i < n ==> #[trigger] key[i] == before.hdr().path@[i],
        key[n] != before.hdr().path@[n],
        after.shape() == before.shape().insert(key, value),
    ensures
        ({
            let b = before.hdr().path@[n];
            let lower = after.kid(b);
            &&& after is Node4
            &&& after.hdr().path_len == n
            &&& forall|i: int| 0 <= i < n ==> #[trigger] after.hdr().path@[i] == key[i]
            &&& after.hdr().ts == 0
            &&& after.hdr().children == 2
            &&& y != b && y != key[n] ==> after.kid(y) is Empty
            &&& after.kid(key[n]).wf()
            &&& after.kid(key[n]).shape() == NodePtr::Empty.shape().insert(key.skip(n + 1), value)
            &&& lower.wf()
            &&& lower.is_inner()
            &&& lower.hdr().path_len == before.hdr().path_len - n - 1
            &&& forall|i: int|
                0 <= i < lower.hdr().path_len ==> #[trigger] lower.hdr().path@[i]
                    == before.hdr().path@[n + 1 + i]
            &&& lower.hdr().ts == before.hdr().ts
            &&& lower.kid(y).shape() == before.kid(y).shape()
        }),
{
    lemma_leads(before, key);
    before.lemma_shape();
    after.lemma_shape();
    let prefix = before.hdr().prefix();
    lemma_path_bytes(before, prefix);
    let partial = key.drop_last();
    let at = shared_len(partial, prefix) as int;
    lemma_shared_len(partial, prefix);
    assert(at == n) by {
        if at < n {
            assert(partial[at] == key[at]);
            assert(prefix[at] == before.hdr().path@[at]);
        }
        if at > n {
            assert(partial.take(at)[n] == prefix.take(at)[n]);
        }
    }
    let b = prefix[n];
    let x = key[n];
    assert(!before.leads(key)) by {
        if before.leads(key) {
            assert(key[n] == before.hdr().path@[n]);
        }
    }
    assert(!before.shape().leads(key));
    let below = Shape::Empty.insert(key.skip(n + 1), value);
    let low = Shape::Inner(prefix.skip(n + 1), before.hdr().ts, before.shape()->Inner_2);
    let top = Shape::Inner(prefix.take(n), 0, no_kids());
    top.lemma_with_kid(b, low);
    let cut = top.with_kid(b, low);
    assert(before.shape().cut(n) == cut);
    cut.lemma_with_kid(x, below);
    assert(after.shape() == cut.with_kid(x, below));
    lemma_path_bytes(after, prefix.take(n));
    assert forall|z: u8| (#[trigger] after.kid(z) is Empty) == (z != b && z != x) by {
        after.kid(z).lemma_shape();
        assert(after.shape().kid(z) == after.kid(z).shape());
    }
    assert(Set::new(|z: u8| !(after.kid(z) is Empty)) =~= set![b, x]);
    law_well_formed(after);
    assert(after.shape().kid(x) == after.kid(x).shape());
    assert(after.shape().kid(b) == after.kid(b).shape());
    assert(after.kid(x).wf());
    let lower = after.kid(b);
    assert(lower.wf());
    lower.lemma_shape();
    lemma_path_bytes(lower, prefix.skip(n + 1));
    assert(lower.shape().kid(y) == lower.kid(y).shape());
    assert(before.shape().kid(y) == before.kid(y).shape());
}

/// Removing a key that a node holds leaves nothing where the node holds no other key. Else the
/// node keeps its compressed path and its time stamp, and what is below every byte but the one
/// at which the key goes on.
pub proof fn law_remove_follows(before: NodePtr, after: NodePtr, key: Seq<u8>, y: u8)
    requires
        before.wf(),
        after.wf(),
        before.is_inner(),
        before.entries().contains_key(key),
        after.entries() == before.entries().remove(key),
        after.shape() == before.shape().remove(key),
    ensures
        ({
            let n = before.hdr().path_len as int;
            &&& after is Empty <==> forall|k: Seq<u8>| #[trigger]
                before.entries().contains_key(k) ==> k == key
            &&& !(after is Empty) ==> {
                &&& after.is_inner()
                &&& after.hdr().path_len == n
                &&& forall|i: int|
                    0 <= i < n ==> #[trigger] after.hdr().path@[i] == before.hdr().path@[i]
                &&& after.hdr().ts == before.hdr().ts
                &&& before.kid(y).wf() && after.kid(y).wf()
                &&& y != key[n] ==> after.kid(y).shape() == before.kid(y).shape()
                &&& y == key[n] ==> after.kid(y).shape() == before.kid(y).shape().remove(
                    key.skip(n + 1),
                )
            }
        }),
{
    assert(before.leads(key));
    lemma_leads(before, key);
    before.lemma_shape();
    after.lemma_shape();
    if after is Empty {
        NodePtr::lemma_empty_lookup();
        assert forall|k: Seq<u8>| #[trigger] before.entries().contains_key(k) implies k == key by {
            if k != key {
                assert(after.entries().contains_key(k));
                assert(NodePtr::Empty.lookup(k) is None);
            }
        }
    } else {
        let k = after.lemma_holds_key();
        assert(after.entries().contains_key(k));
        assert(before.entries().contains_key(k) && k != key);
        let x = before.branch(key);
        assert(before.shape().leads(key));
        assert(before.shape().kid(x) == before.kid(x).shape());
        before.shape().lemma_with_kid(x, before.kid(x).shape().remove(before.rest(key)));
        assert(before.shape().kid(y) == before.kid(y).shape());
        assert(after.shape().kid(y) == after.kid(y).shape());
        lemma_path_bytes(after, before.hdr().prefix());
        lemma_path_bytes(before, before.hdr().prefix());
        assert(before.kid(y).wf());
        assert(after.kid(y).wf());
    }
}

/// Removing the empty key leaves nothing.
pub proof fn law_remove_ends(before: NodePtr, after: NodePtr)
    requires
        before.wf(),
        after.wf(),
        after.shape() == before.shape().remove(Seq::empty()),
    ensures
        after is Empty,
{
    after.lemma_shape();
}

/// A cut puts a node with four slots above a node. Its compressed path is the first `at` bytes of
/// the path, its first slot has the old node under the next byte, and the other slots are empty.
/// The old node has the bytes after that in its path, and those that went at its end.
pub proof fn law_cut(node: NodePtr, after: NodePtr, at: int)
    requires
        node.is_inner(),
        node.layout(),
        after.layout(),
        node.cut(after, at),
    ensures
        0 <= at < node.hdr().path_len,
        after matches NodePtr::Node4(n4) && {
            let lower = n4.slots@[0];
            &&& n4.header.path_len == at
            &&& forall|i: int|
                0 <= i < 9 ==> #[trigger] n4.header.path@[i] == if i < at {
                    node.hdr().path@[i]
                } else {
                    0
                }
            &&& n4.header.children == 1
            &&& n4.header.ts == 0
            &&& n4.keys@[0] == Some(node.hdr().path@[at])
            &&& forall|i: int|
                1 <= i < 4 ==> n4.keys@[i] is None && #[trigger] n4.slots@[i] is Empty
            &&& lower.hdr().path_len == node.hdr().path_len - at - 1
            &&& forall|i: int|
                0 <= i < 9 ==> #[trigger] lower.hdr().path@[i] == if i < 8 - at {
                    node.hdr().path@[i + at + 1]
                } else {
                    node.hdr().path@[i + at - 8]
                }
            &&& lower.hdr().children == node.hdr().children
            &&& lower.hdr().ts == node.hdr().ts
            &&& lower == node.with_header(lower.hdr())
        },
{
    let prefix = node.hdr().prefix();
    let n4 = after->Node4_0;
    lemma_path_bytes(after, prefix.take(at));
    assert(node.hdr().prefix()[at] == node.hdr().path@[at]);
    assert forall|i: int| 0 <= i < 9 implies #[trigger] n4.header.path@[i] == if i < at {
        node.hdr().path@[i]
    } else {
        0
    } by {
        assert(after.hdr().path@[i] == padded(prefix.take(at))[i]);
    }
    let lower = n4.slots@[0];
    assert(lower == after.kid(prefix[at]));
    node.lemma_with_header(lower.hdr());
    assert(lower.hdr().prefix().len() == prefix.len() - at - 1);
    assert(lower.hdr().prefix().len() == lower.hdr().path_len);
}

/// Way is made for a path by a cut where it leaves a compressed path, and where there is nothing
/// by a node with one empty slot, whose compressed path is the path without its last byte, or
/// nine bytes of it if it is longer, filled up with zeros.
pub proof fn law_making_way(node: NodePtr, way: NodePtr, path: Seq<u8>)
    requires
        node.layout(),
        path.len() > 0,
        node.makes_way(way, path),
    ensures
        node is Empty || node.is_inner(),
        node is Empty ==> (way matches NodePtr::Node1(n1) && {
            let n = if path.len() <= 10 {
                path.len() - 1
            } else {
                9
            };
            &&& n1.header.path_len == n
            &&& forall|i: int|
                0 <= i < 9 ==> #[trigger] n1.header.path@[i] == if i < n {
                    path[i]
                } else {
                    0
                }
            &&& n1.header.children == 0
            &&& n1.header.ts == 0
            &&& n1.key == 0
            &&& n1.slot is Empty
        }),
        node.is_inner() ==> exists|at: int|
            {
                &&& #[trigger] node.cut(way, at)
                &&& 0 <= at < path.len()
                &&& forall|i: int| 0 <= i < at ==> #[trigger] path[i] == node.hdr().path@[i]
                &&& at + 1 < path.len() ==> path[at] != node.hdr().path@[at]
            },
{
    if node.is_inner() {
        let prefix = node.hdr().prefix();
        let partial = path.drop_last();
        let at = shared_len(partial, prefix) as int;
        lemma_shared_len(partial, prefix);
        lemma_path_bytes(node, prefix);
        assert(node.cut(way, at));
        assert forall|i: int| 0 <= i < at implies #[trigger] path[i] == node.hdr().path@[i] by {
            assert(partial.take(at)[i] == prefix.take(at)[i]);
        }
        if at + 1 < path.len() {
            assert(partial[at] != prefix[at]);
        }
    } else {
        let n1 = way->Node1_0;
        assert forall|i: int| 0 <= i < 9 implies #[trigger] n1.header.path@[i] == if i
            < n1.header.path_len {
            path[i]
        } else {
            0
        } by {
            assert(n1.header.path@[i] == padded(path.take(n1.header.path_len as int))[i]);
        }
    }
}

/// What is put into the slot at the end of a path takes the place of what was there. Where the
/// path does not lead through a node, way is made first.
pub proof fn law_putting(node: NodePtr, after: NodePtr, path: Seq<u8>, clear: bool, put: NodePtr)
    requires
        node.layout(),
        node.puts(after, path, clear, put),
    ensures
        path.len() == 0 ==> after == put,
        path.len() > 0 && !(node.is_inner() && node.hdr().path_len < path.len() && forall|i: int|
            0 <= i < node.hdr().path_len ==> #[trigger] path[i] == node.hdr().path@[i])
            ==> exists|way: NodePtr| #[trigger]
            node.makes_way(way, path) && way.puts(after, path, clear, put),
{
    if node.is_inner() {
        lemma_leads(node, path);
    }
}

/// A node that a path leads through keeps its header but for the number of children, which goes
/// by one where a child comes or goes. It stores what comes of putting something below the child,
/// after growing if it is full and the child is new.
pub proof fn law_putting_follows(
    node: NodePtr,
    after: NodePtr,
    path: Seq<u8>,
    clear: bool,
    put: NodePtr,
)
    requires
        node.layout(),
        node.is_inner(),
        node.hdr().path_len < path.len(),
        forall|i: int| 0 <= i < node.hdr().path_len ==> #[trigger] path[i] == node.hdr().path@[i],
        node.puts(after, path, clear, put),
    ensures
        ({
            let n = node.hdr().path_len as int;
            let x = path[n];
            let kid = node.kid(x);
            let kid2 = after.kid(x);
            &&& kid.puts(kid2, path.skip(n + 1), clear, put)
            &&& after.hdr().path == node.hdr().path
            &&& after.hdr().path_len == node.hdr().path_len
            &&& after.hdr().ts == node.hdr().ts
            &&& kid is Empty == kid2 is Empty ==> after.hdr().children == node.hdr().children
            &&& kid is Empty && !(kid2 is Empty) ==> after.hdr().children == node.hdr().children + 1
            &&& !(kid is Empty) && kid2 is Empty ==> after.hdr().children == node.hdr().children - 1
            &&& if kid is Empty && node.live() == node.capacity() {
                exists|room: NodePtr| #[trigger]
                    node.grows_into(room) && room.stores(
                        after,
                        x,
                        clear && path.len() == n + 1,
                        kid2,
                    )
            } else {
                node.stores(after, x, clear && path.len() == n + 1, kid2)
            }
        }),
{
    lemma_leads(node, path);
    let x = node.branch(path);
    let done = clear && node.rest(path).len() == 0;
    assert(node.relaid(after, path, done));
    let room = choose|room: NodePtr|
        {
            &&& if node.kid(x) is Empty && node.live() == node.capacity() {
                node.grows_into(room)
            } else {
                room == node
            }
            &&& #[trigger] room.stores(after, x, done, after.kid(x))
        };
    assert(room.stores(after, x, done, after.kid(x)));
    if node.kid(x) is Empty && node.live() == node.capacity() {
        assert(node.grows_into(room));
    }
}

/// A node settles by giving way to one of the next smaller size, under the same header, at four
/// numbers of children, and to nothing when its only slot is empty. Else it stays.
pub proof fn law_settling(node: NodePtr, after: NodePtr)
    requires
        node.settles(after),
    ensures
        ({
            let n = node.hdr().children;
            match node {
                NodePtr::Node1(_) => if n == 0 {
                    after is Empty
                } else {
                    after == node
                },
                NodePtr::Node4(_) => if n == 1 {
                    after is Node1 && after.hdr() == node.hdr() && node.shrinks_into(after)
                } else {
                    after == node
                },
                NodePtr::Node16(_) => if n == 4 {
                    after is Node4 && after.hdr() == node.hdr() && node.shrinks_into(after)
                } else {
                    after == node
                },
                NodePtr::Node48(_) => if n == 16 {
                    after is Node16 && after.hdr() == node.hdr() && node.shrinks_into(after)
                } else {
                    after == node
                },
                NodePtr::Node256(_) => if n == 48 {
                    after is Node48 && after.hdr() == node.hdr() && node.shrinks_into(after)
                } else {
                    after == node
                },
                _ => after == node,
            }
        }),
{
}

/// Trimming along a path settles the node, after the child that the path goes on from has been
/// trimmed along the rest and stored again, or has left the node.
pub proof fn law_trimming(node: NodePtr, after: NodePtr, path: Seq<u8>)
    requires
        node.layout(),
        node.trims(after, path),
    ensures
        ({
            let n = node.hdr().path_len as int;
            let x = path[n];
            if node.is_inner() && n + 1 < path.len() && forall|i: int|
                0 <= i < n ==> #[trigger] path[i] == node.hdr().path@[i] {
                exists|mid: NodePtr|
                    {
                        &&& #[trigger] mid.settles(after)
                        &&& node.kid(x).trims(mid.kid(x), path.skip(n + 1))
                        &&& mid.hdr().path == node.hdr().path
                        &&& mid.hdr().path_len == node.hdr().path_len
                        &&& mid.hdr().ts == node.hdr().ts
                        &&& !(node.kid(x) is Empty) ==> {
                            &&& node.stores(mid, x, mid.kid(x) is Empty, mid.kid(x))
                            &&& mid.hdr().children == node.hdr().children - (if mid.kid(
                                x,
                            ) is Empty {
                                1int
                            } else {
                                0
                            })
                        }
                    }
            } else {
                node.settles(after)
            }
        }),
{
    if node.is_inner() {
        lemma_leads(node, path);
    }
    if node.leads(path) && node.rest(path).len() > 0 {
        let x = node.branch(path);
        let rest = node.rest(path);
        let mid = choose|mid: NodePtr|
            {
                &&& node.kid(x).trims(mid.kid(x), rest)
                &&& node.relaid(mid, path, mid.kid(x) is Empty)
                &&& #[trigger] mid.settles(after)
            };
        assert(mid.settles(after));
    }
}

/// Removing empties the slot of the key. The nodes on the way are trimmed after that if the node
/// that had the slot has come to 48, 16, 4 or one children, or to none.
pub proof fn law_removing(node: NodePtr, after: NodePtr, key: Seq<u8>)
    requires
        node.removes(after, key),
    ensures
        exists|mid: NodePtr|
            {
                let n = mid.parent_size(key);
                &&& #[trigger] node.puts(mid, key, true, NodePtr::Empty)
                &&& if key.len() > 0 && (n == 48 || n == 16 || n == 4 || n == 1 || n == 0) {
                    mid.trims(after, key)
                } else {
                    after == mid
                }
            },
{
    let mid = choose|mid: NodePtr|
        {
            &&& #[trigger] node.puts(mid, key, true, NodePtr::Empty)
            &&& if key.len() > 0 && at_limit(mid.parent_size(key)) {
                mid.trims(after, key)
            } else {
                after == mid
            }
        };
    assert(node.puts(mid, key, true, NodePtr::Empty));
}

/// The number of children of the node that has the slot for a path.
pub proof fn law_parent_size(node: NodePtr, path: Seq<u8>)
    requires
        node.is_inner(),
        node.layout(),
        node.hdr().path_len < path.len(),
        forall|i: int| 0 <= i < node.hdr().path_len ==> #[trigger] path[i] == node.hdr().path@[i],
    ensures
        ({
            let n = node.hdr().path_len as int;
            node.parent_size(path) == if path.len() == n + 1 {
                node.hdr().children as int
            } else {
                node.kid(path[n]).parent_size(path.skip(n + 1))
            }
        }),
{
    lemma_leads(node, path);
}

/// A path can be trimmed along in a well-formed tree exactly when a part of it leads to a place
/// where the rest begins with the compressed path and has at most one byte more.
pub proof fn law_chained(node: NodePtr, path: Seq<u8>)
    requires
        node.wf(),
    ensures
        node.chained(path) <==> exists|n: int|
            {
                let at = #[trigger] node.node_at(path.take(n));
                let m = at.hdr().path_len as int;
                &&& 0 <= n <= path.len()
                &&& n > 0 ==> !(at is Empty)
                &&& m <= 9
                &&& m <= path.len() - n <= m + 1
                &&& forall|i: int| 0 <= i < m ==> #[trigger] path[n + i] == at.hdr().path@[i]
            },
    decreases path.len(),
{
    let p = node.hdr().prefix().len() as int;
    assert(path.take(0).len() == 0);
    assert(node.node_at(path.take(0)) == node);
    lemma_begins_with(node, path);
    if node.chained(path) {
        if path.len() > p + 1 {
            let kid = node.kid(node.branch(path));
            let rest = node.rest(path);
            assert(node.leads(path));
            law_chained(kid, rest);
            let n = choose|n: int|
                {
                    let at = #[trigger] kid.node_at(rest.take(n));
                    let m = at.hdr().path_len as int;
                    &&& 0 <= n <= rest.len()
                    &&& n > 0 ==> !(at is Empty)
                    &&& m <= 9
                    &&& m <= rest.len() - n <= m + 1
                    &&& forall|i: int| 0 <= i < m ==> #[trigger] rest[n + i] == at.hdr().path@[i]
                };
            lemma_step(node, path, n);
            let at = kid.node_at(rest.take(n));
            assert(n == 0 ==> rest.take(n) =~= Seq::empty());
            let q = p + 1 + n;
            assert forall|i: int| 0 <= i < at.hdr().path_len implies #[trigger] path[q + i]
                == at.hdr().path@[i] by {
                assert(rest[n + i] == path[q + i]);
            }
            assert(node.node_at(path.take(q)) == at);
        } else {
            assert forall|i: int| 0 <= i < p implies #[trigger] path[0 + i]
                == node.hdr().path@[i] by {}
        }
    }
    assert forall|n: int|
        {
            let at = #[trigger] node.node_at(path.take(n));
            let m = at.hdr().path_len as int;
            &&& 0 <= n <= path.len()
            &&& n > 0 ==> !(at is Empty)
            &&& m <= 9
            &&& m <= path.len() - n <= m + 1
            &&& forall|i: int| 0 <= i < m ==> #[trigger] path[n + i] == at.hdr().path@[i]
        } implies node.chained(path) by {
        let at = node.node_at(path.take(n));
        let m = at.hdr().path_len as int;
        if n == 0 {
            assert forall|i: int| 0 <= i < m implies #[trigger] path[i] == node.hdr().path@[i] by {
                assert(path[0 + i] == at.hdr().path@[i]);
            }
        } else {
            assert(node.leads(path.take(n)));
            assert(path.take(n).subrange(0, p) =~= path.subrange(0, p));
            assert(node.leads(path));
            let kid = node.kid(node.branch(path));
            let rest = node.rest(path);
            lemma_step(node, path, n - p - 1);
            if path.len() > p + 1 {
                let k = n - p - 1;
                assert(kid.node_at(rest.take(k)) == at);
                if kid is Empty {
                    NodePtr::lemma_empty_lookup();
                    assert(NodePtr::Empty.node_at(rest.take(k)) is Empty);
                }
                assert forall|i: int| 0 <= i < m implies #[trigger] rest[k + i]
                    == at.hdr().path@[i] by {
                    assert(path[n + i] == rest[k + i]);
                }
                assert(kid.wf());
                law_chained(kid, rest);
            }
        }
    }
}

/// When a byte string begins with the compressed path of a node or a leaf.
proof fn lemma_begins_with(node: NodePtr, path: Seq<u8>)
    ensures
        node.hdr().fits() <==> node.hdr().path_len <= 9,
        node.hdr().fits() ==> node.hdr().prefix().len() == node.hdr().path_len,
        node.hdr().fits() ==> (node.hdr().prefix().is_prefix_of(path) <==> node.hdr().path_len
            <= path.len() && forall|i: int|
            0 <= i < node.hdr().path_len ==> #[trigger] path[i] == node.hdr().path@[i]),
{
    let prefix = node.hdr().prefix();
    if node.hdr().fits() {
        if prefix.is_prefix_of(path) {
            assert forall|i: int| 0 <= i < node.hdr().path_len implies #[trigger] path[i]
                == node.hdr().path@[i] by {
                assert(path.subrange(0, prefix.len() as int)[i] == prefix[i]);
            }
        } else if node.hdr().path_len <= path.len() && forall|i: int|
            0 <= i < node.hdr().path_len ==> #[trigger] path[i] == node.hdr().path@[i] {
            assert(prefix =~= path.subrange(0, prefix.len() as int));
        }
    }
}

/// A key that is inserted where there is nothing goes into as few nodes as can hold it: each takes
/// ten bytes of it, nine of them as its compressed path, and the last takes what is left.
pub proof fn law_insert_into_nothing_is_compact(
    after: NodePtr,
    key: Seq<u8>,
    value: TwigNode,
    k: int,
)
    requires
        after.wf(),
        after.shape() == NodePtr::Empty.shape().insert(key, value),
        0 <= k,
    ensures
        10 * k < key.len() ==> ({
            let n = if key.len() - 10 * k <= 10 {
                key.len() - 10 * k - 1
            } else {
                9
            };
            after.node_at(key.take(10 * k)) matches NodePtr::Node1(n1) && {
                &&& n1.header.path_len == n
                &&& forall|i: int| 0 <= i < n ==> #[trigger] n1.header.path@[i] == key[10 * k + i]
                &&& n1.key == key[10 * k + n]
            }
        }),
        after.node_at(key) == NodePtr::Value(Box::new(value)),
    decreases key.len(), k,
{
    if key.len() == 0 {
        assert(key =~= Seq::empty());
        law_insert_ends(NodePtr::Empty, after, value);
    } else {
        law_insert_into_nothing(after, key, value);
        let n1 = after->Node1_0;
        let n = n1.header.path_len as int;
        let rest = key.skip(n + 1);
        lemma_leads(after, key);
        assert(after.rest(key) == rest);
        if k == 0 {
            assert(key.take(0).len() == 0);
            law_insert_into_nothing_is_compact(n1.slot, rest, value, 0);
        } else {
            law_insert_into_nothing_is_compact(n1.slot, rest, value, k - 1);
            if 10 * k < key.len() {
                lemma_step(after, key, 10 * (k - 1));
                let m = if key.len() - 10 * k <= 10 {
                    key.len() - 10 * k - 1
                } else {
                    9
                };
                let at = after.node_at(key.take(10 * k));
                assert(at == n1.slot.node_at(rest.take(10 * (k - 1))));
                assert forall|i: int| 0 <= i < m implies #[trigger] at.hdr().path@[i] == key[10 * k
                    + i] by {
                    assert(rest[10 * (k - 1) + i] == key[10 * k + i]);
                    assert(at->Node1_0.header.path@[i] == rest[10 * (k - 1) + i]);
                }
                assert forall|i: int| 0 <= i < m implies #[trigger] at->Node1_0.header.path@[i]
                    == key[10 * k + i] by {
                    assert(at.hdr().path@[i] == key[10 * k + i]);
                }
            }
        }
    }
}

/// The number of children of the node that has the slot for a path, or will have it: what its
/// header says where the path leads through the node, one where the path leaves a compressed path
/// by its last byte, and none where more nodes are to be made.
pub proof fn law_size_for(node: NodePtr, path: Seq<u8>, n: int)
    requires
        node.layout(),
        path.len() > 0,
    ensures
        node is Empty ==> node.size_for(path) == 0,
        node.is_inner() && node.hdr().path_len < path.len() && (forall|i: int|
            0 <= i < node.hdr().path_len ==> #[trigger] path[i] == node.hdr().path@[i]) ==> ({
            let m = node.hdr().path_len as int;
            node.size_for(path) == if path.len() == m + 1 {
                node.hdr().children as int
            } else {
                node.kid(path[m]).size_for(path.skip(m + 1))
            }
        }),
        node.is_inner() && 0 <= n < path.len() && n < node.hdr().path_len && path[n]
            != node.hdr().path@[n] && (forall|i: int|
            0 <= i < n ==> #[trigger] path[i] == node.hdr().path@[i]) ==> node.size_for(path)
            == if path.len() == n + 1 {
            1int
        } else {
            0
        },
{
    if node.is_inner() {
        lemma_leads(node, path);
        let prefix = node.hdr().prefix();
        let partial = path.drop_last();
        lemma_path_bytes(node, prefix);
        lemma_shared_len(partial, prefix);
        let at = shared_len(partial, prefix) as int;
        if 0 <= n < path.len() && n < node.hdr().path_len && path[n] != node.hdr().path@[n] && (
        forall|i: int| 0 <= i < n ==> #[trigger] path[i] == node.hdr().path@[i]) {
            assert(at == n) by {
                if at < n {
                    assert(partial[at] == path[at]);
                    assert(prefix[at] == node.hdr().path@[at]);
                }
                if at > n {
                    assert(partial.take(at)[n] == prefix.take(at)[n]);
                }
            }
        }
    }
}

/// A map is well formed exactly when its tree is, and it counts the keys, which are finitely
/// many.
pub proof fn law_well_formed_map(art: Art)
    ensures
        art.wf() <==> art.tree().wf() && art.tree().entries().dom().finite() && art.size()
            == art.tree().entries().dom().len(),
        art@ == art.tree().entries(),
        art.shape() == art.tree().shape(),
{
}

/// A key has just been taken out of a tree exactly when the path leads through its nodes to an
/// empty slot, the node that has the slot may be short of one child for its size, and all else is
/// well formed.
pub proof fn law_pending(node: NodePtr, path: Seq<u8>)
    ensures
        node.pending(path) <==> {
            let n = node.hdr().path_len as int;
            let size = Set::new(|x: u8| !(node.kid(x) is Empty)).len();
            let short = if path.len() == n + 1 {
                1int
            } else {
                0
            };
            &&& node.is_inner()
            &&& node.layout()
            &&& n < path.len()
            &&& forall|i: int| 0 <= i < n ==> #[trigger] path[i] == node.hdr().path@[i]
            &&& node.hdr().children == size
            &&& match node {
                NodePtr::Node1(_) => 1 <= size + short,
                NodePtr::Node4(_) => 2 <= size + short,
                NodePtr::Node16(_) => 5 <= size + short,
                NodePtr::Node48(_) => 17 <= size + short,
                _ => 49 <= size + short,
            }
            &&& forall|x: u8| x != path[n] ==> (#[trigger] node.kid(x)).wf()
            &&& if path.len() == n + 1 {
                node.kid(path[n]) is Empty
            } else {
                node.kid(path[n]).pending(path.skip(n + 1))
            }
        },
{
    if node.is_inner() && node.layout() {
        lemma_leads(node, path);
        law_children_are_counted_by_byte(node);
        assert(NodePtr::Empty.wf());
    }
}

} // verus!

//! What holds of the tree as a whole, whatever was stored in it and in whichever order.

use crate::art::{clear_of, Art};
use crate::bytes::clash;
use crate::counting::{count, lemma_count_bounds, lemma_count_take, lemma_count_update};
use crate::header::{TwigNode, MAX_PATH_COMPRESSION_BYTES};
use crate::pointer::NodePtr;
use crate::slots::{filled, holds, indexed, keyed_kid, keyed_layout, lemma_keyed_kid, live};
use vstd::prelude::*;

verus! {

/// No two keys clash, so that each key can be read, replaced and removed beside the others.
pub proof fn law_keys_never_clash(art: Art)
    requires
        art.wf(),
    ensures
        forall|a: Seq<u8>, b: Seq<u8>|
            #![trigger art@.contains_key(a), art@.contains_key(b)]
            art@.contains_key(a) && art@.contains_key(b) ==> !clash(a, b),
        forall|k: Seq<u8>| #[trigger] art@.contains_key(k) ==> clear_of(art@, k),
{
    assert forall|a: Seq<u8>, b: Seq<u8>|
        #![trigger art@.contains_key(a), art@.contains_key(b)]
        art@.contains_key(a) && art@.contains_key(b) implies !clash(a, b) by {
        if clash(a, b) {
            if a.is_prefix_of(b) {
                lemma_prefix_free(art.tree(), a, b);
            } else {
                lemma_prefix_free(art.tree(), b, a);
            }
        }
    }
}

/// Where a tree holds a key, it holds no longer key that begins with it.
proof fn lemma_prefix_free(node: NodePtr, a: Seq<u8>, b: Seq<u8>)
    requires
        a.is_prefix_of(b),
        a != b,
        node.lookup(a) is Some,
    ensures
        node.lookup(b) is None,
    decreases a.len(),
{
    assert forall|i: int| 0 <= i < a.len() implies a[i] == b[i] by {
        assert(b.subrange(0, a.len() as int)[i] == b[i]);
    }
    if b.len() == a.len() {
        assert(a =~= b);
    }
    if a.len() > 0 {
        let prefix = node.hdr().prefix();
        assert(node.leads(a));
        assert(prefix =~= b.subrange(0, prefix.len() as int)) by {
            assert forall|i: int| 0 <= i < prefix.len() implies prefix[i] == b[i] by {
                assert(a.subrange(0, prefix.len() as int)[i] == prefix[i]);
            }
        }
        assert(node.leads(b));
        let x = node.branch(a);
        assert(node.rest(a) =~= node.rest(b).subrange(0, node.rest(a).len() as int));
        lemma_prefix_free(node.kid(x), node.rest(a), node.rest(b));
    }
}

/// A tree without keys has no nodes, and one with keys has a root.
pub proof fn law_no_keys_no_root(art: Art)
    requires
        art.wf(),
    ensures
        art.tree() is Empty <==> art@ == Map::<Seq<u8>, TwigNode>::empty(),
        art.tree() is Empty <==> art.size() == 0,
{
    NodePtr::lemma_empty_lookup();
    if art.tree() is Empty {
        assert(art@ =~= Map::<Seq<u8>, TwigNode>::empty());
        assert(art@.dom() =~= Set::empty());
    } else {
        let key = art.tree().lemma_holds_key();
        assert(art@.contains_key(key));
        if art.size() == 0 {
            assert(art@.dom() =~= Set::empty());
        }
    }
}

/// A key that clashes with no other can be read and removed, whether it is there or not.
pub proof fn law_clear_keys_are_accessible(art: Art, key: Seq<u8>)
    requires
        art.wf(),
        clear_of(art@, key),
    ensures
        art.shape().readable(key),
        art.shape().removable(key),
{
    art.tree().lemma_clear_of(key);
    art.tree().lemma_admits_access(key);
}

/// The shape of the tree determines what the map holds.
pub proof fn law_shape_determines_map(art: Art, key: Seq<u8>)
    ensures
        art@.get(key) == art.shape().lookup(key),
{
    art.tree().lemma_shape_path(key);
}

/// After an insertion the key has the new leaf, and every other key has what it had.
pub proof fn law_insert_is_read_back(
    before: Art,
    after: Art,
    key: Seq<u8>,
    value: TwigNode,
    other: Seq<u8>,
)
    requires
        before.wf(),
        after.wf(),
        after@ == before@.insert(key, value),
    ensures
        after@.get(key) == Some(value),
        other != key ==> after@.get(other) == before@.get(other),
        after.size() == before.size() + (if before@.contains_key(key) {
            0int
        } else {
            1
        }),
{
}

/// After a removal the key is gone, and every other key has what it had.
pub proof fn law_remove_is_read_back(before: Art, after: Art, key: Seq<u8>, other: Seq<u8>)
    requires
        before.wf(),
        after.wf(),
        after@ == before@.remove(key),
    ensures
        after@.get(key) is None,
        other != key ==> after@.get(other) == before@.get(other),
        after.size() == before.size() - (if before@.contains_key(key) {
            1int
        } else {
            0
        }),
{
}

/// Removing a key that was just added brings back what was there before, and a tree that had
/// no root has none again.
pub proof fn law_remove_undoes_insert(
    before: Art,
    between: Art,
    after: Art,
    key: Seq<u8>,
    value: TwigNode,
)
    requires
        before.wf(),
        between.wf(),
        after.wf(),
        !before@.contains_key(key),
        between@ == before@.insert(key, value),
        after@ == between@.remove(key),
    ensures
        between@.get(key) == Some(value),
        after@ == before@,
        after.size() == before.size(),
        after.tree() is Empty <==> before.tree() is Empty,
{
    assert(after@ =~= before@);
    law_no_keys_no_root(before);
    law_no_keys_no_root(after);
}

/// The second of two insertions of a key returns the leaf of the first and takes its place.
pub proof fn law_insert_replaces(
    before: Art,
    between: Art,
    after: Art,
    key: Seq<u8>,
    first: TwigNode,
    second: TwigNode,
)
    requires
        before.wf(),
        between.wf(),
        after.wf(),
        between@ == before@.insert(key, first),
        after@ == between@.insert(key, second),
    ensures
        between@.get(key) == Some(first),
        after@ == before@.insert(key, second),
        after.size() == between.size(),
{
    assert(after@ =~= before@.insert(key, second));
}

/// The second of two removals of a key finds nothing and changes nothing.
pub proof fn law_remove_is_idempotent(before: Art, between: Art, after: Art, key: Seq<u8>)
    requires
        before.wf(),
        between.wf(),
        after.wf(),
        between@ == before@.remove(key),
        after@ == between@.remove(key),
    ensures
        between@.get(key) is None,
        after@ == between@,
        after.size() == between.size(),
{
    assert(after@ =~= between@);
}

/// The order in which two keys are inserted does not matter.
pub proof fn law_inserts_commute(
    before: Art,
    one: Art,
    other: Art,
    a: Seq<u8>,
    va: TwigNode,
    b: Seq<u8>,
    vb: TwigNode,
)
    requires
        before.wf(),
        one.wf(),
        other.wf(),
        a != b,
        one@ == before@.insert(a, va).insert(b, vb),
        other@ == before@.insert(b, vb).insert(a, va),
    ensures
        one@ == other@,
        one.size() == other.size(),
{
    assert(one@ =~= other@);
}

/// Taking a key out makes no key clash that did not clash before.
pub proof fn law_remove_makes_room(before: Art, after: Art, key: Seq<u8>, other: Seq<u8>)
    requires
        before.wf(),
        after.wf(),
        after@ == before@.remove(key),
        clear_of(before@, other),
    ensures
        clear_of(after@, other),
{
    assert forall|k: Seq<u8>| #[trigger] after@.contains_key(k) implies !clash(k, other) by {
        assert(before@.contains_key(k));
    }
}

/// A node that has as many children as its header says, and not fewer than its size is kept for,
/// is of the smallest size that has room for them, and its header counts the bytes that lead to
/// a child.
pub proof fn law_sizes_follow_children(node: NodePtr)
    requires
        node.is_inner(),
        node.layout(),
        node.hdr().children == node.live(),
        node.least() <= node.live(),
    ensures
        ({
            let n = node.hdr().children;
            &&& n == count(branches(node))
            &&& node.capacity() == if n == 1 {
                1int
            } else if n <= 4 {
                4
            } else if n <= 16 {
                16
            } else if n <= 48 {
                48
            } else {
                256
            }
            &&& 1 <= n <= 256
        }),
{
    node.lemma_live();
    lemma_branches(node);
}

/// Every node of the tree is of the smallest size that has room for its children, its header
/// counts the bytes that lead to a child, and its compressed path fits.
pub proof fn law_every_node_fits(art: Art, path: Seq<u8>)
    requires
        art.wf(),
        art.tree().node_at(path).is_inner(),
    ensures
        ({
            let node = art.tree().node_at(path);
            let n = node.hdr().children;
            &&& n == count(branches(node))
            &&& node.capacity() == if n == 1 {
                1int
            } else if n <= 4 {
                4
            } else if n <= 16 {
                16
            } else if n <= 48 {
                48
            } else {
                256
            }
            &&& 1 <= n <= 256
            &&& node.hdr().prefix().len() <= MAX_PATH_COMPRESSION_BYTES
        }),
{
    lemma_node_at_wf(art.tree(), path);
    law_sizes_follow_children(art.tree().node_at(path));
}

/// The bytes that lead to a child.
pub open spec fn branches(node: NodePtr) -> Seq<bool> {
    Seq::new(256, |x: int| !(node.kid(x as u8) is Empty))
}

/// What is found in a well-formed tree is well formed.
pub proof fn lemma_node_at_wf(node: NodePtr, path: Seq<u8>)
    requires
        node.wf(),
    ensures
        node.node_at(path).wf(),
    decreases path.len(),
{
    if path.len() > 0 && node.leads(path) {
        let kid = node.kid(node.branch(path));
        assert(kid.wf());
        lemma_node_at_wf(kid, node.rest(path));
    }
}

/// As many bytes lead to a child as there are children.
pub proof fn lemma_branches(node: NodePtr)
    requires
        node.is_inner(),
        node.layout(),
    ensures
        count(branches(node)) == node.live(),
{
    match node {
        NodePtr::Node1(n1) => {
            let none = Seq::new(256, |x: int| false);
            lemma_count_bounds(none);
            lemma_count_update(none, n1.key as int, !(n1.slot is Empty));
            assert(branches(node) =~= none.update(n1.key as int, !(n1.slot is Empty)));
        },
        NodePtr::Node4(n4) => {
            lemma_keyed_branches(n4.keys@, n4.slots@, 4);
            lemma_keyed_all(node, n4.keys@, n4.slots@);
        },
        NodePtr::Node16(n16) => {
            lemma_keyed_branches(n16.keys@, n16.slots@, 16);
            lemma_keyed_all(node, n16.keys@, n16.slots@);
        },
        NodePtr::Node48(n48) => {
            assert(branches(node) =~= indexed(n48.key_hashes@));
        },
        NodePtr::Node256(n256) => {
            assert(branches(node) =~= filled(n256.slots@));
        },
        _ => {},
    }
}

/// The bytes whose child is in one of the first `n` slots.
spec fn keyed_branches(keys: Seq<Option<u8>>, slots: Seq<NodePtr>, n: int) -> Seq<bool> {
    Seq::new(256, |x: int| exists|i: int| i < n && #[trigger] holds(keys, slots, x as u8, i))
}

/// Each of the first `n` slots that is in use belongs to a byte of its own.
proof fn lemma_keyed_branches(keys: Seq<Option<u8>>, slots: Seq<NodePtr>, n: int)
    requires
        keyed_layout(keys, slots),
        0 <= n <= slots.len(),
    ensures
        count(keyed_branches(keys, slots, n)) == count(filled(slots).take(n)),
    decreases n,
{
    let now = keyed_branches(keys, slots, n);
    if n == 0 {
        lemma_count_bounds(now);
        assert(filled(slots).take(0) =~= Seq::empty());
    } else {
        let i = n - 1;
        let then = keyed_branches(keys, slots, i);
        lemma_keyed_branches(keys, slots, i);
        lemma_count_take(filled(slots), i);
        if slots[i] is Empty {
            assert forall|x: int| 0 <= x < 256 implies #[trigger] now[x] == then[x] by {
                if now[x] {
                    let j = choose|j: int| j < n && #[trigger] holds(keys, slots, x as u8, j);
                    assert(j < i && holds(keys, slots, x as u8, j));
                }
                if then[x] {
                    let j = choose|j: int| j < i && #[trigger] holds(keys, slots, x as u8, j);
                    assert(j < n && holds(keys, slots, x as u8, j));
                }
            }
            assert(now =~= then);
        } else {
            let key = keys[i]->0;
            assert(holds(keys, slots, key, i));
            assert(!then[key as int]) by {
                if then[key as int] {
                    let j = choose|j: int| j < i && #[trigger] holds(keys, slots, key as int as u8, j);
                    assert(keys[j] != keys[i]);
                }
            }
            assert forall|x: int| 0 <= x < 256 implies #[trigger] now[x] == then.update(
                key as int,
                true,
            )[x] by {
                if x == key {
                    assert(i < n && holds(keys, slots, x as u8, i));
                } else {
                    if now[x] {
                        let j = choose|j: int| j < n && #[trigger] holds(keys, slots, x as u8, j);
                        assert(j < i && holds(keys, slots, x as u8, j));
                    }
                    if then[x] {
                        let j = choose|j: int| j < i && #[trigger] holds(keys, slots, x as u8, j);
                        assert(j < n && holds(keys, slots, x as u8, j));
                    }
                }
            }
            assert(now =~= then.update(key as int, true));
            lemma_count_update(then, key as int, true);
        }
    }
}

/// The bytes that lead to a child are those whose child is in a slot.
proof fn lemma_keyed_all(node: NodePtr, keys: Seq<Option<u8>>, slots: Seq<NodePtr>)
    requires
        keyed_layout(keys, slots),
        forall|x: u8| #[trigger] node.kid(x) == keyed_kid(keys, slots, x),
        count(keyed_branches(keys, slots, slots.len() as int)) == count(
            filled(slots).take(slots.len() as int),
        ),
    ensures
        count(branches(node)) == live(slots),
{
    let n = slots.len() as int;
    assert(filled(slots).take(n) =~= filled(slots));
    assert forall|x: int| 0 <= x < 256 implies #[trigger] branches(node)[x] == keyed_branches(
        keys,
        slots,
        n,
    )[x] by {
        if keyed_branches(keys, slots, n)[x] {
            let j = choose|j: int| j < n && #[trigger] holds(keys, slots, x as u8, j);
            lemma_keyed_kid(keys, slots, x as u8, j);
        }
        if branches(node)[x] {
            let j = choose|j: int| #[trigger] holds(keys, slots, x as u8, j);
            assert(j < n && holds(keys, slots, x as u8, j));
        }
    }
    assert(branches(node) =~= keyed_branches(keys, slots, n));
}

} // verus!

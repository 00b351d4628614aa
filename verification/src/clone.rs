//! Deep copies.

use crate::node1::Node1;
use crate::node16::Node16;
use crate::node256::Node256;
use crate::node4::Node4;
use crate::node48::Node48;
use crate::pointer::NodePtr;
use crate::slots::{filled, holds, keyed_kid, keyed_layout, keyed_place, lemma_keyed_kid, live};
use vstd::prelude::*;

verus! {

impl NodePtr {
    /// `other` has the same structure and holds the same leaves, in the same slots.
    pub open spec fn same(self, other: NodePtr) -> bool
        decreases self,
    {
        match (self, other) {
            (NodePtr::Empty, NodePtr::Empty) => true,
            (NodePtr::Value(a), NodePtr::Value(b)) => *a == *b,
            (NodePtr::Node1(a), NodePtr::Node1(b)) => {
                &&& a.header == b.header
                &&& a.key == b.key
                &&& a.slot.same(b.slot)
            },
            (NodePtr::Node4(a), NodePtr::Node4(b)) => {
                &&& a.header == b.header
                &&& a.keys == b.keys
                &&& a.slots@.len() == b.slots@.len()
                &&& forall|i: int|
                    0 <= i < a.slots@.len() ==> (#[trigger] a.slots@[i]).same(b.slots@[i])
            },
            (NodePtr::Node16(a), NodePtr::Node16(b)) => {
                &&& a.header == b.header
                &&& a.keys == b.keys
                &&& a.slots@.len() == b.slots@.len()
                &&& forall|i: int|
                    0 <= i < a.slots@.len() ==> (#[trigger] a.slots@[i]).same(b.slots@[i])
            },
            (NodePtr::Node48(a), NodePtr::Node48(b)) => {
                &&& a.header == b.header
                &&& a.key_hashes == b.key_hashes
                &&& a.slots@.len() == b.slots@.len()
                &&& forall|i: int|
                    0 <= i < a.slots@.len() ==> (#[trigger] a.slots@[i]).same(b.slots@[i])
            },
            (NodePtr::Node256(a), NodePtr::Node256(b)) => {
                &&& a.header == b.header
                &&& a.slots@.len() == b.slots@.len()
                &&& forall|i: int|
                    0 <= i < a.slots@.len() ==> (#[trigger] a.slots@[i]).same(b.slots@[i])
            },
            _ => false,
        }
    }
}

/// Slots that are copies of each other are in use alike.
proof fn lemma_same_filled(a: Seq<NodePtr>, b: Seq<NodePtr>)
    requires
        a.len() == b.len(),
        forall|i: int| 0 <= i < a.len() ==> (#[trigger] a[i]).same(b[i]),
    ensures
        filled(a) == filled(b),
        live(a) == live(b),
        forall|i: int| 0 <= i < a.len() ==> (#[trigger] b[i] is Empty) == (a[i] is Empty),
{
    assert forall|i: int| 0 <= i < a.len() implies (#[trigger] b[i] is Empty) == (a[i] is Empty) by {
        assert(a[i].same(b[i]));
    }
    assert(filled(a) =~= filled(b));
}

/// Copied slots under the same keys keep the layout, and the child for a byte is copied.
proof fn lemma_same_keyed(keys: Seq<Option<u8>>, a: Seq<NodePtr>, b: Seq<NodePtr>)
    requires
        a.len() == b.len(),
        forall|i: int| 0 <= i < a.len() ==> (#[trigger] a[i]).same(b[i]),
        keyed_layout(keys, a),
    ensures
        keyed_layout(keys, b),
        forall|x: u8| keyed_kid(keys, a, x).same(#[trigger] keyed_kid(keys, b, x)),
{
    lemma_same_filled(a, b);
    assert forall|i: int, j: int|
        #![trigger keys[i], b[j]]
        0 <= i < j < b.len() && !(b[j] is Empty) implies keys[i] != keys[j] by {
        assert(!(a[j] is Empty));
    }
    assert forall|i: int| 0 <= i < b.len() && !(#[trigger] b[i] is Empty) implies keys[i] is Some by {
        assert(!(a[i] is Empty));
    }
    assert forall|x: u8| keyed_kid(keys, a, x).same(#[trigger] keyed_kid(keys, b, x)) by {
        if exists|i: int| holds(keys, a, x, i) {
            let i = choose|i: int| holds(keys, a, x, i);
            assert(a[i].same(b[i]));
            assert(holds(keys, b, x, i));
            lemma_keyed_kid(keys, a, x, i);
            lemma_keyed_kid(keys, b, x, i);
        } else {
            assert forall|i: int| !holds(keys, b, x, i) by {
                if holds(keys, b, x, i) {
                    assert(a[i].same(b[i]));
                    assert(holds(keys, a, x, i));
                }
            }
        }
    }
}

/// Replacing what is in a slot by the same.
proof fn lemma_same_update(slots: Seq<NodePtr>, i: int, node: NodePtr)
    requires
        0 <= i < slots.len(),
        slots[i].same(node),
    ensures
        forall|j: int| 0 <= j < slots.len() ==> (#[trigger] slots[j]).same(slots.update(i, node)[j]),
{
    assert forall|j: int| 0 <= j < slots.len() implies (#[trigger] slots[j]).same(
        slots.update(i, node)[j],
    ) by {
        slots[j].lemma_same_self();
    }
}

/// Replacing a child by the same, where each slot has a key of its own.
proof fn lemma_same_stored(
    keys: Seq<Option<u8>>,
    slots: Seq<NodePtr>,
    byte: u8,
    node: NodePtr,
    keys2: Seq<Option<u8>>,
    slots2: Seq<NodePtr>,
)
    requires
        keyed_layout(keys, slots),
        !(keyed_kid(keys, slots, byte) is Empty),
        keyed_kid(keys, slots, byte).same(node),
        exists|i: int|
            {
                &&& #[trigger] keyed_place(keys, slots, byte, i)
                &&& keys2 == keys.update(i, Some(byte))
                &&& slots2 == slots.update(i, node)
            },
    ensures
        keys2 == keys,
        slots2.len() == slots.len(),
        forall|j: int| 0 <= j < slots.len() ==> (#[trigger] slots[j]).same(slots2[j]),
{
    let i = choose|i: int|
        {
            &&& #[trigger] keyed_place(keys, slots, byte, i)
            &&& keys2 == keys.update(i, Some(byte))
            &&& slots2 == slots.update(i, node)
        };
    lemma_keyed_kid(keys, slots, byte, i);
    lemma_same_update(slots, i, node);
    assert(keys2 =~= keys);
}

impl NodePtr {
    /// What a copied node has in common with the node.
    proof fn lemma_same_node(self, other: NodePtr)
        requires
            self.same(other),
            self.layout(),
        ensures
            other.layout(),
            other.is_inner() == self.is_inner(),
            self.is_inner() ==> other.hdr() == self.hdr(),
            other.live() == self.live(),
            other.least() == self.least(),
            forall|x: u8| self.kid(x).same(#[trigger] other.kid(x)),
    {
        match (self, other) {
            (NodePtr::Node1(a), NodePtr::Node1(b)) => {
                assert(a.slot.same(b.slot));
                assert((a.slot is Empty) == (b.slot is Empty));
            },
            (NodePtr::Node4(a), NodePtr::Node4(b)) => {
                lemma_same_filled(a.slots@, b.slots@);
                lemma_same_keyed(a.keys@, a.slots@, b.slots@);
            },
            (NodePtr::Node16(a), NodePtr::Node16(b)) => {
                lemma_same_filled(a.slots@, b.slots@);
                lemma_same_keyed(a.keys@, a.slots@, b.slots@);
            },
            (NodePtr::Node48(a), NodePtr::Node48(b)) => {
                lemma_same_filled(a.slots@, b.slots@);
                assert forall|x: u8| self.kid(x).same(#[trigger] other.kid(x)) by {
                    match a.key_hashes@[x as int] {
                        Some(i) => {
                            assert(a.slots@[i as int].same(b.slots@[i as int]));
                        },
                        None => {},
                    }
                }
                assert forall|x: int|
                    0 <= x < 256 && (#[trigger] b.key_hashes@[x]) is Some implies b.key_hashes@[x]->0
                    < b.slots@.len() && !(b.slots@[b.key_hashes@[x]->0 as int] is Empty) by {
                    assert(a.key_hashes@[x] is Some);
                }
            },
            (NodePtr::Node256(a), NodePtr::Node256(b)) => {
                lemma_same_filled(a.slots@, b.slots@);
                assert forall|x: u8| self.kid(x).same(#[trigger] other.kid(x)) by {
                    assert(a.slots@[x as int].same(b.slots@[x as int]));
                }
            },
            _ => {},
        }
    }

    /// A tree is the same as itself.
    pub proof fn lemma_same_self(self)
        ensures
            self.same(self),
        decreases self,
    {
        match self {
            NodePtr::Node1(n1) => {
                n1.slot.lemma_same_self();
            },
            NodePtr::Node4(n4) => {
                assert forall|i: int| 0 <= i < n4.slots@.len() implies (
                #[trigger] n4.slots@[i]).same(n4.slots@[i]) by {
                    assert(decreases_to!(n4.slots@ => n4.slots@[i]));
                    n4.slots@[i].lemma_same_self();
                }
            },
            NodePtr::Node16(n16) => {
                assert forall|i: int| 0 <= i < n16.slots@.len() implies (
                #[trigger] n16.slots@[i]).same(n16.slots@[i]) by {
                    assert(decreases_to!(n16.slots@ => n16.slots@[i]));
                    n16.slots@[i].lemma_same_self();
                }
            },
            NodePtr::Node48(n48) => {
                assert forall|i: int| 0 <= i < n48.slots@.len() implies (
                #[trigger] n48.slots@[i]).same(n48.slots@[i]) by {
                    assert(decreases_to!(n48.slots@ => n48.slots@[i]));
                    n48.slots@[i].lemma_same_self();
                }
            },
            NodePtr::Node256(n256) => {
                assert forall|i: int| 0 <= i < n256.slots@.len() implies (
                #[trigger] n256.slots@[i]).same(n256.slots@[i]) by {
                    assert(decreases_to!(n256.slots@ => n256.slots@[i]));
                    n256.slots@[i].lemma_same_self();
                }
            },
            _ => {},
        }
    }

    /// A node in which a child has been replaced by the same is the same.
    pub proof fn lemma_stores_same(self, after: NodePtr, byte: u8)
        requires
            self.layout(),
            self.is_inner(),
            !(self.kid(byte) is Empty),
            self.kid(byte).same(after.kid(byte)),
            self.stores(after, byte, false, after.kid(byte)),
            after.hdr() == self.hdr(),
        ensures
            self.same(after),
    {
        let node = after.kid(byte);
        match (self, after) {
            (NodePtr::Node4(a), NodePtr::Node4(b)) => {
                lemma_same_stored(a.keys@, a.slots@, byte, node, b.keys@, b.slots@);
                assert(a.keys =~= b.keys);
            },
            (NodePtr::Node16(a), NodePtr::Node16(b)) => {
                lemma_same_stored(a.keys@, a.slots@, byte, node, b.keys@, b.slots@);
                assert(a.keys =~= b.keys);
            },
            (NodePtr::Node48(a), NodePtr::Node48(b)) => {
                lemma_same_update(a.slots@, a.key_hashes@[byte as int]->0 as int, node);
                assert(a.key_hashes =~= b.key_hashes);
            },
            (NodePtr::Node256(a), NodePtr::Node256(_)) => {
                lemma_same_update(a.slots@, byte as int, node);
            },
            _ => {},
        }
    }

    /// A copy of a well-formed tree is well formed.
    pub proof fn lemma_same_wf(self, other: NodePtr)
        requires
            self.same(other),
            self.wf(),
        ensures
            other.wf(),
        decreases self,
    {
        if self.is_inner() {
            self.lemma_same_node(other);
            assert forall|x: u8| !(#[trigger] other.kid(x) is Empty) implies other.kid(x).wf() by {
                assert(self.kid(x).same(other.kid(x)));
                assert(!(self.kid(x) is Empty));
                self.lemma_kid_is_smaller(x);
                self.kid(x).lemma_same_wf(other.kid(x));
            }
        }
    }

    /// A copy of a well-formed tree is of the same shape.
    pub proof fn lemma_same_shapes(self, other: NodePtr)
        requires
            self.same(other),
            self.wf(),
        ensures
            other.shape() == self.shape(),
        decreases self,
    {
        if self.is_inner() {
            self.lemma_same_node(other);
            assert forall|x: u8| (#[trigger] other.kid(x)).shape() == self.kid(x).shape() by {
                assert(self.kid(x).same(other.kid(x)));
                if !(self.kid(x) is Empty) {
                    self.lemma_kid_is_smaller(x);
                    self.kid(x).lemma_same_shapes(other.kid(x));
                }
            }
            other.lemma_same_shape(self);
        }
    }

    /// A copy of a well-formed tree holds the same keys with the same leaves.
    pub proof fn lemma_same_tree(self, other: NodePtr, key: Seq<u8>)
        requires
            self.same(other),
            self.wf(),
        ensures
            other.lookup(key) == self.lookup(key),
        decreases key.len(),
    {
        if self.is_inner() {
            self.lemma_same_node(other);
            if self.leads(key) {
                let x = self.branch(key);
                assert(self.kid(x).same(other.kid(x)));
                if self.kid(x) is Empty {
                    assert(other.kid(x) is Empty);
                } else {
                    self.kid(x).lemma_same_tree(other.kid(x), self.rest(key));
                }
            }
        }
    }
}

/// Copies every slot.
fn clone_slots(slots: &Vec<NodePtr>) -> (copy: Vec<NodePtr>)
    ensures
        copy@.len() == slots@.len(),
        forall|i: int| 0 <= i < slots@.len() ==> (#[trigger] slots@[i]).same(copy@[i]),
    decreases slots,
{
    let n = slots.len();
    let mut copy: Vec<NodePtr> = Vec::with_capacity(n);
    for k in 0..n
        invariant
            n == slots@.len(),
            copy@.len() == k,
            forall|i: int| 0 <= i < k ==> (#[trigger] slots@[i]).same(copy@[i]),
    {
        assert(decreases_to!(slots => slots[k as int]));
        copy.push(slots[k].clone());
    }
    copy
}

impl Clone for Node1 {
    fn clone(&self) -> (copy: Node1)
        ensures
            copy.header == self.header,
            copy.key == self.key,
            self.slot.same(copy.slot),
        decreases self,
    {
        Node1 { header: self.header, key: self.key, slot: self.slot.clone() }
    }
}

impl Clone for Node4 {
    fn clone(&self) -> (copy: Node4)
        ensures
            copy.header == self.header,
            copy.keys == self.keys,
            copy.slots@.len() == self.slots@.len(),
            forall|i: int|
                0 <= i < self.slots@.len() ==> (#[trigger] self.slots@[i]).same(copy.slots@[i]),
        decreases self,
    {
        Node4 { header: self.header, keys: self.keys, slots: clone_slots(&self.slots) }
    }
}

impl Clone for Node16 {
    fn clone(&self) -> (copy: Node16)
        ensures
            copy.header == self.header,
            copy.keys == self.keys,
            copy.slots@.len() == self.slots@.len(),
            forall|i: int|
                0 <= i < self.slots@.len() ==> (#[trigger] self.slots@[i]).same(copy.slots@[i]),
        decreases self,
    {
        Node16 { header: self.header, keys: self.keys, slots: clone_slots(&self.slots) }
    }
}

impl Clone for Node48 {
    fn clone(&self) -> (copy: Node48)
        ensures
            copy.header == self.header,
            copy.key_hashes == self.key_hashes,
            copy.slots@.len() == self.slots@.len(),
            forall|i: int|
                0 <= i < self.slots@.len() ==> (#[trigger] self.slots@[i]).same(copy.slots@[i]),
        decreases self,
    {
        Node48 {
            header: self.header,
            key_hashes: self.key_hashes,
            slots: clone_slots(&self.slots),
        }
    }
}

impl Clone for Node256 {
    fn clone(&self) -> (copy: Node256)
        ensures
            copy.header == self.header,
            copy.slots@.len() == self.slots@.len(),
            forall|i: int|
                0 <= i < self.slots@.len() ==> (#[trigger] self.slots@[i]).same(copy.slots@[i]),
        decreases self,
    {
        Node256 { header: self.header, slots: clone_slots(&self.slots) }
    }
}

impl Clone for NodePtr {
    fn clone(&self) -> (copy: NodePtr)
        ensures
            self.same(copy),
        decreases self,
    {
        match self {
            NodePtr::Node1(n1) => NodePtr::node1(Box::new((**n1).clone())),
            NodePtr::Node4(n4) => NodePtr::node4(Box::new((**n4).clone())),
            NodePtr::Node16(n16) => NodePtr::node16(Box::new((**n16).clone())),
            NodePtr::Node48(n48) => NodePtr::node48(Box::new((**n48).clone())),
            NodePtr::Node256(n256) => NodePtr::node256(Box::new((**n256).clone())),
            NodePtr::Empty => NodePtr::default(),
            NodePtr::Value(twig) => NodePtr::value((**twig).clone()),
        }
    }
}

} // verus!

//! The node with room for 4 children.

use crate::counting::{count, lemma_count_take, weight};
use crate::header::{blank_header, NodeHeader};
use crate::node1::Node1;
use crate::node16::Node16;
use crate::pointer::NodePtr;
use crate::slots::{
    filled, first_free, first_key, holds, keyed_kid, keyed_layout, keyed_place, lemma_keyed_kid,
    lemma_keyed_listing, lemma_keyed_put, lemma_live_bounds, lemma_live_update, lists, live,
    no_slots, sorted_children,
};
use vstd::prelude::*;

verus! {

/// A node with four slots, each with the byte that leads to it.
pub struct Node4 {
    pub header: NodeHeader,
    pub keys: [Option<u8>; 4],
    pub slots: Vec<NodePtr>,
}

impl Node4 {
    /// The child for `byte`.
    pub open spec fn kid(self, byte: u8) -> NodePtr {
        keyed_kid(self.keys@, self.slots@, byte)
    }

    /// The compressed path fits and the slots are in order.
    pub open spec fn layout(self) -> bool {
        &&& self.header.fits()
        &&& keyed_layout(self.keys@, self.slots@)
    }

    /// `n16` has the children of this node in the same slots.
    pub open spec fn grows_into(self, n16: Node16) -> bool {
        &&& n16.slots@.len() == 16
        &&& forall|i: int| 0 <= i < 4 ==> #[trigger] n16.keys@[i] == self.keys@[i]
        &&& forall|i: int| 0 <= i < 4 ==> #[trigger] n16.slots@[i] == self.slots@[i]
        &&& forall|i: int| 4 <= i < 16 ==> #[trigger] n16.keys@[i] is None
        &&& forall|i: int| 4 <= i < 16 ==> #[trigger] n16.slots@[i] is Empty
    }

    /// `n1` has the only child of this node.
    pub open spec fn shrinks_into(self, n1: Node1) -> bool {
        forall|i: int|
            0 <= i < 4 && !(#[trigger] self.slots@[i] is Empty) ==> self.keys@[i] == Some(n1.key)
                && self.slots@[i] == n1.slot
    }

    /// `after` has `node` for `byte`, in the slot of its child or else in the first free one.
    pub open spec fn stores(self, after: Node4, byte: u8, node: NodePtr) -> bool {
        exists|i: int|
            {
                &&& #[trigger] keyed_place(self.keys@, self.slots@, byte, i)
                &&& after.keys@ == self.keys@.update(i, Some(byte))
                &&& after.slots@ == self.slots@.update(i, node)
            }
    }

    /// How many children there are.
    pub open spec fn live(self) -> nat {
        live(self.slots@)
    }
}

impl Node4 {
    /// Lists the children by byte, in ascending order.
    pub fn iter(&self) -> (children: Vec<(Option<u8>, &NodePtr)>)
        requires
            self.layout(),
        ensures
            lists(children@, |x: u8| self.kid(x)),
    {
        let children = sorted_children(&self.keys, &self.slots);
        assert((|x: u8| keyed_kid(self.keys@, self.slots@, x)) =~= (|x: u8| self.kid(x)));
        children
    }

    /// The first slot that is empty.
    pub fn free_slot(&self) -> (found: Option<usize>)
        ensures
            match found {
                Some(i) => i < self.slots@.len() && self.slots@[i as int] is Empty && forall|j: int|
                    0 <= j < i ==> !(#[trigger] self.slots@[j] is Empty),
                None => forall|j: int|
                    0 <= j < self.slots@.len() ==> !(#[trigger] self.slots@[j] is Empty),
            },
    {
        first_free(&self.slots)
    }

    /// The child for `byte`.
    pub fn child(&self, byte: u8) -> (found: Option<&NodePtr>)
        requires
            self.layout(),
        ensures
            match found {
                Some(node) => *node == self.kid(byte) && !(node is Empty),
                None => self.kid(byte) is Empty,
            },
    {
        for idx in 0..4usize
            invariant
                self.layout(),
                forall|i: int| 0 <= i < idx ==> !holds(self.keys@, self.slots@, byte, i),
        {
            match self.keys[idx] {
                Some(key) => {
                    if key == byte && !self.slots[idx].is_none() {
                        proof {
                            lemma_keyed_kid(self.keys@, self.slots@, byte, idx as int);
                        }
                        return Some(&self.slots[idx]);
                    }
                },
                None => {},
            }
        }
        None
    }

    /// The number of children and the slot for `byte`, which is the slot of its child or else
    /// the first free one.
    pub fn child_mut(&mut self, byte: u8) -> (place: (&mut u16, &mut NodePtr))
        requires
            old(self).layout(),
            !(old(self).kid(byte) is Empty) || old(self).live() < 4,
        ensures
            *place.0 == old(self).header.children,
            *place.1 == old(self).kid(byte),
            final(self).header == old(self).header.with_children(*final(place.0)),
            old(self).stores(*final(self), byte, *final(place.1)),
            final(self).layout(),
            forall|x: u8|
                #[trigger] final(self).kid(x) == (if x == byte {
                    *final(place.1)
                } else {
                    old(self).kid(x)
                }),
            final(self).live() + weight(!(old(self).kid(byte) is Empty)) == old(self).live()
                + weight(!(*final(place.1) is Empty)),
    {
        let idx_opt: Option<usize> = match first_key(&self.keys, byte) {
            Some(idx) => if !self.slots[idx].is_none() {
                Some(idx)
            } else {
                None
            },
            None => None,
        };
        let ghost keys = self.keys@;
        let ghost slots = self.slots@;
        let idx: usize = if let Some(idx) = idx_opt {
            assert(holds(keys, slots, byte, idx as int));
            idx
        } else {
            proof {
                lemma_live_bounds(slots);
                if exists|i: int| holds(keys, slots, byte, i) {
                    let i = choose|i: int| holds(keys, slots, byte, i);
                }
            }
            let free_slot = self.free_slot().unwrap();
            self.keys[free_slot] = Some(byte);
            free_slot
        };
        assert(self.keys@ =~= keys.update(idx as int, Some(byte)));
        let slot = &mut self.slots[idx];
        proof {
            lemma_keyed_put(keys, slots, byte, idx as int, *final(slot));
            lemma_live_update(slots, idx as int, *final(slot));
            assert(keyed_place(keys, slots, byte, idx as int));
        }
        (&mut self.header.children, slot)
    }

    /// Moves the children into a node with room for 16.
    pub fn upgrade(&mut self) -> (n16: Box<Node16>)
        requires
            old(self).layout(),
        ensures
            n16.header == blank_header(),
            n16.layout(),
            n16.live() == old(self).live(),
            forall|x: u8| #[trigger] n16.kid(x) == old(self).kid(x),
            old(self).grows_into(*n16),
            final(self).header == old(self).header,
            final(self).keys@ == old(self).keys@,
            final(self).slots@.len() == old(self).slots@.len(),
            forall|i: int| 0 <= i < final(self).slots@.len() ==> #[trigger] final(self).slots@[i] is Empty,
            forall|x: u8| #[trigger] final(self).kid(x) is Empty,
    {
        let mut n16: Box<Node16> = Box::new(Node16::default());
        let ghost keys = self.keys@;
        let ghost slots = self.slots@;
        let ghost header = self.header;
        for slot in 0..4usize
            invariant
                self.keys@ == keys,
                self.header == header,
                keyed_layout(keys, slots),
                slots.len() == 4,
                self.slots@.len() == 4,
                n16.header == blank_header(),
                n16.slots@.len() == 16,
                forall|i: int| 0 <= i < slot ==> #[trigger] self.slots@[i] is Empty,
                forall|i: int| slot <= i < 4 ==> #[trigger] self.slots@[i] == slots[i],
                forall|i: int| 0 <= i < slot ==> #[trigger] n16.slots@[i] == slots[i],
                forall|i: int| 0 <= i < slot ==> #[trigger] n16.keys@[i] == keys[i],
                forall|i: int| slot <= i < 16 ==> #[trigger] n16.keys@[i] is None,
                forall|i: int| slot <= i < 16 ==> #[trigger] n16.slots@[i] is Empty,
                live(n16.slots@) == count(filled(slots).take(slot as int)),
        {
            let ghost before = n16.slots@;
            std::mem::swap(&mut self.slots[slot], &mut n16.slots[slot]);
            n16.keys[slot] = self.keys[slot];
            proof {
                lemma_live_update(before, slot as int, slots[slot as int]);
                lemma_count_take(filled(slots), slot as int);
                assert(n16.slots@ =~= before.update(slot as int, slots[slot as int]));
            }
        }
        proof {
            assert(filled(slots).take(4) =~= filled(slots));
            assert forall|x: u8| !(#[trigger] keyed_kid(keys, slots, x) is Empty) implies exists|
                j: int,
            | holds(n16.keys@, n16.slots@, x, j) by {
                let j = choose|j: int| holds(keys, slots, x, j);
                assert(holds(n16.keys@, n16.slots@, x, j));
            }
            assert forall|j: int| 0 <= j < 16 && !(#[trigger] n16.slots@[j] is Empty) implies n16.slots@[j]
                == keyed_kid(keys, slots, n16.keys@[j]->0) by {
                lemma_keyed_kid(keys, slots, keys[j]->0, j);
            }
            lemma_keyed_listing(n16.keys@, n16.slots@, |x: u8| keyed_kid(keys, slots, x));
        }
        n16
    }

    /// Moves the only child into a node with room for one.
    pub fn downgrade(&mut self) -> (n1: Box<Node1>)
        requires
            old(self).layout(),
            old(self).live() == 1,
        ensures
            n1.header == blank_header(),
            n1.layout(),
            n1.live() == 1,
            forall|x: u8| #[trigger] n1.kid(x) == old(self).kid(x),
            old(self).shrinks_into(*n1),
            final(self).header == old(self).header,
            final(self).keys@ == old(self).keys@,
            final(self).slots@.len() == old(self).slots@.len(),
            forall|i: int| 0 <= i < final(self).slots@.len() ==> #[trigger] final(self).slots@[i] is Empty,
            forall|x: u8| #[trigger] final(self).kid(x) is Empty,
    {
        let mut n1: Box<Node1> = Box::new(Node1::default());
        let mut dst_idx: usize = 0;
        let ghost keys = self.keys@;
        let ghost slots = self.slots@;
        let ghost header = self.header;
        let ghost mut from: int = 0;
        for slot in 0..4usize
            invariant
                self.keys@ == keys,
                self.header == header,
                keyed_layout(keys, slots),
                slots.len() == 4,
                self.slots@.len() == 4,
                live(slots) == 1,
                n1.header == blank_header(),
                forall|i: int| 0 <= i < slot ==> #[trigger] self.slots@[i] is Empty,
                forall|i: int| slot <= i < 4 ==> #[trigger] self.slots@[i] == slots[i],
                dst_idx == count(filled(slots).take(slot as int)),
                dst_idx <= 1,
                dst_idx == 0 ==> n1.slot is Empty && forall|i: int|
                    0 <= i < slot ==> #[trigger] slots[i] is Empty,
                dst_idx == 1 ==> {
                    &&& 0 <= from < slot
                    &&& !(slots[from] is Empty)
                    &&& n1.slot == slots[from]
                    &&& Some(n1.key) == keys[from]
                    &&& forall|i: int| 0 <= i < slot && i != from ==> #[trigger] slots[i] is Empty
                },
        {
            proof {
                lemma_count_take(filled(slots), slot as int);
            }
            if !self.slots[slot].is_none() {
                std::mem::swap(&mut self.slots[slot], &mut n1.slot);
                n1.key = self.keys[slot].unwrap();
                dst_idx = dst_idx + 1;
                proof {
                    from = slot as int;
                }
            }
        }
        proof {
            assert(filled(slots).take(4) =~= filled(slots));
            assert forall|x: u8| #[trigger] n1.kid(x) == keyed_kid(keys, slots, x) by {
                if x == n1.key {
                    lemma_keyed_kid(keys, slots, x, from);
                } else {
                    assert forall|j: int| !holds(keys, slots, x, j) by {}
                }
            }
        }
        n1
    }
}

impl Default for Node4 {
    fn default() -> (n4: Node4)
        ensures
            n4.header == blank_header(),
            n4.slots@.len() == 4,
            forall|i: int| 0 <= i < 4 ==> #[trigger] n4.keys@[i] is None,
            forall|i: int| 0 <= i < 4 ==> #[trigger] n4.slots@[i] is Empty,
            n4.live() == 0,
            n4.layout(),
            forall|x: u8| #[trigger] n4.kid(x) is Empty,
    {
        Node4 { header: NodeHeader::default(), keys: [None;4], slots: no_slots(4) }
    }
}

} // verus!

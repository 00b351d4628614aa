//! The node with room for 16 children.

use crate::counting::{count, lemma_count_take, lemma_count_update, rank, weight};
use crate::header::{blank_header, NodeHeader};
use crate::node4::Node4;
use crate::node48::Node48;
use crate::pointer::NodePtr;
use crate::slots::{
    filled, first_free, first_key, holds, indexed, keyed_kid, keyed_layout, keyed_place,
    lemma_keyed_kid, lemma_keyed_listing, lemma_keyed_put, lemma_live_bounds, lemma_live_update,
    lists, live, no_slots, sorted_children,
};
use vstd::prelude::*;

verus! {

/// A node with 16 slots, each with the byte that leads to it.
pub struct Node16 {
    pub header: NodeHeader,
    pub keys: [Option<u8>; 16],
    pub slots: Vec<NodePtr>,
}

impl Node16 {
    /// The child for `byte`.
    pub open spec fn kid(self, byte: u8) -> NodePtr {
        keyed_kid(self.keys@, self.slots@, byte)
    }

    /// The compressed path fits and the slots are in order.
    pub open spec fn layout(self) -> bool {
        &&& self.header.fits()
        &&& keyed_layout(self.keys@, self.slots@)
    }

    /// `n48` has the children of this node in the same slots, and its index leads to them.
    pub open spec fn grows_into(self, n48: Node48) -> bool {
        &&& n48.slots@.len() == 48
        &&& forall|i: int| 0 <= i < 16 ==> #[trigger] n48.slots@[i] == self.slots@[i]
        &&& forall|i: int| 16 <= i < 48 ==> #[trigger] n48.slots@[i] is Empty
        &&& forall|x: u8|
            match #[trigger] n48.key_hashes@[x as int] {
                Some(i) => holds(self.keys@, self.slots@, x, i as int),
                None => self.kid(x) is Empty,
            }
    }

    /// `n4` has the children of this node in the same order.
    pub open spec fn shrinks_into(self, n4: Node4) -> bool {
        forall|i: int|
            0 <= i < 16 && !(#[trigger] self.slots@[i] is Empty) ==> {
                let j = rank(filled(self.slots@), i);
                &&& 0 <= j < 4
                &&& n4.keys@[j] == self.keys@[i]
                &&& n4.slots@[j] == self.slots@[i]
            }
    }

    /// `after` has `node` for `byte`, in the slot of its child or else in the first free one.
    pub open spec fn stores(self, after: Node16, byte: u8, node: NodePtr) -> bool {
        exists|i: int|
            {
                &&& #[trigger] keyed_place(self.keys@, self.slots@, byte, i)
                &&& after.keys@ == self.keys@.update(i, Some(byte))
                &&& after.slots@ == self.slots@.update(i, node)
            }
    }

    /// How many children there are.
    pub open spec fn live(self) -> nat {
        live(self.slots@)
    }
}

impl Node16 {
    /// Lists the children by byte, in ascending order.
    pub fn iter(&self) -> (children: Vec<(Option<u8>, &NodePtr)>)
        requires
            self.layout(),
        ensures
            lists(children@, |x: u8| self.kid(x)),
    {
        let children = sorted_children(&self.keys, &self.slots);
        assert((|x: u8| keyed_kid(self.keys@, self.slots@, x)) =~= (|x: u8| self.kid(x)));
        children
    }

    /// The first slot that is empty.
    pub fn free_slot(&self) -> (found: Option<usize>)
        ensures
            match found {
                Some(i) => i < self.slots@.len() && self.slots@[i as int] is Empty && forall|j: int|
                    0 <= j < i ==> !(#[trigger] self.slots@[j] is Empty),
                None => forall|j: int|
                    0 <= j < self.slots@.len() ==> !(#[trigger] self.slots@[j] is Empty),
            },
    {
        first_free(&self.slots)
    }

    /// The child for `byte`.
    pub fn child(&self, byte: u8) -> (found: Option<&NodePtr>)
        requires
            self.layout(),
        ensures
            match found {
                Some(node) => *node == self.kid(byte) && !(node is Empty),
                None => self.kid(byte) is Empty,
            },
    {
        for idx in 0..16usize
            invariant
                self.layout(),
                forall|i: int| 0 <= i < idx ==> !holds(self.keys@, self.slots@, byte, i),
        {
            if self.keys[idx] == Some(byte) && !self.slots[idx].is_none() {
                proof {
                    lemma_keyed_kid(self.keys@, self.slots@, byte, idx as int);
                }
                return Some(&self.slots[idx]);
            }
        }
        None
    }

    /// The number of children and the slot for `byte`, which is the slot of its child or else
    /// the first free one.
    pub fn child_mut(&mut self, byte: u8) -> (place: (&mut u16, &mut NodePtr))
        requires
            old(self).layout(),
            !(old(self).kid(byte) is Empty) || old(self).live() < 16,
        ensures
            *place.0 == old(self).header.children,
            *place.1 == old(self).kid(byte),
            final(self).header == old(self).header.with_children(*final(place.0)),
            old(self).stores(*final(self), byte, *final(place.1)),
            final(self).layout(),
            forall|x: u8|
                #[trigger] final(self).kid(x) == (if x == byte {
                    *final(place.1)
                } else {
                    old(self).kid(x)
                }),
            final(self).live() + weight(!(old(self).kid(byte) is Empty)) == old(self).live()
                + weight(!(*final(place.1) is Empty)),
    {
        let idx_opt: Option<usize> = match first_key(&self.keys, byte) {
            Some(idx) => if !self.slots[idx].is_none() {
                Some(idx)
            } else {
                None
            },
            None => None,
        };
        let ghost keys = self.keys@;
        let ghost slots = self.slots@;
        let idx: usize = if let Some(idx) = idx_opt {
            assert(holds(keys, slots, byte, idx as int));
            idx
        } else {
            proof {
                lemma_live_bounds(slots);
                if exists|i: int| holds(keys, slots, byte, i) {
                    let i = choose|i: int| holds(keys, slots, byte, i);
                }
            }
            let free_slot = self.free_slot().unwrap();
            self.keys[free_slot] = Some(byte);
            free_slot
        };
        assert(self.keys@ =~= keys.update(idx as int, Some(byte)));
        let slot = &mut self.slots[idx];
        proof {
            lemma_keyed_put(keys, slots, byte, idx as int, *final(slot));
            lemma_live_update(slots, idx as int, *final(slot));
            assert(keyed_place(keys, slots, byte, idx as int));
        }
        (&mut self.header.children, slot)
    }

    /// Moves the children into a node with room for 48.
    pub fn upgrade(&mut self) -> (n48: Box<Node48>)
        requires
            old(self).layout(),
        ensures
            n48.header == blank_header(),
            n48.layout(),
            n48.live() == old(self).live(),
            forall|x: u8| #[trigger] n48.kid(x) == old(self).kid(x),
            old(self).grows_into(*n48),
            final(self).header == old(self).header,
            final(self).keys@ == old(self).keys@,
            final(self).slots@.len() == old(self).slots@.len(),
            forall|i: int| 0 <= i < final(self).slots@.len() ==> #[trigger] final(self).slots@[i] is Empty,
            forall|x: u8| #[trigger] final(self).kid(x) is Empty,
    {
        let mut n48: Box<Node48> = Box::new(Node48::default());
        let ghost keys = self.keys@;
        let ghost slots = self.slots@;
        let ghost header = self.header;
        for slot in 0..16usize
            invariant
                self.keys@ == keys,
                self.header == header,
                keyed_layout(keys, slots),
                slots.len() == 16,
                self.slots@.len() == 16,
                n48.header == blank_header(),
                n48.slots@.len() == 48,
                forall|i: int| 0 <= i < slot ==> #[trigger] self.slots@[i] is Empty,
                forall|i: int| slot <= i < 16 ==> #[trigger] self.slots@[i] == slots[i],
                forall|i: int| 0 <= i < slot ==> #[trigger] n48.slots@[i] == slots[i],
                forall|i: int| slot <= i < 48 ==> #[trigger] n48.slots@[i] is Empty,
                forall|b: u8|
                    (#[trigger] n48.key_hashes@[b as int]) is Some
                        ==> n48.key_hashes@[b as int]->0 < slot && holds(
                        keys,
                        slots,
                        b,
                        n48.key_hashes@[b as int]->0 as int,
                    ),
                forall|i: int|
                    0 <= i < slot && !(#[trigger] slots[i] is Empty)
                        ==> n48.key_hashes@[keys[i]->0 as int] == Some(i as u8),
                live(n48.slots@) == count(filled(slots).take(slot as int)),
                count(indexed(n48.key_hashes@)) == live(n48.slots@),
        {
            proof {
                lemma_count_take(filled(slots), slot as int);
            }
            if !self.slots[slot].is_none() {
                let ghost before = n48.slots@;
                let ghost index = n48.key_hashes@;
                let byte: u8 = self.keys[slot].unwrap();
                proof {
                    if index[byte as int] is Some {
                        let i = index[byte as int]->0 as int;
                        assert(holds(keys, slots, byte, i));
                        assert(keys[i] != keys[slot as int]);
                    }
                }
                std::mem::swap(&mut self.slots[slot], &mut n48.slots[slot]);
                n48.key_hashes[byte as usize] = Some(slot as u8);
                proof {
                    lemma_live_update(before, slot as int, slots[slot as int]);
                    assert(n48.slots@ =~= before.update(slot as int, slots[slot as int]));
                    lemma_count_update(indexed(index), byte as int, true);
                    assert(indexed(n48.key_hashes@) =~= indexed(index).update(byte as int, true));
                    assert forall|i: int|
                        0 <= i < slot && !(#[trigger] slots[i] is Empty) implies n48.key_hashes@[keys[i]->0 as int]
                        == Some(i as u8) by {
                        assert(keys[i] != keys[slot as int]);
                    }
                }
            }
        }
        proof {
            assert(filled(slots).take(16) =~= filled(slots));
            let index = n48.key_hashes@;
            assert forall|b: int| 0 <= b < 256 && (#[trigger] index[b]) is Some implies index[b]->0
                < 48 && !(n48.slots@[index[b]->0 as int] is Empty) by {
                assert(index[b as u8 as int] is Some);
            }
            assert forall|a: int, b: int|
                0 <= a < b < 256 && (#[trigger] index[a]) is Some implies index[a]
                != #[trigger] index[b] by {
                assert(index[a as u8 as int] is Some);
                if index[b] is Some {
                    assert(index[b as u8 as int] is Some);
                }
            }
            assert forall|x: u8| #[trigger] n48.kid(x) == keyed_kid(keys, slots, x) by {
                if index[x as int] is Some {
                    lemma_keyed_kid(keys, slots, x, index[x as int]->0 as int);
                } else if exists|i: int| holds(keys, slots, x, i) {
                    let i = choose|i: int| holds(keys, slots, x, i);
                    assert(!(slots[i] is Empty));
                }
            }
        }
        n48
    }

    /// Moves the four children into a node with room for four.
    pub fn downgrade(&mut self) -> (n4: Box<Node4>)
        requires
            old(self).layout(),
            old(self).live() == 4,
        ensures
            n4.header == blank_header(),
            n4.layout(),
            n4.live() == 4,
            forall|x: u8| #[trigger] n4.kid(x) == old(self).kid(x),
            old(self).shrinks_into(*n4),
            final(self).header == old(self).header,
            final(self).keys@ == old(self).keys@,
            final(self).slots@.len() == old(self).slots@.len(),
            forall|i: int| 0 <= i < final(self).slots@.len() ==> #[trigger] final(self).slots@[i] is Empty,
            forall|x: u8| #[trigger] final(self).kid(x) is Empty,
    {
        let mut n4: Box<Node4> = Box::new(Node4::default());
        let mut dst_idx: usize = 0;
        let ghost keys = self.keys@;
        let ghost slots = self.slots@;
        let ghost header = self.header;
        let ghost mut from: Seq<int> = Seq::empty();
        for slot in 0..16usize
            invariant
                self.keys@ == keys,
                self.header == header,
                keyed_layout(keys, slots),
                slots.len() == 16,
                self.slots@.len() == 16,
                live(slots) == 4,
                n4.header == blank_header(),
                n4.slots@.len() == 4,
                forall|i: int| 0 <= i < slot ==> #[trigger] self.slots@[i] is Empty,
                forall|i: int| slot <= i < 16 ==> #[trigger] self.slots@[i] == slots[i],
                dst_idx == count(filled(slots).take(slot as int)),
                dst_idx <= 4,
                live(n4.slots@) == dst_idx,
                from.len() == dst_idx,
                forall|j: int|
                    0 <= j < dst_idx ==> 0 <= #[trigger] from[j] < slot && !(slots[from[j]] is Empty)
                        && n4.slots@[j] == slots[from[j]] && n4.keys@[j] == keys[from[j]],
                forall|j: int, k: int| 0 <= j < k < dst_idx ==> from[j] < from[k],
                forall|j: int| dst_idx <= j < 4 ==> #[trigger] n4.slots@[j] is Empty,
                forall|i: int|
                    0 <= i < slot && !(#[trigger] slots[i] is Empty) ==> from.contains(i),
                forall|i: int|
                    0 <= i < slot && !(#[trigger] slots[i] is Empty) ==> {
                        let j = rank(filled(slots), i);
                        &&& 0 <= j < dst_idx
                        &&& n4.keys@[j] == keys[i]
                        &&& n4.slots@[j] == slots[i]
                    },
        {
            proof {
                lemma_count_take(filled(slots), slot as int);
            }
            if !self.slots[slot].is_none() {
                let ghost before = n4.slots@;
                let ghost from_before = from;
                std::mem::swap(&mut self.slots[slot], &mut n4.slots[dst_idx]);
                n4.keys[dst_idx] = self.keys[slot];
                proof {
                    lemma_live_update(before, dst_idx as int, slots[slot as int]);
                    assert(n4.slots@ =~= before.update(dst_idx as int, slots[slot as int]));
                    from = from.push(slot as int);
                    assert forall|i: int|
                        0 <= i < slot + 1 && !(#[trigger] slots[i] is Empty) implies from.contains(
                        i,
                    ) by {
                        if i < slot {
                            let j = choose|j: int|
                                0 <= j < from_before.len() && from_before[j] == i;
                            assert(from[j] == i);
                        } else {
                            assert(from[dst_idx as int] == i);
                        }
                    }
                }
                dst_idx = dst_idx + 1;
            }
        }
        proof {
            assert(filled(slots).take(16) =~= filled(slots));
            assert forall|j: int| 0 <= j < 4 && !(#[trigger] n4.slots@[j] is Empty) implies n4.keys@[j] is Some by {
                assert(keys[from[j]] is Some);
            }
            assert forall|i: int, j: int|
                #![trigger n4.keys@[i], n4.slots@[j]]
                0 <= i < j < 4 && !(n4.slots@[j] is Empty) implies n4.keys@[i] != n4.keys@[j] by {
                assert(from[i] < from[j]);
                assert(keys[from[i]] != keys[from[j]] || slots[from[j]] is Empty);
            }
            assert forall|x: u8| !(#[trigger] keyed_kid(keys, slots, x) is Empty) implies exists|
                j: int,
            | holds(n4.keys@, n4.slots@, x, j) by {
                let i = choose|i: int| holds(keys, slots, x, i);
                let j = choose|j: int| 0 <= j < from.len() && from[j] == i;
                assert(holds(n4.keys@, n4.slots@, x, j));
            }
            assert forall|j: int| 0 <= j < 4 && !(#[trigger] n4.slots@[j] is Empty) implies n4.slots@[j]
                == keyed_kid(keys, slots, n4.keys@[j]->0) by {
                lemma_keyed_kid(keys, slots, keys[from[j]]->0, from[j]);
            }
            lemma_keyed_listing(n4.keys@, n4.slots@, |x: u8| keyed_kid(keys, slots, x));
        }
        n4
    }
}

impl Default for Node16 {
    fn default() -> (n16: Node16)
        ensures
            n16.header == blank_header(),
            n16.slots@.len() == 16,
            forall|i: int| 0 <= i < 16 ==> #[trigger] n16.keys@[i] is None,
            forall|i: int| 0 <= i < 16 ==> #[trigger] n16.slots@[i] is Empty,
            n16.live() == 0,
            n16.layout(),
            forall|x: u8| #[trigger] n16.kid(x) is Empty,
    {
        Node16 { header: NodeHeader::default(), keys: [None;16], slots: no_slots(16) }
    }
}

} // verus!

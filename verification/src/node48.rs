//! The node with room for 48 children.

use crate::counting::{count, lemma_count_bounds, lemma_count_take, rank, weight};
use crate::header::{blank_header, NodeHeader};
use crate::node16::Node16;
use crate::node256::Node256;
use crate::pointer::NodePtr;
use crate::slots::{
    first_free, holds, indexed, indexed_kid, indexed_layout, indexed_place, lemma_indexed_put,
    lemma_keyed_listing, lemma_live_bounds, lemma_live_update, lists, live, no_slots,
};
use vstd::prelude::*;

verus! {

/// A node with 48 slots and an index that gives the slot for each byte.
pub struct Node48 {
    pub header: NodeHeader,
    pub key_hashes: [Option<u8>; 256],
    pub slots: Vec<NodePtr>,
}

impl Node48 {
    /// The child for `byte`.
    pub open spec fn kid(self, byte: u8) -> NodePtr {
        indexed_kid(self.key_hashes@, self.slots@, byte)
    }

    /// The compressed path fits and the slots are in order.
    pub open spec fn layout(self) -> bool {
        &&& self.header.fits()
        &&& self.slots@.len() == 48
        &&& indexed_layout(self.key_hashes@, self.slots@)
    }

    /// The slots would be in order if `byte` left the index.
    pub open spec fn layout_without(self, byte: u8) -> bool {
        &&& self.header.fits()
        &&& self.slots@.len() == 48
        &&& indexed_layout(self.key_hashes@.update(byte as int, None), self.slots@)
    }

    /// `n256` has the children of this node in the slots of their bytes.
    pub open spec fn grows_into(self, n256: Node256) -> bool {
        &&& n256.slots@.len() == 256
        &&& forall|x: u8| #[trigger] n256.slots@[x as int] == self.kid(x)
    }

    /// `n16` has the children of this node in the order of their bytes.
    pub open spec fn shrinks_into(self, n16: Node16) -> bool {
        &&& forall|x: u8|
            (#[trigger] self.key_hashes@[x as int]) is Some ==> {
                let j = rank(indexed(self.key_hashes@), x as int);
                &&& 0 <= j < 16
                &&& n16.keys@[j] == Some(x)
                &&& n16.slots@[j] == self.kid(x)
            }
        &&& forall|i: int, j: int|
            0 <= i < j < 16 ==> (#[trigger] n16.keys@[i])->0 < (#[trigger] n16.keys@[j])->0
    }

    /// `after` has `node` in the slot that the index gives for `byte` or else in the first free
    /// one, and its index leads there, or with `clear_child_index` nowhere.
    pub open spec fn stores(
        self,
        after: Node48,
        byte: u8,
        clear_child_index: bool,
        node: NodePtr,
    ) -> bool {
        exists|i: int|
            {
                &&& #[trigger] indexed_place(self.key_hashes@, self.slots@, byte, i)
                &&& after.key_hashes@ == self.key_hashes@.update(
                    byte as int,
                    if clear_child_index {
                        None
                    } else {
                        Some(i as u8)
                    },
                )
                &&& after.slots@ == self.slots@.update(i, node)
            }
    }

    /// How many children there are.
    pub open spec fn live(self) -> nat {
        live(self.slots@)
    }
}

impl Node48 {
    /// Lists the children by byte, in ascending order.
    pub fn iter(&self) -> (children: Vec<(Option<u8>, &NodePtr)>)
        requires
            self.layout(),
        ensures
            lists(children@, |x: u8| self.kid(x)),
    {
        let mut children: Vec<(Option<u8>, &NodePtr)> = Vec::new();
        for byte in 0..256usize
            invariant
                self.layout(),
                forall|j: int|
                    0 <= j < children@.len() ==> (#[trigger] children@[j]).0 is Some && children@[j].0->0
                        < byte && !(*children@[j].1 is Empty) && *children@[j].1 == self.kid(
                        children@[j].0->0,
                    ),
                forall|i: int, j: int|
                    0 <= i < j < children@.len() ==> (#[trigger] children@[i]).0->0 < (
                    #[trigger] children@[j]).0->0,
                forall|x: u8|
                    x < byte && !(#[trigger] self.kid(x) is Empty) ==> exists|j: int|
                        0 <= j < children@.len() && (#[trigger] children@[j]).0 == Some(x),
        {
            let ghost before = children@;
            if let Some(i) = self.key_hashes[byte] {
                if !self.slots[i as usize].is_none() {
                    children.push((Some(byte as u8), &self.slots[i as usize]));
                    assert(children@[before.len() as int].0 == Some(byte as u8));
                }
            }
            assert forall|x: u8| x < byte + 1 && !(#[trigger] self.kid(x) is Empty) implies exists|
                j: int,
            | 0 <= j < children@.len() && (#[trigger] children@[j]).0 == Some(x) by {
                if x < byte {
                    let j = choose|j: int|
                        0 <= j < before.len() && (#[trigger] before[j]).0 == Some(x);
                    assert(children@[j].0 == Some(x));
                }
            }
        }
        children
    }

    /// The first slot that is empty.
    pub fn free_slot(&self) -> (found: Option<usize>)
        ensures
            match found {
                Some(i) => i < self.slots@.len() && self.slots@[i as int] is Empty && forall|j: int|
                    0 <= j < i ==> !(#[trigger] self.slots@[j] is Empty),
                None => forall|j: int|
                    0 <= j < self.slots@.len() ==> !(#[trigger] self.slots@[j] is Empty),
            },
    {
        first_free(&self.slots)
    }

    /// The child for `byte`.
    pub fn child(&self, byte: u8) -> (found: Option<&NodePtr>)
        requires
            self.layout(),
        ensures
            match found {
                Some(node) => *node == self.kid(byte) && !(node is Empty),
                None => self.kid(byte) is Empty,
            },
    {
        match self.key_hashes[byte as usize] {
            Some(i) => {
                if self.slots[i as usize].is_none() {
                    None
                } else {
                    Some(&self.slots[i as usize])
                }
            },
            None => None,
        }
    }

    /// The number of children and the slot for `byte`, which is the slot of its child or else
    /// the first free one. With `clear_child_index` the byte is left out of the index, since the
    /// child is about to go.
    pub fn child_mut(&mut self, byte: u8, clear_child_index: bool) -> (place: (
        &mut u16,
        &mut NodePtr,
    ))
        requires
            old(self).layout(),
            !(old(self).kid(byte) is Empty) || old(self).live() < 48,
        ensures
            *place.0 == old(self).header.children,
            *place.1 == old(self).kid(byte),
            final(self).header == old(self).header.with_children(*final(place.0)),
            old(self).stores(*final(self), byte, clear_child_index, *final(place.1)),
            (*final(place.1) is Empty) == clear_child_index ==> final(self).layout(),
            *final(place.1) is Empty ==> final(self).layout_without(byte),
            forall|x: u8|
                #[trigger] final(self).kid(x) == (if x != byte {
                    old(self).kid(x)
                } else if clear_child_index {
                    NodePtr::Empty
                } else {
                    *final(place.1)
                }),
            final(self).live() + weight(!(old(self).kid(byte) is Empty)) == old(self).live()
                + weight(!(*final(place.1) is Empty)),
    {
        let ghost index = self.key_hashes@;
        let ghost slots = self.slots@;
        let i: u8 = match self.key_hashes[byte as usize] {
            None => {
                proof {
                    lemma_live_bounds(slots);
                }
                let free_slot = self.free_slot().unwrap();
                if !clear_child_index {
                    self.key_hashes[byte as usize] = Some(free_slot as u8);
                }
                free_slot as u8
            },
            Some(i) => {
                if clear_child_index {
                    self.key_hashes[byte as usize] = None;
                }
                i
            },
        };
        proof {
            if clear_child_index {
                assert(self.key_hashes@ =~= index.update(byte as int, None));
            } else {
                assert(self.key_hashes@ =~= index.update(byte as int, Some(i)));
            }
            assert(self.key_hashes@.update(byte as int, None) =~= index.update(byte as int, None));
        }
        let slot = &mut self.slots[i as usize];
        proof {
            lemma_indexed_put(index, slots, byte, i, *final(slot));
            lemma_live_update(slots, i as int, *final(slot));
            assert(indexed_place(index, slots, byte, i as int));
        }
        (&mut self.header.children, slot)
    }

    /// Moves the children into a node with a slot for every byte.
    pub fn upgrade(&mut self) -> (n256: Box<Node256>)
        requires
            old(self).layout(),
        ensures
            n256.header == blank_header(),
            n256.layout(),
            n256.live() == old(self).live(),
            forall|x: u8| #[trigger] n256.kid(x) == old(self).kid(x),
            old(self).grows_into(*n256),
            final(self).header == old(self).header,
            final(self).key_hashes@ == old(self).key_hashes@,
            forall|x: u8| #[trigger] final(self).kid(x) is Empty,
    {
        let mut n256: Box<Node256> = Box::new(Node256::default());
        let ghost index = self.key_hashes@;
        let ghost slots = self.slots@;
        let ghost header = self.header;
        for byte in 0..256usize
            invariant
                self.key_hashes@ == index,
                self.header == header,
                indexed_layout(index, slots),
                slots.len() == 48,
                self.slots@.len() == 48,
                n256.header == blank_header(),
                n256.slots@.len() == 256,
                forall|b: int|
                    0 <= b < byte && (#[trigger] index[b]) is Some
                        ==> self.slots@[index[b]->0 as int] is Empty,
                forall|b: int|
                    byte <= b < 256 && (#[trigger] index[b]) is Some
                        ==> self.slots@[index[b]->0 as int] == slots[index[b]->0 as int],
                forall|b: int|
                    0 <= b < byte ==> #[trigger] n256.slots@[b] == indexed_kid(
                        index,
                        slots,
                        b as u8,
                    ),
                forall|b: int| byte <= b < 256 ==> #[trigger] n256.slots@[b] is Empty,
                live(n256.slots@) == count(indexed(index).take(byte as int)),
        {
            proof {
                lemma_count_take(indexed(index), byte as int);
            }
            if let Some(i) = self.key_hashes[byte] {
                let ghost before = n256.slots@;
                assert(index[byte as int] == Some(i));
                std::mem::swap(&mut n256.slots[byte], &mut self.slots[i as usize]);
                proof {
                    lemma_live_update(before, byte as int, slots[i as int]);
                    assert(n256.slots@ =~= before.update(byte as int, slots[i as int]));
                }
            }
        }
        assert(indexed(index).take(256) =~= indexed(index));
        n256
    }

    /// Moves the 16 children into a node with room for 16.
    pub fn downgrade(&mut self) -> (n16: Box<Node16>)
        requires
            old(self).layout(),
            old(self).live() == 16,
        ensures
            n16.header == blank_header(),
            n16.layout(),
            n16.live() == 16,
            forall|x: u8| #[trigger] n16.kid(x) == old(self).kid(x),
            old(self).shrinks_into(*n16),
            final(self).header == old(self).header,
            final(self).key_hashes@ == old(self).key_hashes@,
            forall|x: u8| #[trigger] final(self).kid(x) is Empty,
    {
        let mut n16: Box<Node16> = Box::new(Node16::default());
        let mut dst_idx: usize = 0;
        let ghost index = self.key_hashes@;
        let ghost slots = self.slots@;
        let ghost header = self.header;
        let ghost mut from: Seq<u8> = Seq::empty();
        for byte in 0..256usize
            invariant
                self.key_hashes@ == index,
                self.header == header,
                indexed_layout(index, slots),
                slots.len() == 48,
                live(slots) == 16,
                self.slots@.len() == 48,
                n16.header == blank_header(),
                n16.slots@.len() == 16,
                forall|b: int|
                    0 <= b < byte && (#[trigger] index[b]) is Some
                        ==> self.slots@[index[b]->0 as int] is Empty,
                forall|b: int|
                    byte <= b < 256 && (#[trigger] index[b]) is Some
                        ==> self.slots@[index[b]->0 as int] == slots[index[b]->0 as int],
                dst_idx == count(indexed(index).take(byte as int)),
                dst_idx <= 16,
                live(n16.slots@) == dst_idx,
                from.len() == dst_idx,
                forall|j: int|
                    0 <= j < dst_idx ==> (#[trigger] from[j]) < byte && index[from[j] as int] is Some
                        && n16.slots@[j] == indexed_kid(index, slots, from[j]) && n16.keys@[j]
                        == Some(from[j]),
                forall|j: int, k: int| 0 <= j < k < dst_idx ==> from[j] < from[k],
                forall|j: int| dst_idx <= j < 16 ==> #[trigger] n16.slots@[j] is Empty,
                forall|b: u8|
                    b < byte && (#[trigger] index[b as int]) is Some ==> from.contains(b),
                forall|b: u8|
                    b < byte && (#[trigger] index[b as int]) is Some ==> {
                        let j = rank(indexed(index), b as int);
                        &&& 0 <= j < dst_idx
                        &&& n16.keys@[j] == Some(b)
                        &&& n16.slots@[j] == indexed_kid(index, slots, b)
                    },
        {
            proof {
                lemma_count_take(indexed(index), byte as int);
            }
            if let Some(i) = self.key_hashes[byte] {
                let ghost before = n16.slots@;
                let ghost from_before = from;
                assert(index[byte as int] == Some(i));
                std::mem::swap(&mut self.slots[i as usize], &mut n16.slots[dst_idx]);
                n16.keys[dst_idx] = Some(byte as u8);
                proof {
                    lemma_live_update(before, dst_idx as int, slots[i as int]);
                    assert(n16.slots@ =~= before.update(dst_idx as int, slots[i as int]));
                    from = from.push(byte as u8);
                    assert forall|b: u8|
                        b < byte + 1 && (#[trigger] index[b as int]) is Some implies from.contains(
                        b,
                    ) by {
                        if b < byte {
                            let j = choose|j: int|
                                0 <= j < from_before.len() && from_before[j] == b;
                            assert(from[j] == b);
                        } else {
                            assert(from[dst_idx as int] == b);
                        }
                    }
                }
                dst_idx = dst_idx + 1;
            }
        }
        proof {
            assert(indexed(index).take(256) =~= indexed(index));
            assert forall|j: int| 0 <= j < 16 implies n16.keys@[j] == Some(from[j]) && !(
            #[trigger] n16.slots@[j] is Empty) && n16.slots@[j] == indexed_kid(
                index,
                slots,
                from[j],
            ) by {
                assert(index[from[j] as int] is Some);
            }
            assert forall|i: int, j: int|
                #![trigger n16.keys@[i], n16.slots@[j]]
                0 <= i < j < 16 && !(n16.slots@[j] is Empty) implies n16.keys@[i]
                != n16.keys@[j] by {
                assert(from[i] < from[j]);
            }
            assert forall|x: u8| !(#[trigger] indexed_kid(index, slots, x) is Empty) implies exists|
                j: int,
            | holds(n16.keys@, n16.slots@, x, j) by {
                assert(index[x as int] is Some);
                let j = choose|j: int| 0 <= j < from.len() && from[j] == x;
                assert(!(n16.slots@[j] is Empty));
                assert(holds(n16.keys@, n16.slots@, x, j));
            }
            lemma_keyed_listing(n16.keys@, n16.slots@, |x: u8| indexed_kid(index, slots, x));
            assert forall|i: int, j: int| 0 <= i < j < 16 implies (#[trigger] n16.keys@[i])->0 < (
            #[trigger] n16.keys@[j])->0 by {
                assert(n16.keys@[i] == Some(from[i]) && n16.keys@[j] == Some(from[j]));
            }
        }
        n16
    }
}

impl Default for Node48 {
    fn default() -> (n48: Node48)
        ensures
            n48.header == blank_header(),
            n48.slots@.len() == 48,
            forall|b: int| 0 <= b < 256 ==> #[trigger] n48.key_hashes@[b] is None,
            forall|i: int| 0 <= i < 48 ==> #[trigger] n48.slots@[i] is Empty,
            n48.live() == 0,
            n48.layout(),
            forall|x: u8| #[trigger] n48.kid(x) is Empty,
    {
        let n48 = Node48 {
            header: NodeHeader::default(),
            key_hashes: [None;256],
            slots: no_slots(48),
        };
        proof {
            lemma_count_bounds(indexed(n48.key_hashes@));
        }
        n48
    }
}

} // verus!

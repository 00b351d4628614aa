//! The node with a slot for every byte.

use crate::counting::{count, lemma_count_bounds, lemma_count_take, lemma_count_update, rank, weight};
use crate::header::{blank_header, NodeHeader};
use crate::node48::Node48;
use crate::pointer::NodePtr;
use crate::slots::{filled, indexed, lemma_live_update, lists, live, no_slots};
use vstd::prelude::*;

verus! {

/// A node with a slot for every byte.
pub struct Node256 {
    pub header: NodeHeader,
    pub slots: Vec<NodePtr>,
}

impl Node256 {
    /// The child for `byte`.
    pub open spec fn kid(self, byte: u8) -> NodePtr {
        if byte < self.slots@.len() {
            self.slots@[byte as int]
        } else {
            NodePtr::Empty
        }
    }

    /// The compressed path fits and the slots are in order.
    pub open spec fn layout(self) -> bool {
        &&& self.header.fits()
        &&& self.slots@.len() == 256
    }

    /// `n48` has the children of this node in the order of their bytes.
    pub open spec fn shrinks_into(self, n48: Node48) -> bool {
        &&& n48.slots@.len() == 48
        &&& forall|x: u8|
            match #[trigger] n48.key_hashes@[x as int] {
                Some(i) => {
                    &&& i == rank(filled(self.slots@), x as int)
                    &&& i < 48
                    &&& n48.slots@[i as int] == self.kid(x)
                    &&& !(self.kid(x) is Empty)
                },
                None => self.kid(x) is Empty,
            }
    }

    /// How many children there are.
    pub open spec fn live(self) -> nat {
        live(self.slots@)
    }
}

impl Node256 {
    /// Lists the children by byte, in ascending order.
    pub fn iter(&self) -> (children: Vec<(Option<u8>, &NodePtr)>)
        requires
            self.layout(),
        ensures
            lists(children@, |x: u8| self.kid(x)),
    {
        let mut children: Vec<(Option<u8>, &NodePtr)> = Vec::new();
        for byte in 0..256usize
            invariant
                self.layout(),
                forall|j: int|
                    0 <= j < children@.len() ==> (#[trigger] children@[j]).0 is Some && children@[j].0->0
                        < byte && !(*children@[j].1 is Empty) && *children@[j].1 == self.kid(
                        children@[j].0->0,
                    ),
                forall|i: int, j: int|
                    0 <= i < j < children@.len() ==> (#[trigger] children@[i]).0->0 < (
                    #[trigger] children@[j]).0->0,
                forall|x: u8|
                    x < byte && !(#[trigger] self.kid(x) is Empty) ==> exists|j: int|
                        0 <= j < children@.len() && (#[trigger] children@[j]).0 == Some(x),
        {
            let ghost before = children@;
            if !self.slots[byte].is_none() {
                children.push((Some(byte as u8), &self.slots[byte]));
                assert(children@[before.len() as int].0 == Some(byte as u8));
            }
            assert forall|x: u8| x < byte + 1 && !(#[trigger] self.kid(x) is Empty) implies exists|
                j: int,
            | 0 <= j < children@.len() && (#[trigger] children@[j]).0 == Some(x) by {
                if x < byte {
                    let j = choose|j: int|
                        0 <= j < before.len() && (#[trigger] before[j]).0 == Some(x);
                    assert(children@[j].0 == Some(x));
                }
            }
        }
        children
    }

    /// The child for `byte`.
    pub fn child(&self, byte: u8) -> (found: Option<&NodePtr>)
        requires
            self.layout(),
        ensures
            match found {
                Some(node) => *node == self.kid(byte) && !(node is Empty),
                None => self.kid(byte) is Empty,
            },
    {
        if self.slots[byte as usize].is_none() {
            None
        } else {
            Some(&self.slots[byte as usize])
        }
    }

    /// The number of children and the slot for `byte`.
    pub fn child_mut(&mut self, byte: u8) -> (place: (&mut u16, &mut NodePtr))
        requires
            old(self).layout(),
        ensures
            *place.0 == old(self).header.children,
            *place.1 == old(self).kid(byte),
            final(self).header == old(self).header.with_children(*final(place.0)),
            final(self).slots@ == old(self).slots@.update(byte as int, *final(place.1)),
            final(self).layout(),
            forall|x: u8|
                #[trigger] final(self).kid(x) == (if x == byte {
                    *final(place.1)
                } else {
                    old(self).kid(x)
                }),
            final(self).live() + weight(!(old(self).kid(byte) is Empty)) == old(self).live()
                + weight(!(*final(place.1) is Empty)),
    {
        let ghost slots = self.slots@;
        let slot = &mut self.slots[byte as usize];
        proof {
            lemma_live_update(slots, byte as int, *final(slot));
        }
        (&mut self.header.children, slot)
    }

    /// Moves the 48 children into a node with room for 48.
    pub fn downgrade(&mut self) -> (n48: Box<Node48>)
        requires
            old(self).layout(),
            old(self).live() == 48,
        ensures
            n48.header == blank_header(),
            n48.layout(),
            n48.live() == 48,
            forall|x: u8| #[trigger] n48.kid(x) == old(self).kid(x),
            old(self).shrinks_into(*n48),
            final(self).header == old(self).header,
            forall|x: u8| #[trigger] final(self).kid(x) is Empty,
    {
        let mut n48: Box<Node48> = Box::new(Node48::default());
        let mut dst_idx: usize = 0;
        let ghost slots = self.slots@;
        let ghost header = self.header;
        proof {
            lemma_count_bounds(indexed(n48.key_hashes@));
        }
        for byte in 0..256usize
            invariant
                self.header == header,
                slots.len() == 256,
                live(slots) == 48,
                self.slots@.len() == 256,
                n48.header == blank_header(),
                n48.slots@.len() == 48,
                forall|b: int| 0 <= b < byte ==> #[trigger] self.slots@[b] is Empty,
                forall|b: int| byte <= b < 256 ==> #[trigger] self.slots@[b] == slots[b],
                dst_idx == count(filled(slots).take(byte as int)),
                dst_idx <= 48,
                live(n48.slots@) == dst_idx,
                count(indexed(n48.key_hashes@)) == dst_idx,
                forall|b: int|
                    0 <= b < byte ==> match #[trigger] n48.key_hashes@[b] {
                        Some(i) => i < dst_idx && i == rank(filled(slots), b)
                            && n48.slots@[i as int] == slots[b] && !(slots[b] is Empty),
                        None => slots[b] is Empty,
                    },
                forall|b: int| byte <= b < 256 ==> #[trigger] n48.key_hashes@[b] is None,
                forall|a: int, b: int|
                    0 <= a < b < byte && (#[trigger] n48.key_hashes@[a]) is Some
                        ==> n48.key_hashes@[a] != #[trigger] n48.key_hashes@[b],
                forall|i: int| dst_idx <= i < 48 ==> #[trigger] n48.slots@[i] is Empty,
        {
            proof {
                lemma_count_take(filled(slots), byte as int);
            }
            if !self.slots[byte].is_none() {
                let ghost before = n48.slots@;
                let ghost index = n48.key_hashes@;
                std::mem::swap(&mut self.slots[byte], &mut n48.slots[dst_idx]);
                n48.key_hashes[byte] = Some(dst_idx as u8);
                proof {
                    lemma_live_update(before, dst_idx as int, slots[byte as int]);
                    assert(n48.slots@ =~= before.update(dst_idx as int, slots[byte as int]));
                    lemma_count_update(indexed(index), byte as int, true);
                    assert(indexed(n48.key_hashes@) =~= indexed(index).update(byte as int, true));
                }
                dst_idx = dst_idx + 1;
            }
        }
        assert(filled(slots).take(256) =~= filled(slots));
        n48
    }
}

impl Default for Node256 {
    fn default() -> (n256: Node256)
        ensures
            n256.header == blank_header(),
            n256.slots@.len() == 256,
            forall|i: int| 0 <= i < 256 ==> #[trigger] n256.slots@[i] is Empty,
            n256.live() == 0,
            n256.layout(),
            forall|x: u8| #[trigger] n256.kid(x) is Empty,
    {
        Node256 { header: NodeHeader::default(), slots: no_slots(256) }
    }
}

} // verus!

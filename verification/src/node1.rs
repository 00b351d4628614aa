//! The node with room for one child.

use crate::counting::weight;
use crate::header::{blank_header, NodeHeader};
use crate::node4::Node4;
use crate::pointer::NodePtr;
use crate::slots::{lemma_keyed_put, lemma_live_update, lists};
use vstd::prelude::*;

verus! {

/// A node with one slot and the byte that leads to it.
pub struct Node1 {
    pub header: NodeHeader,
    pub key: u8,
    pub slot: NodePtr,
}

impl Node1 {
    /// The child for `byte`.
    pub open spec fn kid(self, byte: u8) -> NodePtr {
        if self.key == byte {
            self.slot
        } else {
            NodePtr::Empty
        }
    }

    /// The compressed path fits and the slots are in order.
    pub open spec fn layout(self) -> bool {
        self.header.fits()
    }

    /// `n4` has the child of this node in its first slot.
    pub open spec fn grows_into(self, n4: Node4) -> bool {
        &&& n4.keys@ == seq![Some(self.key), None, None, None]
        &&& n4.slots@.len() == 4
        &&& n4.slots@[0] == self.slot
        &&& forall|i: int| 1 <= i < 4 ==> #[trigger] n4.slots@[i] is Empty
    }

    /// How many children there are.
    pub open spec fn live(self) -> nat {
        weight(!(self.slot is Empty))
    }
}

impl Node1 {
    /// Lists the slot under its byte.
    pub fn iter(&self) -> (children: Vec<(Option<u8>, &NodePtr)>)
        ensures
            children@ == seq![(Some(self.key), &self.slot)],
            self.live() == 1 ==> lists(children@, |x: u8| self.kid(x)),
    {
        let mut children: Vec<(Option<u8>, &NodePtr)> = Vec::new();
        children.push((Some(self.key), &self.slot));
        assert(children@ =~= seq![(Some(self.key), &self.slot)]);
        assert(children@[0].0 == Some(self.key));
        children
    }

    /// The child for `byte`.
    pub fn child(&self, byte: u8) -> (found: Option<&NodePtr>)
        ensures
            match found {
                Some(node) => *node == self.kid(byte) && !(node is Empty),
                None => self.kid(byte) is Empty,
            },
    {
        if self.key == byte && !self.slot.is_none() {
            Some(&self.slot)
        } else {
            None
        }
    }

    /// The number of children and the slot, which `byte` leads to from now on.
    pub fn child_mut(&mut self, byte: u8) -> (place: (&mut u16, &mut NodePtr))
        requires
            old(self).layout(),
            !(old(self).kid(byte) is Empty) || old(self).live() < 1,
        ensures
            *place.0 == old(self).header.children,
            *place.1 == old(self).kid(byte),
            final(self).header == old(self).header.with_children(*final(place.0)),
            final(self).key == byte,
            final(self).slot == *final(place.1),
            final(self).layout(),
            forall|x: u8|
                #[trigger] final(self).kid(x) == (if x == byte {
                    *final(place.1)
                } else {
                    old(self).kid(x)
                }),
            final(self).live() + weight(!(old(self).kid(byte) is Empty)) == old(self).live()
                + weight(!(*final(place.1) is Empty)),
    {
        self.key = byte;
        (&mut self.header.children, &mut self.slot)
    }

    /// Moves the child into a node with room for four.
    pub fn upgrade(&mut self) -> (n4: Box<Node4>)
        requires
            old(self).layout(),
        ensures
            n4.header == blank_header(),
            n4.layout(),
            n4.live() == old(self).live(),
            forall|x: u8| #[trigger] n4.kid(x) == old(self).kid(x),
            old(self).grows_into(*n4),
            final(self).header == old(self).header,
            final(self).key == old(self).key,
            forall|x: u8| #[trigger] final(self).kid(x) is Empty,
    {
        let mut n4: Box<Node4> = Box::new(Node4::default());
        let ghost keys = n4.keys@;
        let ghost slots = n4.slots@;
        n4.keys[0] = Some(self.key);
        std::mem::swap(&mut self.slot, &mut n4.slots[0]);
        proof {
            lemma_keyed_put(keys, slots, self.key, 0, n4.slots@[0]);
            lemma_live_update(slots, 0, n4.slots@[0]);
            assert(n4.keys@ =~= keys.update(0, Some(self.key)));
            assert(n4.keys@ =~= seq![Some(self.key), None, None, None]);
            assert(n4.slots@ =~= slots.update(0, n4.slots@[0]));
        }
        n4
    }
}

impl Default for Node1 {
    fn default() -> (n1: Node1)
        ensures
            n1.header == blank_header(),
            n1.key == 0,
            n1.slot is Empty,
    {
        Node1 { header: NodeHeader::default(), key: 0, slot: NodePtr::none() }
    }
}

} // verus!

//! What a slot of a node holds: nothing, a leaf, or a node of one of five sizes.

use crate::bytes::{count_shared, lemma_shared_len, shared_len};
use crate::counting::weight;
use crate::header::{
    blank_header, none_header_ref, NodeHeader, TwigNode,
};
use crate::node1::Node1;
use crate::node16::Node16;
use crate::node256::Node256;
use crate::node4::Node4;
use crate::node48::Node48;
use crate::node_laws::law_listing;
use crate::slots::{count_filled, keyed_kid, keyed_place, lemma_live_bounds, lists};
use vstd::pervasive::{runtime_assert, unreached};
use vstd::prelude::*;
use vstd::slice::slice_subrange;

verus! {

/// Nothing, a leaf, or a node of one of the five sizes.
pub enum NodePtr {
    Empty,
    Value(Box<TwigNode>),
    Node1(Box<Node1>),
    Node4(Box<Node4>),
    Node16(Box<Node16>),
    Node48(Box<Node48>),
    Node256(Box<Node256>),
}

/// What a pointer leads to, for reading.
pub enum NodeRef<'a> {
    Empty,
    Value(&'a TwigNode),
    Node1(&'a Node1),
    Node4(&'a Node4),
    Node16(&'a Node16),
    Node48(&'a Node48),
    Node256(&'a Node256),
}

/// What a pointer leads to, for writing.
pub enum NodeMut<'a> {
    Empty,
    Value(&'a mut TwigNode),
    Node1(&'a mut Node1),
    Node4(&'a mut Node4),
    Node16(&'a mut Node16),
    Node48(&'a mut Node48),
    Node256(&'a mut Node256),
}

/// A node together with the list of its children.
pub struct NodeIter<'a> {
    pub node: &'a NodePtr,
    pub children: Vec<(Option<u8>, &'a NodePtr)>,
}

/// The next larger number of children that a node can have room for.
pub open spec fn larger(capacity: nat) -> nat {
    if capacity == 1 {
        4
    } else if capacity == 4 {
        16
    } else if capacity == 16 {
        48
    } else {
        256
    }
}

/// The next smaller number of children that a node can have room for.
pub open spec fn smaller(capacity: nat) -> nat {
    if capacity == 4 {
        1
    } else if capacity == 16 {
        4
    } else if capacity == 48 {
        16
    } else {
        48
    }
}

impl NodePtr {
    /// A node that can have children.
    pub open spec fn is_inner(self) -> bool {
        !(self is Empty) && !(self is Value)
    }

    /// The header, which is blank where there is nothing.
    pub open spec fn hdr(self) -> NodeHeader {
        match self {
            NodePtr::Empty => blank_header(),
            NodePtr::Value(twig) => twig.header,
            NodePtr::Node1(n1) => n1.header,
            NodePtr::Node4(n4) => n4.header,
            NodePtr::Node16(n16) => n16.header,
            NodePtr::Node48(n48) => n48.header,
            NodePtr::Node256(n256) => n256.header,
        }
    }

    /// The same node under another header.
    pub open spec fn with_header(self, header: NodeHeader) -> NodePtr {
        match self {
            NodePtr::Empty => self,
            NodePtr::Value(twig) => NodePtr::Value(Box::new(TwigNode { header, ..*twig })),
            NodePtr::Node1(n1) => NodePtr::Node1(Box::new(Node1 { header, ..*n1 })),
            NodePtr::Node4(n4) => NodePtr::Node4(Box::new(Node4 { header, ..*n4 })),
            NodePtr::Node16(n16) => NodePtr::Node16(Box::new(Node16 { header, ..*n16 })),
            NodePtr::Node48(n48) => NodePtr::Node48(Box::new(Node48 { header, ..*n48 })),
            NodePtr::Node256(n256) => NodePtr::Node256(Box::new(Node256 { header, ..*n256 })),
        }
    }

    /// The child for `byte`, which is empty where there is none.
    pub open spec fn kid(self, byte: u8) -> NodePtr {
        match self {
            NodePtr::Empty => NodePtr::Empty,
            NodePtr::Value(_) => NodePtr::Empty,
            NodePtr::Node1(n1) => n1.kid(byte),
            NodePtr::Node4(n4) => n4.kid(byte),
            NodePtr::Node16(n16) => n16.kid(byte),
            NodePtr::Node48(n48) => n48.kid(byte),
            NodePtr::Node256(n256) => n256.kid(byte),
        }
    }

    /// The slots of the node are in order.
    pub open spec fn layout(self) -> bool {
        match self {
            NodePtr::Empty => true,
            NodePtr::Value(_) => true,
            NodePtr::Node1(n1) => n1.layout(),
            NodePtr::Node4(n4) => n4.layout(),
            NodePtr::Node16(n16) => n16.layout(),
            NodePtr::Node48(n48) => n48.layout(),
            NodePtr::Node256(n256) => n256.layout(),
        }
    }

    /// The slots of the node are in order, but that `byte` may still be in its index.
    pub open spec fn layout_without(self, byte: u8) -> bool {
        match self {
            NodePtr::Node48(n48) => n48.layout_without(byte),
            _ => self.layout(),
        }
    }

    /// How many children there are.
    pub open spec fn live(self) -> nat {
        match self {
            NodePtr::Empty => 0,
            NodePtr::Value(_) => 0,
            NodePtr::Node1(n1) => n1.live(),
            NodePtr::Node4(n4) => n4.live(),
            NodePtr::Node16(n16) => n16.live(),
            NodePtr::Node48(n48) => n48.live(),
            NodePtr::Node256(n256) => n256.live(),
        }
    }

    /// How many children there is room for.
    pub open spec fn capacity(self) -> nat {
        match self {
            NodePtr::Empty => 0,
            NodePtr::Value(_) => 0,
            NodePtr::Node1(_) => 1,
            NodePtr::Node4(_) => 4,
            NodePtr::Node16(_) => 16,
            NodePtr::Node48(_) => 48,
            NodePtr::Node256(_) => 256,
        }
    }

    /// The least number of children for which a node of this size is kept.
    pub open spec fn least(self) -> nat {
        match self {
            NodePtr::Empty => 0,
            NodePtr::Value(_) => 0,
            NodePtr::Node1(_) => 1,
            NodePtr::Node4(_) => 2,
            NodePtr::Node16(_) => 5,
            NodePtr::Node48(_) => 17,
            NodePtr::Node256(_) => 49,
        }
    }

    /// `after` is of the next larger size and has the children of this node, in the slots that
    /// follow from theirs.
    pub open spec fn grows_into(self, after: NodePtr) -> bool {
        match (self, after) {
            (NodePtr::Node1(n1), NodePtr::Node4(n4)) => n1.grows_into(*n4),
            (NodePtr::Node4(n4), NodePtr::Node16(n16)) => n4.grows_into(*n16),
            (NodePtr::Node16(n16), NodePtr::Node48(n48)) => n16.grows_into(*n48),
            (NodePtr::Node48(n48), NodePtr::Node256(n256)) => n48.grows_into(*n256),
            _ => false,
        }
    }

    /// `after` is of the next smaller size and has the children of this node, in the slots that
    /// follow from theirs.
    pub open spec fn shrinks_into(self, after: NodePtr) -> bool {
        match (self, after) {
            (NodePtr::Node4(n4), NodePtr::Node1(n1)) => n4.shrinks_into(*n1),
            (NodePtr::Node16(n16), NodePtr::Node4(n4)) => n16.shrinks_into(*n4),
            (NodePtr::Node48(n48), NodePtr::Node16(n16)) => n48.shrinks_into(*n16),
            (NodePtr::Node256(n256), NodePtr::Node48(n48)) => n256.shrinks_into(*n48),
            _ => false,
        }
    }

    /// `after` has `node` in the place for `byte`. With `clear_child_index` the byte has left the
    /// index, where there is one.
    pub open spec fn stores(
        self,
        after: NodePtr,
        byte: u8,
        clear_child_index: bool,
        node: NodePtr,
    ) -> bool {
        match (self, after) {
            (NodePtr::Node1(_), NodePtr::Node1(n1)) => n1.key == byte && n1.slot == node,
            (NodePtr::Node4(was), NodePtr::Node4(n4)) => was.stores(*n4, byte, node),
            (NodePtr::Node16(was), NodePtr::Node16(n16)) => was.stores(*n16, byte, node),
            (NodePtr::Node48(was), NodePtr::Node48(n48)) => was.stores(
                *n48,
                byte,
                clear_child_index,
                node,
            ),
            (NodePtr::Node256(was), NodePtr::Node256(n256)) => n256.slots@ == was.slots@.update(
                byte as int,
                node,
            ),
            _ => false,
        }
    }

    /// The header gives the number of children that there are.
    pub open spec fn size_agrees(self) -> bool {
        match self {
            NodePtr::Node1(n1) => n1.header.children == 1,
            _ => self.hdr().children == self.live(),
        }
    }

    /// The header's number of children is the one at which a node of this size is given up.
    pub open spec fn shrinks(self) -> bool {
        self.is_inner() && self.hdr().children + 1 == self.least()
    }

    /// No node has more children than it has room for, one that has as many has a child in
    /// every slot, and the children are found under their bytes.
    pub proof fn lemma_live(self)
        requires
            self.layout(),
        ensures
            self.live() <= self.capacity(),
            self is Node256 && self.live() == 256 ==> forall|x: u8| !(#[trigger] self.kid(x) is Empty),
            self.live() > 0 ==> exists|x: u8| !(#[trigger] self.kid(x) is Empty),
            self.live() == 0 ==> forall|x: u8| #[trigger] self.kid(x) is Empty,
    {
        match self {
            NodePtr::Node1(n1) => {
                if n1.live() > 0 {
                    assert(!(self.kid(n1.key) is Empty));
                }
            },
            NodePtr::Node4(n4) => {
                lemma_live_bounds(n4.slots@);
                crate::slots::lemma_keyed_some(n4.keys@, n4.slots@);
                if n4.live() > 0 {
                    let x = choose|x: u8| !(#[trigger] keyed_kid(n4.keys@, n4.slots@, x) is Empty);
                    assert(!(self.kid(x) is Empty));
                }
            },
            NodePtr::Node16(n16) => {
                lemma_live_bounds(n16.slots@);
                crate::slots::lemma_keyed_some(n16.keys@, n16.slots@);
                if n16.live() > 0 {
                    let x = choose|x: u8| !(#[trigger] keyed_kid(n16.keys@, n16.slots@, x) is Empty);
                    assert(!(self.kid(x) is Empty));
                }
            },
            NodePtr::Node48(n48) => {
                lemma_live_bounds(n48.slots@);
                crate::slots::lemma_indexed_some(n48.key_hashes@, n48.slots@);
                if n48.live() > 0 {
                    let x = choose|x: u8| !(#[trigger] crate::slots::indexed_kid(n48.key_hashes@, n48.slots@, x) is Empty);
                    assert(!(self.kid(x) is Empty));
                }
            },
            NodePtr::Node256(n256) => {
                lemma_live_bounds(n256.slots@);
                if n256.live() > 0 {
                    let i = choose|i: int| 0 <= i < 256 && !(#[trigger] n256.slots@[i] is Empty);
                    assert(!(self.kid(i as u8) is Empty));
                }
            },
            _ => {},
        }
    }

    /// Changing the header changes neither the children nor their layout.
    pub proof fn lemma_with_header(self, header: NodeHeader)
        requires
            self.is_inner(),
        ensures
            self.with_header(header).is_inner(),
            self.with_header(header).hdr() == header,
            self.with_header(header).capacity() == self.capacity(),
            self.with_header(header).least() == self.least(),
            self.with_header(header).live() == self.live(),
            forall|x: u8| #[trigger] self.with_header(header).kid(x) == self.kid(x),
            self.layout() && header.fits() ==> self.with_header(header).layout(),
            forall|x: u8|
                self.layout_without(x) && header.fits()
                    ==> #[trigger] self.with_header(header).layout_without(x),
    {
    }

    /// Where two pointers agree on every child, so does the node that the first leads to.
    proof fn lemma_kid_of(self, other: NodePtr)
        requires
            forall|x: u8| #[trigger] self.kid(x) == other.kid(x),
        ensures
            match self {
                NodePtr::Node1(n1) => forall|x: u8| #[trigger] n1.kid(x) == other.kid(x),
                NodePtr::Node4(n4) => forall|x: u8| #[trigger] n4.kid(x) == other.kid(x),
                NodePtr::Node16(n16) => forall|x: u8| #[trigger] n16.kid(x) == other.kid(x),
                NodePtr::Node48(n48) => forall|x: u8| #[trigger] n48.kid(x) == other.kid(x),
                NodePtr::Node256(n256) => forall|x: u8| #[trigger] n256.kid(x) == other.kid(x),
                _ => true,
            },
    {
        match self {
            NodePtr::Node1(n1) => {
                assert forall|x: u8| #[trigger] n1.kid(x) == other.kid(x) by {
                    assert(self.kid(x) == other.kid(x));
                }
            },
            NodePtr::Node4(n4) => {
                assert forall|x: u8| #[trigger] n4.kid(x) == other.kid(x) by {
                    assert(self.kid(x) == other.kid(x));
                }
            },
            NodePtr::Node16(n16) => {
                assert forall|x: u8| #[trigger] n16.kid(x) == other.kid(x) by {
                    assert(self.kid(x) == other.kid(x));
                }
            },
            NodePtr::Node48(n48) => {
                assert forall|x: u8| #[trigger] n48.kid(x) == other.kid(x) by {
                    assert(self.kid(x) == other.kid(x));
                }
            },
            NodePtr::Node256(n256) => {
                assert forall|x: u8| #[trigger] n256.kid(x) == other.kid(x) by {
                    assert(self.kid(x) == other.kid(x));
                }
            },
            _ => {},
        }
    }

    /// Nothing.
    pub fn none() -> (node: NodePtr)
        ensures
            node is Empty,
    {
        NodePtr::Empty
    }

    /// A pointer to a node with room for one child.
    pub fn node1(n1: Box<Node1>) -> (node: NodePtr)
        ensures
            node == NodePtr::Node1(n1),
    {
        NodePtr::Node1(n1)
    }

    /// A pointer to a node with room for four children.
    pub fn node4(n4: Box<Node4>) -> (node: NodePtr)
        ensures
            node == NodePtr::Node4(n4),
    {
        NodePtr::Node4(n4)
    }

    /// A pointer to a node with room for 16 children.
    pub fn node16(n16: Box<Node16>) -> (node: NodePtr)
        ensures
            node == NodePtr::Node16(n16),
    {
        NodePtr::Node16(n16)
    }

    /// A pointer to a node with room for 48 children.
    pub fn node48(n48: Box<Node48>) -> (node: NodePtr)
        ensures
            node == NodePtr::Node48(n48),
    {
        NodePtr::Node48(n48)
    }

    /// A pointer to a node with a slot for every byte.
    pub fn node256(n256: Box<Node256>) -> (node: NodePtr)
        ensures
            node == NodePtr::Node256(n256),
    {
        NodePtr::Node256(n256)
    }

    /// A pointer to a leaf.
    pub fn value(twig: TwigNode) -> (node: NodePtr)
        ensures
            node == NodePtr::Value(Box::new(twig)),
    {
        NodePtr::Value(Box::new(twig))
    }

    /// What the pointer leads to, for reading.
    pub fn deref(&self) -> (node: NodeRef<'_>)
        ensures
            match *self {
                NodePtr::Empty => node is Empty,
                NodePtr::Value(twig) => node == NodeRef::Value(&*twig),
                NodePtr::Node1(n1) => node == NodeRef::Node1(&*n1),
                NodePtr::Node4(n4) => node == NodeRef::Node4(&*n4),
                NodePtr::Node16(n16) => node == NodeRef::Node16(&*n16),
                NodePtr::Node48(n48) => node == NodeRef::Node48(&*n48),
                NodePtr::Node256(n256) => node == NodeRef::Node256(&*n256),
            },
    {
        match self {
            NodePtr::Empty => NodeRef::Empty,
            NodePtr::Value(twig) => NodeRef::Value(&**twig),
            NodePtr::Node1(n1) => NodeRef::Node1(&**n1),
            NodePtr::Node4(n4) => NodeRef::Node4(&**n4),
            NodePtr::Node16(n16) => NodeRef::Node16(&**n16),
            NodePtr::Node48(n48) => NodeRef::Node48(&**n48),
            NodePtr::Node256(n256) => NodeRef::Node256(&**n256),
        }
    }

    /// What the pointer leads to, for writing.
    pub fn deref_mut(&mut self) -> (node: NodeMut<'_>)
        ensures
            match *old(self) {
                NodePtr::Empty => node is Empty && *final(self) is Empty,
                NodePtr::Value(was) => node matches NodeMut::Value(twig) && *twig == *was && *final(self) == NodePtr::Value(Box::new(*final(twig))),
                NodePtr::Node1(was) => node matches NodeMut::Node1(n1) && *n1 == *was && *final(self) == NodePtr::Node1(Box::new(*final(n1))),
                NodePtr::Node4(was) => node matches NodeMut::Node4(n4) && *n4 == *was && *final(self) == NodePtr::Node4(Box::new(*final(n4))),
                NodePtr::Node16(was) => node matches NodeMut::Node16(n16) && *n16 == *was && *final(self) == NodePtr::Node16(Box::new(*final(n16))),
                NodePtr::Node48(was) => node matches NodeMut::Node48(n48) && *n48 == *was && *final(self) == NodePtr::Node48(Box::new(*final(n48))),
                NodePtr::Node256(was) => node matches NodeMut::Node256(n256) && *n256 == *was
                    && *final(self) == NodePtr::Node256(Box::new(*final(n256))),
            },
    {
        match self {
            NodePtr::Empty => NodeMut::Empty,
            NodePtr::Value(twig) => NodeMut::Value(&mut **twig),
            NodePtr::Node1(n1) => NodeMut::Node1(&mut **n1),
            NodePtr::Node4(n4) => NodeMut::Node4(&mut **n4),
            NodePtr::Node16(n16) => NodeMut::Node16(&mut **n16),
            NodePtr::Node48(n48) => NodeMut::Node48(&mut **n48),
            NodePtr::Node256(n256) => NodeMut::Node256(&mut **n256),
        }
    }

    /// Says whether there is nothing.
    pub fn is_none(&self) -> (yes: bool)
        ensures
            yes == (self is Empty),
    {
        match self {
            NodePtr::Empty => true,
            _ => false,
        }
    }

    /// Takes the leaf out and leaves nothing.
    pub fn take(&mut self) -> (twig: Option<TwigNode>)
        requires
            !old(self).is_inner(),
        ensures
            *final(self) is Empty,
            match *old(self) {
                NodePtr::Value(was) => twig == Some(*was),
                _ => twig is None,
            },
    {
        let mut taken = NodePtr::none();
        std::mem::swap(self, &mut taken);
        match taken {
            NodePtr::Value(twig) => Some(*twig),
            _ => None,
        }
    }

    /// The header of the node, for reading.
    pub fn header(&self) -> (header: &NodeHeader)
        ensures
            *header == self.hdr(),
    {
        match self.deref() {
            NodeRef::Node1(n1) => &n1.header,
            NodeRef::Node4(n4) => &n4.header,
            NodeRef::Node16(n16) => &n16.header,
            NodeRef::Node48(n48) => &n48.header,
            NodeRef::Node256(n256) => &n256.header,
            NodeRef::Empty => none_header_ref(),
            NodeRef::Value(twig) => &twig.header,
        }
    }

    /// The header of the node, for writing.
    pub fn header_mut(&mut self) -> (header: &mut NodeHeader)
        requires
            old(self).is_inner(),
        ensures
            *header == old(self).hdr(),
            *final(self) == old(self).with_header(*final(header)),
    {
        match self {
            NodePtr::Node1(n1) => &mut n1.header,
            NodePtr::Node4(n4) => &mut n4.header,
            NodePtr::Node16(n16) => &mut n16.header,
            NodePtr::Node48(n48) => &mut n48.header,
            NodePtr::Node256(n256) => &mut n256.header,
            _ => unreached(),
        }
    }

    /// The compressed path of the node.
    pub fn prefix(&self) -> (bytes: &[u8])
        requires
            self.hdr().fits(),
        ensures
            bytes@ == self.hdr().prefix(),
    {
        self.header().prefix_bytes()
    }

    /// The number of children that the header gives.
    pub fn len(&self) -> (n: usize)
        ensures
            n == self.hdr().children,
    {
        self.header().children as usize
    }

    /// The child for `byte`.
    pub fn child(&self, byte: u8) -> (found: Option<&NodePtr>)
        requires
            self.layout(),
            !(self is Value),
        ensures
            match found {
                Some(node) => *node == self.kid(byte) && !(node is Empty),
                None => self.kid(byte) is Empty,
            },
    {
        match self.deref() {
            NodeRef::Node1(n1) => n1.child(byte),
            NodeRef::Node4(n4) => n4.child(byte),
            NodeRef::Node16(n16) => n16.child(byte),
            NodeRef::Node48(n48) => n48.child(byte),
            NodeRef::Node256(n256) => n256.child(byte),
            NodeRef::Empty => None,
            NodeRef::Value(_) => unreached(),
        }
    }

    /// Lists the children by byte, in ascending order. There are none below a leaf or nothing.
    pub fn node_iter(&self) -> (iter: NodeIter<'_>)
        requires
            self.layout(),
        ensures
            iter.node == self,
            !self.is_inner() ==> iter.children@.len() == 0,
            *self matches NodePtr::Node1(n1) ==> iter.children@ == seq![(Some(n1.key), &n1.slot)],
            self.is_inner() && self.live() > 0 ==> lists(iter.children@, |x: u8| self.kid(x)),
            self.is_inner() && !(self is Node1) ==> lists(iter.children@, |x: u8| self.kid(x)),
            self.is_inner() && (self.live() > 0 || !(self is Node1)) ==> {
                &&& iter.children@.len() == self.live()
                &&& forall|x: u8|
                    !(#[trigger] self.kid(x) is Empty) <==> exists|j: int|
                        0 <= j < iter.children@.len() && (#[trigger] iter.children@[j]).0 == Some(x)
                &&& forall|j: int|
                    0 <= j < iter.children@.len() ==> (#[trigger] iter.children@[j]).0 is Some
                        && *iter.children@[j].1 == self.kid(iter.children@[j].0->0)
                &&& forall|i: int, j: int|
                    0 <= i < j < iter.children@.len() ==> (#[trigger] iter.children@[i]).0->0 < (
                    #[trigger] iter.children@[j]).0->0
            },
    {
        let children: Vec<(Option<u8>, &NodePtr)> = match self.deref() {
            NodeRef::Node1(n1) => {
                assert((|x: u8| n1.kid(x)) =~= (|x: u8| self.kid(x)));
                n1.iter()
            },
            NodeRef::Node4(n4) => {
                assert((|x: u8| n4.kid(x)) =~= (|x: u8| self.kid(x)));
                n4.iter()
            },
            NodeRef::Node16(n16) => {
                assert((|x: u8| n16.kid(x)) =~= (|x: u8| self.kid(x)));
                n16.iter()
            },
            NodeRef::Node48(n48) => {
                assert((|x: u8| n48.kid(x)) =~= (|x: u8| self.kid(x)));
                n48.iter()
            },
            NodeRef::Node256(n256) => {
                assert((|x: u8| n256.kid(x)) =~= (|x: u8| self.kid(x)));
                n256.iter()
            },
            NodeRef::Empty => Vec::new(),
            NodeRef::Value(_) => Vec::new(),
        };
        proof {
            if self.is_inner() && (self.live() > 0 || !(self is Node1)) {
                law_listing(children@, *self);
            }
        }
        NodeIter { node: self, children }
    }

    /// Asserts that the header gives the number of children that there are.
    pub fn assert_size(&self)
        requires
            self.size_agrees(),
    {
        runtime_assert(self.has_size());
    }

    /// Says whether the header gives the number of children that there are.
    pub fn has_size(&self) -> (agrees: bool)
        ensures
            agrees == self.size_agrees(),
    {
        let count: usize = match self.deref() {
            NodeRef::Node1(_) => 1,
            NodeRef::Node4(n4) => count_filled(&n4.slots),
            NodeRef::Node16(n16) => count_filled(&n16.slots),
            NodeRef::Node48(n48) => count_filled(&n48.slots),
            NodeRef::Node256(n256) => count_filled(&n256.slots),
            NodeRef::Empty => 0,
            NodeRef::Value(_) => 0,
        };
        count == self.len()
    }

    /// Says whether there is a child for every place, going by the header.
    pub fn is_full(&self) -> (yes: bool)
        requires
            self.is_inner(),
        ensures
            yes == (self.hdr().children == self.capacity()),
    {
        match self.deref() {
            NodeRef::Node1(_) => 1 == self.len(),
            NodeRef::Node4(_) => 4 == self.len(),
            NodeRef::Node16(_) => 16 == self.len(),
            NodeRef::Node48(_) => 48 == self.len(),
            NodeRef::Node256(_) => 256 == self.len(),
            _ => unreached(),
        }
    }

    /// Replaces the node by one of the next larger size, with the same header and children.
    pub fn upgrade(&mut self)
        requires
            old(self).is_inner(),
            !(*old(self) is Node256),
            old(self).layout(),
        ensures
            final(self).is_inner(),
            final(self).hdr() == old(self).hdr(),
            final(self).capacity() == larger(old(self).capacity()),
            old(self).grows_into(*final(self)),
            final(self).layout(),
            final(self).live() == old(self).live(),
            forall|x: u8| #[trigger] final(self).kid(x) == old(self).kid(x),
    {
        let old_header = *self.header();
        let mut swapped = NodePtr::none();
        std::mem::swap(self, &mut swapped);
        *self = match swapped.deref_mut() {
            NodeMut::Node1(n1) => NodePtr::node4(n1.upgrade()),
            NodeMut::Node4(n4) => NodePtr::node16(n4.upgrade()),
            NodeMut::Node16(n16) => NodePtr::node48(n16.upgrade()),
            NodeMut::Node48(n48) => NodePtr::node256(n48.upgrade()),
            _ => unreached(),
        };
        let ghost moved = *self;
        *self.header_mut() = old_header;
        proof {
            moved.lemma_with_header(old_header);
        }
    }

    /// The number of children and the slot for `byte`. A child that is not there gets a free
    /// slot where `is_add` is set, in a larger node where this one is full. With
    /// `clear_child_index` the byte is left out of the node's index, since the child is about
    /// to go.
    pub fn child_mut(&mut self, byte: u8, is_add: bool, clear_child_index: bool) -> (place: Option<
        (&mut u16, &mut NodePtr),
    >)
        requires
            old(self).layout(),
            old(self).is_inner() || (*old(self) is Empty && !is_add),
            old(self).hdr().children == old(self).live(),
        ensures
            place is None <==> old(self).kid(byte) is Empty && !is_add,
            place is None ==> *final(self) == *old(self),
            place matches Some((children, slot)) ==> {
                &&& *children == old(self).hdr().children
                &&& *slot == old(self).kid(byte)
                &&& final(self).is_inner()
                &&& final(self).capacity() == if old(self).kid(byte) is Empty
                    && old(self).live() == old(self).capacity() {
                    larger(old(self).capacity())
                } else {
                    old(self).capacity()
                }
                &&& exists|room: NodePtr|
                    {
                        &&& if old(self).kid(byte) is Empty && old(self).live() == old(self).capacity() {
                            old(self).grows_into(room)
                        } else {
                            room == *old(self)
                        }
                        &&& #[trigger] room.stores(
                            *final(self),
                            byte,
                            clear_child_index,
                            *final(slot),
                        )
                    }
                &&& final(self).hdr() == old(self).hdr().with_children(*final(children))
                &&& (*final(slot) is Empty) == clear_child_index ==> final(self).layout()
                &&& *final(slot) is Empty ==> final(self).layout_without(byte)
                &&& final(self).kid(byte) == if clear_child_index && *final(self) is Node48 {
                    NodePtr::Empty
                } else {
                    *final(slot)
                }
                &&& forall|x: u8| x != byte ==> #[trigger] final(self).kid(x) == old(self).kid(x)
                &&& final(self).live() + weight(!(old(self).kid(byte) is Empty)) == old(self).live()
                    + weight(!(*final(slot) is Empty))
            },
    {
        let ghost before = *self;
        proof {
            self.lemma_live();
        }
        if self.child(byte).is_none() {
            if !is_add {
                return None;
            }
            if self.is_full() {
                self.upgrade()
            }
        }
        proof {
            self.lemma_kid_of(before);
        }
        let ghost room = *self;
        let ghost end = *final(self);
        let place = match self.deref_mut() {
            NodeMut::Node1(n1) => n1.child_mut(byte),
            NodeMut::Node4(n4) => n4.child_mut(byte),
            NodeMut::Node16(n16) => n16.child_mut(byte),
            NodeMut::Node48(n48) => n48.child_mut(byte, clear_child_index),
            NodeMut::Node256(n256) => n256.child_mut(byte),
            _ => unreached(),
        };
        assert(room.stores(end, byte, clear_child_index, *final(place.1)));
        Some(place)
    }

    /// Says whether the number of children is the one at which a node of this size is given up.
    pub fn should_shrink(&self) -> (yes: bool)
        ensures
            yes == self.shrinks(),
    {
        match (self.deref(), self.len()) {
            (NodeRef::Node1(_), 0) => true,
            (NodeRef::Node4(_), 1) => true,
            (NodeRef::Node16(_), 4) => true,
            (NodeRef::Node48(_), 16) => true,
            (NodeRef::Node256(_), 48) => true,
            (_, _) => false,
        }
    }

    /// Replaces a node that has become too large for its children by one of the next smaller
    /// size, with the same header and children, and one without children by nothing. Says
    /// whether nothing is left.
    pub fn shrink_to_fit(&mut self) -> (dropped: bool)
        requires
            old(self).shrinks() ==> old(self).layout() && old(self).hdr().children == old(self).live(),
        ensures
            dropped == (old(self).shrinks() && *old(self) is Node1),
            !old(self).shrinks() ==> *final(self) == *old(self),
            dropped ==> *final(self) is Empty,
            old(self).shrinks() && !dropped ==> {
                &&& final(self).is_inner()
                &&& final(self).hdr() == old(self).hdr()
                &&& final(self).capacity() == smaller(old(self).capacity())
                &&& old(self).shrinks_into(*final(self))
                &&& final(self).layout()
                &&& final(self).live() == old(self).live()
                &&& forall|x: u8| #[trigger] final(self).kid(x) == old(self).kid(x)
            },
    {
        if !self.should_shrink() {
            return false;
        }
        let old_header = *self.header();
        let mut dropped = false;
        let mut swapped = NodePtr::none();
        std::mem::swap(self, &mut swapped);
        *self = match swapped.deref_mut() {
            NodeMut::Node1(_) => {
                dropped = true;
                NodePtr::none()
            },
            NodeMut::Node4(n4) => NodePtr::node1(n4.downgrade()),
            NodeMut::Node16(n16) => NodePtr::node4(n16.downgrade()),
            NodeMut::Node48(n48) => NodePtr::node16(n48.downgrade()),
            NodeMut::Node256(n256) => NodePtr::node48(n256.downgrade()),
            _ => unreached(),
        };
        if !dropped {
            let ghost moved = *self;
            *self.header_mut() = old_header;
            proof {
                moved.lemma_with_header(old_header);
            }
        }
        dropped
    }

    /// Cuts the compressed path where `partial_path` leaves it: the shared part goes to a new
    /// node with room for four, whose only child is the old node with what is left of its path.
    pub fn truncate_prefix(&mut self, partial_path: &[u8])
        requires
            old(self).is_inner(),
            old(self).layout(),
            !old(self).hdr().prefix().is_prefix_of(partial_path@),
        ensures
            final(self).layout(),
            final(self).live() == 1,
            old(self).cut(
                *final(self),
                shared_len(partial_path@, old(self).hdr().prefix()) as int,
            ),
    {
        let ghost before = *self;
        let prefix = self.prefix();
        let shared_bytes = count_shared(partial_path, prefix);
        proof {
            lemma_shared_len(partial_path@, prefix@);
            if shared_bytes == prefix@.len() {
                assert(prefix@ =~= prefix@.take(shared_bytes as int));
                assert(partial_path@.subrange(0, prefix@.len() as int) =~= partial_path@.take(
                    shared_bytes as int,
                ));
            }
        }
        let mut new_node4: Box<Node4> = Box::new(Node4::default());
        new_node4.header = NodeHeader::with_path(slice_subrange(prefix, 0, shared_bytes));
        assert(prefix@.subrange(0, shared_bytes as int) =~= prefix@.take(shared_bytes as int));
        let byte = prefix[shared_bytes];
        let mut old_cursor = NodePtr::node4(new_node4);
        let ghost fresh = old_cursor;
        assert(forall|x: u8| #[trigger] fresh.kid(x) is Empty);
        std::mem::swap(self, &mut old_cursor);
        // one byte more goes, since it is now the byte at which the new node branches
        old_cursor.header_mut().strip(shared_bytes + 1);
        let (_children, child) = self.child_mut(byte, true, false).unwrap();
        *child = old_cursor;
        let ghost placed = *self;
        self.header_mut().children = 1;
        proof {
            placed.lemma_with_header(self.hdr());
            assert forall|x: u8| x != byte implies #[trigger] self.kid(x) is Empty by {
                assert(placed.kid(x) == fresh.kid(x));
            }
            let keys = fresh->Node4_0.keys@;
            let slots = fresh->Node4_0.slots@;
            assert(keyed_kid(keys, slots, byte) == fresh.kid(byte));
            assert forall|i: int| #[trigger] keyed_place(keys, slots, byte, i) implies i == 0 by {
                assert(slots[0] is Empty);
            }
            assert(self->Node4_0.keys@ =~= seq![Some(byte), None, None, None]);
        }
    }
}

impl Default for NodePtr {
    fn default() -> (node: NodePtr)
        ensures
            node is Empty,
    {
        NodePtr::none()
    }
}

} // verus!

//! The tree below a pointer: which keys it holds, when it is well formed, and how it is put
//! right after a key has gone.

use crate::bytes::{clash, lemma_shared_len, shared_len};
use crate::counting::weight;
use crate::header::{padded, TwigNode};
use crate::pointer::{NodeMut, NodePtr};
use crate::shape::{no_kids, stem_len, Shape};
use crate::slots::{holds, indexed_place};
use vstd::prelude::*;
use vstd::slice::slice_subrange;

verus! {

/// Putting the same bytes in front of two strings does not change whether one begins with the
/// other.
pub proof fn lemma_prefix_of_sums(p: Seq<u8>, a: Seq<u8>, b: Seq<u8>)
    ensures
        (p + a).is_prefix_of(p + b) == a.is_prefix_of(b),
{
    if a.is_prefix_of(b) {
        assert forall|i: int| 0 <= i < a.len() implies a[i] == b[i] by {
            assert(b.subrange(0, a.len() as int)[i] == b[i]);
        }
        assert((p + a) =~= (p + b).subrange(0, (p + a).len() as int));
    }
    if (p + a).is_prefix_of(p + b) {
        assert forall|i: int| 0 <= i < a.len() implies a[i] == b[i] by {
            assert((p + b).subrange(0, (p + a).len() as int)[p.len() + i] == b[i]);
            assert((p + a)[p.len() + i] == a[i]);
        }
        assert(a =~= b.subrange(0, a.len() as int));
    }
}

/// Strings that differ at a position do not clash.
pub proof fn lemma_apart(a: Seq<u8>, b: Seq<u8>, i: int)
    requires
        0 <= i < a.len(),
        i < b.len(),
        a[i] != b[i],
    ensures
        !clash(a, b),
{
    if a.is_prefix_of(b) {
        assert(b.subrange(0, a.len() as int)[i] == b[i]);
    }
    if b.is_prefix_of(a) {
        assert(a.subrange(0, b.len() as int)[i] == a[i]);
    }
}

/// A number of children at which a node may have to give way to a smaller one.
pub open spec fn at_limit(n: int) -> bool {
    n == 48 || n == 16 || n == 4 || n == 1 || n == 0
}

impl NodePtr {
    /// The whole tree is well formed: at every node the slots are in order, the header counts
    /// the children, and the node is of the size that suits their number.
    pub open spec fn wf(self) -> bool
        decreases self,
        via Self::wf_decreases
    {
        self.is_inner() ==> {
            &&& self.layout()
            &&& self.hdr().children == self.live()
            &&& self.least() <= self.live()
            &&& forall|x: u8| !(#[trigger] self.kid(x) is Empty) ==> self.kid(x).wf()
        }
    }

    #[via_fn]
    proof fn wf_decreases(self) {
        assert forall|x: u8| !(#[trigger] self.kid(x) is Empty) implies decreases_to!(
            self => self.kid(x)
        ) by {
            self.lemma_kid_is_smaller(x);
        }
    }

    /// A child is a part of the node that has it.
    pub proof fn lemma_kid_is_smaller(self, x: u8)
        requires
            !(self.kid(x) is Empty),
        ensures
            decreases_to!(self => self.kid(x)),
    {
        match self {
            NodePtr::Node4(n4) => {
                let i = choose|i: int| holds(n4.keys@, n4.slots@, x, i);
                assert(decreases_to!(n4.slots@ => n4.slots@[i]));
            },
            NodePtr::Node16(n16) => {
                let i = choose|i: int| holds(n16.keys@, n16.slots@, x, i);
                assert(decreases_to!(n16.slots@ => n16.slots@[i]));
            },
            NodePtr::Node48(n48) => {
                let i = n48.key_hashes@[x as int]->0 as int;
                assert(decreases_to!(n48.slots@ => n48.slots@[i]));
            },
            NodePtr::Node256(n256) => {
                assert(decreases_to!(n256.slots@ => n256.slots@[x as int]));
            },
            _ => {},
        }
    }

    /// `path` leads through this node: it begins with the compressed path and goes on.
    pub open spec fn leads(self, path: Seq<u8>) -> bool {
        &&& self.is_inner()
        &&& self.hdr().prefix().len() < path.len()
        &&& self.hdr().prefix().is_prefix_of(path)
    }

    /// The byte at which `path` branches off from this node.
    pub open spec fn branch(self, path: Seq<u8>) -> u8 {
        path[self.hdr().prefix().len() as int]
    }

    /// What is left of `path` below this node.
    pub open spec fn rest(self, path: Seq<u8>) -> Seq<u8> {
        path.skip(self.hdr().prefix().len() as int + 1)
    }

    /// The path that leads through this node to the child for `x` and on along `path`.
    pub open spec fn join(self, x: u8, path: Seq<u8>) -> Seq<u8> {
        self.hdr().prefix() + seq![x] + path
    }

    /// What is found at the end of `path`.
    pub open spec fn node_at(self, path: Seq<u8>) -> NodePtr
        decreases path.len(),
    {
        if path.len() == 0 {
            self
        } else if self.leads(path) {
            self.kid(self.branch(path)).node_at(self.rest(path))
        } else {
            NodePtr::Empty
        }
    }

    /// The leaf that the tree holds for `key`.
    pub open spec fn lookup(self, key: Seq<u8>) -> Option<TwigNode> {
        match self.node_at(key) {
            NodePtr::Value(twig) => Some(*twig),
            _ => None,
        }
    }

    /// The keys that the tree holds, with their leaves.
    pub open spec fn entries(self) -> Map<Seq<u8>, TwigNode> {
        Map::new(|key: Seq<u8>| self.lookup(key) is Some, |key: Seq<u8>| self.lookup(key)->0)
    }

    /// No key in the tree clashes with `key`.
    pub open spec fn admits(self, key: Seq<u8>) -> bool {
        forall|k: Seq<u8>| (#[trigger] self.lookup(k)) is Some ==> !clash(k, key)
    }

    /// The tree from which the key `path` has just been taken out, before any node has been
    /// adapted: the last node on the way has one child less, and all else is well formed.
    pub open spec fn pending(self, path: Seq<u8>) -> bool
        decreases path.len(),
    {
        &&& self.leads(path)
        &&& self.layout()
        &&& self.hdr().children == self.live()
        &&& forall|x: u8|
            x != self.branch(path) && !(#[trigger] self.kid(x) is Empty) ==> self.kid(x).wf()
        &&& if self.rest(path).len() == 0 {
            &&& self.kid(self.branch(path)) is Empty
            &&& self.least() <= self.live() + 1
        } else {
            &&& self.least() <= self.live()
            &&& self.kid(self.branch(path)).pending(self.rest(path))
        }
    }

    /// The tree in which room has been made for the key `path`: its slot is there and empty, and
    /// all else is well formed. The index of the node that has the slot may lead to it already.
    pub open spec fn open_at(self, path: Seq<u8>) -> bool
        decreases path.len(),
    {
        &&& self.leads(path)
        &&& self.hdr().children == self.live()
        &&& forall|x: u8|
            x != self.branch(path) && !(#[trigger] self.kid(x) is Empty) ==> self.kid(x).wf()
        &&& if self.rest(path).len() == 0 {
            &&& self.layout_without(self.branch(path))
            &&& self.kid(self.branch(path)) is Empty
            &&& self.least() <= self.live() + 1
        } else {
            &&& self.layout()
            &&& self.least() <= self.live()
            &&& self.kid(self.branch(path)).open_at(self.rest(path))
        }
    }

    /// Every node that `path` leads through is there, but that the last byte may have no child.
    pub open spec fn chained(self, path: Seq<u8>) -> bool
        decreases path.len(),
    {
        &&& self.hdr().fits()
        &&& self.hdr().prefix().is_prefix_of(path)
        &&& path.len() > self.hdr().prefix().len() + 1 ==> {
            &&& self.is_inner()
            &&& !(self.kid(self.branch(path)) is Empty)
            &&& self.kid(self.branch(path)).chained(self.rest(path))
        }
    }

    /// The number of children, besides what is to come, of the node that has the slot for
    /// `path` or will have it once room is made: a node that is made where there is nothing has
    /// none, and one that is made where a compressed path is cut has one.
    pub open spec fn size_for(self, path: Seq<u8>) -> int
        decreases path.len(),
    {
        if self.leads(path) {
            if self.rest(path).len() == 0 {
                self.hdr().children as int
            } else {
                self.kid(self.branch(path)).size_for(self.rest(path))
            }
        } else if self.is_inner() && path.len() == shared_len(
            path.drop_last(),
            self.hdr().prefix(),
        ) + 1 {
            1
        } else {
            0
        }
    }

    /// The number of children of the last node on the way along `path`.
    pub open spec fn parent_size(self, path: Seq<u8>) -> int
        decreases path.len(),
    {
        if self.leads(path) && self.rest(path).len() > 0 {
            self.kid(self.branch(path)).parent_size(self.rest(path))
        } else {
            self.hdr().children as int
        }
    }

    /// A node that has been made for `path`: it has no child yet, and a compressed path of all
    /// but the last byte, as far as they fit.
    pub open spec fn made_for(self, path: Seq<u8>) -> bool {
        self matches NodePtr::Node1(n1) && {
            &&& n1.header.path@ == padded(path.take(stem_len(path)))
            &&& n1.header.path_len == stem_len(path)
            &&& n1.header.children == 0
            &&& n1.header.ts == 0
            &&& n1.key == 0
            &&& n1.slot is Empty
        }
    }

    /// `way` takes the place of this tree, so that `path` leads through it: a node that has been
    /// made for it where there was nothing, or the node with its compressed path cut where `path`
    /// leaves it.
    pub open spec fn makes_way(self, way: NodePtr, path: Seq<u8>) -> bool {
        if self.is_inner() {
            self.cut(way, shared_len(path.drop_last(), self.hdr().prefix()) as int)
        } else {
            self is Empty && way.made_for(path)
        }
    }

    /// `after` is this node with another child, or none, in the place for the byte where `path`
    /// branches off, and with their number in its header. A child that is new to a full node
    /// goes into a node of the next larger size. With `clear_child_index` the byte has left the
    /// index. All else is as it was, slot by slot.
    pub open spec fn relaid(
        self,
        after: NodePtr,
        path: Seq<u8>,
        clear_child_index: bool,
    ) -> bool {
        let x = self.branch(path);
        &&& after.hdr() == self.hdr().with_children(after.hdr().children)
        &&& after.hdr().children + weight(!(self.kid(x) is Empty)) == self.hdr().children + weight(
            !(after.kid(x) is Empty),
        )
        &&& exists|room: NodePtr|
            {
                &&& if self.kid(x) is Empty && self.live() == self.capacity() {
                    self.grows_into(room)
                } else {
                    room == self
                }
                &&& #[trigger] room.stores(after, x, clear_child_index, after.kid(x))
            }
    }

    /// `after` is this tree with `node` in the slot for `path`, for which way is made where it
    /// has to be. With `clear` the byte that led to the slot has left the index of its node.
    pub open spec fn puts(self, after: NodePtr, path: Seq<u8>, clear: bool, node: NodePtr) -> bool
        decreases
            path.len(),
            if self.leads(path) {
                0int
            } else {
                1
            },
    {
        if path.len() == 0 {
            after == node
        } else if self.leads(path) {
            let x = self.branch(path);
            let rest = self.rest(path);
            &&& self.relaid(after, path, clear && rest.len() == 0)
            &&& self.kid(x).puts(after.kid(x), rest, clear, node)
        } else {
            exists|way: NodePtr| #[trigger]
                self.makes_way(way, path) && way.leads(path) && way.puts(after, path, clear, node)
        }
    }

    /// `after` is this node in the size that suits the number of its children: it is replaced by
    /// one of the next smaller size, or by nothing, where it has become too large.
    pub open spec fn settles(self, after: NodePtr) -> bool {
        if !self.shrinks() {
            after == self
        } else if self is Node1 {
            after is Empty
        } else {
            &&& self.shrinks_into(after)
            &&& after.hdr() == self.hdr()
        }
    }

    /// `after` is this tree with every node on the way along `path` settled, from below upwards.
    /// A child that goes leaves the count and the index of its node.
    pub open spec fn trims(self, after: NodePtr, path: Seq<u8>) -> bool
        decreases path.len(),
    {
        let x = self.branch(path);
        let rest = self.rest(path);
        if self.leads(path) && rest.len() > 0 {
            exists|mid: NodePtr|
                {
                    &&& self.kid(x).trims(mid.kid(x), rest)
                    &&& self.relaid(mid, path, mid.kid(x) is Empty)
                    &&& #[trigger] mid.settles(after)
                }
        } else {
            self.settles(after)
        }
    }

    /// `after` is this tree without the key `path`, which it holds: its slot is emptied, and the
    /// nodes on the way are settled if the node that had the slot has come to a number of
    /// children at which a node may have to be.
    pub open spec fn removes(self, after: NodePtr, path: Seq<u8>) -> bool {
        exists|mid: NodePtr|
            {
                &&& #[trigger] self.puts(mid, path, true, NodePtr::Empty)
                &&& if path.len() > 0 && at_limit(mid.parent_size(path)) {
                    mid.trims(after, path)
                } else {
                    after == mid
                }
            }
    }

    /// A tree that makes way becomes what the way becomes.
    pub proof fn lemma_puts_aside(
        self,
        way: NodePtr,
        after: NodePtr,
        path: Seq<u8>,
        clear: bool,
        node: NodePtr,
    )
        requires
            path.len() > 0,
            !self.leads(path),
            self.makes_way(way, path),
            way.leads(path),
        ensures
            way.puts(after, path, clear, node) ==> self.puts(after, path, clear, node),
    {
    }

    /// `after` holds what this tree holds, and `twig` for the key `path`.
    pub open spec fn gains(self, after: NodePtr, path: Seq<u8>, twig: TwigNode) -> bool {
        &&& after.wf()
        &&& self.puts(after, path, false, NodePtr::Value(Box::new(twig)))
        &&& after.shape() == self.shape().insert(path, twig)
        &&& !(after is Empty)
        &&& forall|k: Seq<u8>|
            #[trigger] after.lookup(k) == if k == path {
                Some(twig)
            } else {
                self.lookup(k)
            }
    }

    /// `after` holds what this tree holds, and has room for the key `path`: it is the tree that
    /// an insertion makes, without the leaf.
    pub open spec fn opens(self, after: NodePtr, path: Seq<u8>) -> bool {
        &&& if path.len() == 0 {
            after is Empty
        } else {
            after.open_at(path)
        }
        &&& self.puts(after, path, false, NodePtr::Empty)
        &&& forall|twig: TwigNode|
            after.shape() == (#[trigger] self.shape().insert(path, twig)).clear(path)
        &&& forall|k: Seq<u8>| #[trigger] after.lookup(k) == self.lookup(k)
    }

    /// `after` holds what this tree holds but the key `path`, and its nodes are yet to be
    /// adapted.
    pub open spec fn loses(self, after: NodePtr, path: Seq<u8>) -> bool {
        &&& if path.len() == 0 {
            after is Empty
        } else {
            after.pending(path)
        }
        &&& self.puts(after, path, true, NodePtr::Empty)
        &&& after.shape() == self.shape().clear(path)
        &&& forall|k: Seq<u8>|
            #[trigger] after.lookup(k) == if k == path {
                None
            } else {
                self.lookup(k)
            }
    }

    /// `after` holds what this tree holds.
    pub open spec fn keeps(self, after: NodePtr) -> bool {
        &&& after.wf()
        &&& (after is Empty) == (self is Empty)
        &&& after.shape() == self.shape()
        &&& forall|k: Seq<u8>| #[trigger] after.lookup(k) == self.lookup(k)
    }

    /// A leaf can be added along `path`: either the tree is well formed, or this node has been
    /// made for it and still lacks the child.
    pub open spec fn ready(self, path: Seq<u8>) -> bool {
        ||| self.wf()
        ||| {
            &&& self.leads(path)
            &&& self.layout()
            &&& self.hdr().children == self.live()
            &&& self.least() <= self.live() + 1
            &&& self.kid(self.branch(path)) is Empty
            &&& forall|x: u8| !(#[trigger] self.kid(x) is Empty) ==> self.kid(x).wf()
        }
    }

    /// `after` is this node with another child, or none, where `path` branches off.
    pub open spec fn rebranched(self, after: NodePtr, path: Seq<u8>) -> bool {
        &&& after.is_inner()
        &&& after.hdr().prefix() == self.hdr().prefix()
        &&& after.hdr().ts == self.hdr().ts
        &&& after.hdr().children == after.live()
        &&& forall|x: u8|
            x != self.branch(path) ==> #[trigger] after.kid(x) == self.kid(x)
    }

    /// What a change of one child does to the lookups.
    pub proof fn lemma_rebranched(self, after: NodePtr, path: Seq<u8>)
        requires
            self.leads(path),
            self.rebranched(after, path),
        ensures
            after.leads(path),
            after.branch(path) == self.branch(path),
            after.rest(path) == self.rest(path),
            forall|k: Seq<u8>|
                #[trigger] after.lookup(k) == if self.leads(k) && self.branch(k) == self.branch(
                    path,
                ) {
                    after.kid(self.branch(path)).lookup(self.rest(k))
                } else {
                    self.lookup(k)
                },
            forall|k: Seq<u8>|
                #[trigger] self.leads(k) && self.branch(k) == self.branch(path) && self.rest(k)
                    == self.rest(path) ==> k == path,
            self.lookup(path) == self.kid(self.branch(path)).lookup(self.rest(path)),
            after.shape() == self.shape().with_kid(
                self.branch(path),
                after.kid(self.branch(path)).shape(),
            ),
            self.shape().leads(path),
            self.shape().branch(path) == self.branch(path),
            self.shape().rest(path) == self.rest(path),
            self.shape().kid(self.branch(path)) == self.kid(self.branch(path)).shape(),
    {
        self.lemma_shape();
        after.lemma_shape();
        assert(self.shape().leads(path));
        assert(self.shape().kid(self.branch(path)) == self.kid(self.branch(path)).shape());
        let x = self.branch(path);
        let changed = self.shape().with_kid(x, after.kid(x).shape());
        self.shape().lemma_with_kid(x, after.kid(x).shape());
        assert forall|y: u8| #[trigger] after.shape().kid(y) == changed.kid(y) by {
            if y != x {
                assert(after.kid(y) == self.kid(y));
                assert(self.shape().kid(y) == self.kid(y).shape());
            }
        }
        after.shape().lemma_equal(changed);
        assert forall|k: Seq<u8>|
            #[trigger] self.leads(k) && self.branch(k) == self.branch(path) && self.rest(k)
                == self.rest(path) implies k == path by {
            self.lemma_split(k);
            self.lemma_split(path);
        }
    }

    /// Where the path ends, a leaf is added by storing it and taken out by storing nothing.
    pub proof fn lemma_path_end(self, after: NodePtr, path: Seq<u8>)
        requires
            path.len() == 0,
            !self.is_inner(),
        ensures
            after is Value ==> self.gains(after, path, *after->Value_0),
            after is Empty ==> self.loses(after, path),
            self is Empty && after is Empty ==> self.opens(after, path),
    {
        assert forall|k: Seq<u8>| k.len() == 0 implies k == path by {
            assert(k =~= path);
        }
    }

    /// Adding a leaf below a child adds it below the node.
    pub proof fn lemma_gains_step(self, after: NodePtr, path: Seq<u8>, twig: TwigNode)
        requires
            self.leads(path),
            self.ready(path),
            self.rebranched(after, path),
            self.relaid(after, path, false),
            after.layout(),
            self.kid(self.branch(path)).gains(after.kid(self.branch(path)), self.rest(path), twig),
            after.least() <= after.live(),
        ensures
            self.gains(after, path, twig),
    {
        self.lemma_rebranched(after, path);
        let x = self.branch(path);
        assert forall|y: u8| !(#[trigger] after.kid(y) is Empty) implies after.kid(y).wf() by {
            if y != x {
                assert(self.kid(y) == after.kid(y));
            }
        }
        assert forall|k: Seq<u8>|
            #[trigger] after.lookup(k) == if k == path {
                Some(twig)
            } else {
                self.lookup(k)
            } by {
            if self.leads(k) && self.branch(k) == x {
                assert(after.kid(x).lookup(self.rest(k)) == if self.rest(k) == self.rest(path) {
                    Some(twig)
                } else {
                    self.kid(x).lookup(self.rest(k))
                });
            }
        }
    }

    /// Making room below a child makes room below the node.
    pub proof fn lemma_opens_step(self, after: NodePtr, path: Seq<u8>)
        requires
            self.leads(path),
            self.ready(path),
        ensures
            self.rebranched(after, path) && self.relaid(after, path, false) && self.kid(
                self.branch(path),
            ).opens(after.kid(self.branch(path)), self.rest(path)) && (if self.rest(path).len() == 0 {
                after.layout_without(self.branch(path)) && after.least() <= after.live() + 1
            } else {
                after.layout() && after.least() <= after.live()
            }) ==> self.opens(after, path),
    {
        let x = self.branch(path);
        let rest = self.rest(path);
        if self.rebranched(after, path) && self.kid(x).opens(after.kid(x), rest) {
            self.lemma_rebranched(after, path);
            self.lemma_shape();
            assert forall|y: u8| y != x && !(#[trigger] after.kid(y) is Empty) implies after.kid(
                y,
            ).wf() by {
                assert(self.kid(y) == after.kid(y));
            }
            assert forall|k: Seq<u8>| #[trigger] after.lookup(k) == self.lookup(k) by {
                if self.leads(k) && self.branch(k) == x {
                    assert(after.kid(x).lookup(self.rest(k)) == self.kid(x).lookup(self.rest(k)));
                }
            }
            assert forall|twig: TwigNode|
                after.shape() == (#[trigger] self.shape().insert(path, twig)).clear(path) by {
                let grown = self.kid(x).shape().insert(rest, twig);
                assert(after.kid(x).shape() == grown.clear(rest));
                self.shape().lemma_with_kid(x, grown);
                self.shape().lemma_with_kid_twice(x, grown, grown.clear(rest));
                assert(self.shape().insert(path, twig) == self.shape().with_kid(x, grown));
                assert(self.shape().with_kid(x, grown).leads(path));
            }
        }
    }

    /// Room is made for the empty key only where there is nothing.
    pub proof fn lemma_opens_empty(self, after: NodePtr, path: Seq<u8>)
        requires
            self.wf(),
            self.admits(path),
        ensures
            path.len() == 0 && self.opens(after, path) ==> self is Empty,
    {
        if path.len() == 0 && self.opens(after, path) {
            self.lemma_admits_access(path);
            self.lemma_shape();
            assert(after.lookup(path) == self.lookup(path));
        }
    }

    /// Trees that hold the same keys, and of which an insertion makes the same, open up to the
    /// same.
    pub proof fn lemma_same_opening(self, other: NodePtr, after: NodePtr, path: Seq<u8>)
        requires
            path.len() > 0,
            other.makes_way(self, path),
            !other.leads(path),
            self.leads(path),
            forall|k: Seq<u8>| #[trigger] self.lookup(k) == other.lookup(k),
            forall|twig: TwigNode|
                self.shape().insert(path, twig) == #[trigger] other.shape().insert(path, twig),
        ensures
            self.opens(after, path) ==> other.opens(after, path),
    {
        if self.opens(after, path) {
            other.lemma_puts_aside(self, after, path, false, NodePtr::Empty);
            assert forall|k: Seq<u8>| #[trigger] after.lookup(k) == other.lookup(k) by {
                assert(self.lookup(k) == other.lookup(k));
            }
            assert forall|twig: TwigNode|
                after.shape() == (#[trigger] other.shape().insert(path, twig)).clear(path) by {
                assert(self.shape().insert(path, twig) == other.shape().insert(path, twig));
            }
        }
    }

    /// The number of children of the last node on the way is found below the child on the way.
    pub proof fn lemma_parent_size_step(self, after: NodePtr, path: Seq<u8>)
        requires
            self.leads(path),
        ensures
            after.is_inner() && after.hdr().prefix() == self.hdr().prefix() ==> after.parent_size(
                path,
            ) == if self.rest(path).len() > 0 {
                after.kid(self.branch(path)).parent_size(self.rest(path))
            } else {
                after.hdr().children as int
            },
    {
    }

    /// Taking a leaf out below a child takes it out below the node.
    pub proof fn lemma_loses_step(self, after: NodePtr, path: Seq<u8>)
        requires
            self.leads(path),
            self.wf(),
        ensures
            self.rebranched(after, path) && self.relaid(
                after,
                path,
                self.rest(path).len() == 0,
            ) && after.layout() && self.kid(self.branch(path)).loses(
                after.kid(self.branch(path)),
                self.rest(path),
            ) && after.least() <= after.live() + (if self.rest(path).len() == 0 {
                1int
            } else {
                0
            }) ==> self.loses(after, path),
    {
        if self.rebranched(after, path) && self.kid(self.branch(path)).loses(
            after.kid(self.branch(path)),
            self.rest(path),
        ) {
            self.lemma_rebranched(after, path);
            let x = self.branch(path);
            assert forall|y: u8| y != x && !(#[trigger] after.kid(y) is Empty) implies after.kid(
                y,
            ).wf() by {
                assert(self.kid(y) == after.kid(y));
            }
            assert forall|k: Seq<u8>|
                #[trigger] after.lookup(k) == if k == path {
                    None
                } else {
                    self.lookup(k)
                } by {
                if self.leads(k) && self.branch(k) == x {
                    assert(after.kid(x).lookup(self.rest(k)) == if self.rest(k) == self.rest(path) {
                        None
                    } else {
                        self.kid(x).lookup(self.rest(k))
                    });
                }
            }
        }
    }

    /// A node whose child holds what it held before holds what it held before.
    pub proof fn lemma_keeps_step(self, after: NodePtr, path: Seq<u8>)
        requires
            self.leads(path),
            self.wf(),
        ensures
            self.rebranched(after, path) && after.layout() && self.kid(self.branch(path)).keeps(
                after.kid(self.branch(path)),
            ) && after.least() <= after.live() ==> self.keeps(after),
    {
        if self.rebranched(after, path) && self.kid(self.branch(path)).keeps(
            after.kid(self.branch(path)),
        ) {
            self.lemma_rebranched(after, path);
            let x = self.branch(path);
            self.lemma_shape();
            self.shape().lemma_with_own_kid(x);
            assert forall|y: u8| !(#[trigger] after.kid(y) is Empty) implies after.kid(y).wf() by {
                if y != x {
                    assert(self.kid(y) == after.kid(y));
                }
            }
            assert forall|k: Seq<u8>| #[trigger] after.lookup(k) == self.lookup(k) by {
                if self.leads(k) && self.branch(k) == x {
                    assert(after.kid(x).lookup(self.rest(k)) == self.kid(x).lookup(self.rest(k)));
                }
            }
        }
    }

    /// `after` is this node with its compressed path cut at `at`: a node above it branches there,
    /// with this node in its first slot. The bytes that leave the path move to its end.
    pub open spec fn cut(self, after: NodePtr, at: int) -> bool {
        let prefix = self.hdr().prefix();
        let child = after.kid(prefix[at]);
        &&& 0 <= at < prefix.len()
        &&& after matches NodePtr::Node4(n4) && {
            &&& n4.keys@ == seq![Some(prefix[at]), None, None, None]
            &&& n4.slots@.len() == 4
            &&& n4.slots@[0] == child
            &&& forall|i: int| 1 <= i < 4 ==> #[trigger] n4.slots@[i] is Empty
        }
        &&& after.hdr().prefix() == prefix.take(at)
        &&& after.hdr().path@ == padded(prefix.take(at))
        &&& after.hdr().children == 1
        &&& after.hdr().ts == 0
        &&& child == self.with_header(child.hdr())
        &&& child.hdr().prefix() == prefix.skip(at + 1)
        &&& child.hdr().path@ == self.hdr().path@.skip(at + 1) + self.hdr().path@.take(at + 1)
        &&& child.hdr().children == self.hdr().children
        &&& child.hdr().ts == self.hdr().ts
        &&& child.hdr().fits()
        &&& forall|x: u8| x != prefix[at] ==> #[trigger] after.kid(x) is Empty
    }

    /// Cutting the compressed path changes no lookup.
    pub proof fn lemma_cut_lookup(self, after: NodePtr, at: int)
        requires
            self.is_inner(),
            self.cut(after, at),
        ensures
            forall|k: Seq<u8>| #[trigger] after.lookup(k) == self.lookup(k),
    {
        let prefix = self.hdr().prefix();
        let child = after.kid(prefix[at]);
        self.lemma_with_header(child.hdr());
        assert forall|k: Seq<u8>| #[trigger] after.lookup(k) == self.lookup(k) by {
            if self.leads(k) {
                assert(prefix =~= k.subrange(0, prefix.len() as int));
                assert forall|i: int| 0 <= i < prefix.len() implies k[i] == prefix[i] by {
                    assert(k.subrange(0, prefix.len() as int)[i] == k[i]);
                }
                assert(prefix.take(at) =~= k.subrange(0, at));
                let below = after.rest(k);
                assert(prefix.skip(at + 1) =~= below.subrange(0, prefix.len() - at - 1));
                assert(child.leads(below));
                assert(child.branch(below) == self.branch(k));
                assert(child.rest(below) =~= self.rest(k));
                assert(after.lookup(k) == child.lookup(below));
            } else if after.leads(k) {
                let x = after.branch(k);
                let below = after.rest(k);
                if x == prefix[at] {
                    if child.leads(below) {
                        after.lemma_split(k);
                        child.lemma_split(below);
                        assert(prefix =~= k.subrange(0, prefix.len() as int));
                        assert(self.leads(k));
                    }
                    assert(child.lookup(below) is None);
                } else {
                    assert(after.kid(x) is Empty);
                    Self::lemma_empty_lookup();
                    assert(NodePtr::Empty.lookup(below) is None);
                }
            }
        }
    }

    /// Cutting the compressed path of a node cuts that of its shape.
    pub proof fn lemma_cut_shape(self, after: NodePtr, at: int)
        requires
            self.is_inner(),
            self.cut(after, at),
        ensures
            after.shape() == self.shape().cut(at),
    {
        let prefix = self.hdr().prefix();
        let child = after.kid(prefix[at]);
        let below = Shape::Inner(
            prefix.skip(at + 1),
            self.hdr().ts,
            self.shape()->Inner_2,
        );
        let top = Shape::Inner(prefix.take(at), 0, no_kids());
        self.lemma_shape();
        child.lemma_shape();
        after.lemma_shape();
        self.lemma_with_header(child.hdr());
        assert forall|x: u8| #[trigger] child.shape().kid(x) == below.kid(x) by {
            assert(child.kid(x) == self.kid(x));
            assert(self.shape().kid(x) == self.kid(x).shape());
        }
        child.shape().lemma_equal(below);
        top.lemma_with_kid(prefix[at], below);
        assert forall|x: u8| #[trigger] after.shape().kid(x) == top.with_kid(
            prefix[at],
            below,
        ).kid(x) by {
            assert(after.shape().kid(x) == after.kid(x).shape());
            if x != prefix[at] {
                assert(after.kid(x) is Empty);
            }
        }
        after.shape().lemma_equal(top.with_kid(prefix[at], below));
    }

    /// Where a path leaves the compressed path of a node, the cut makes room for it.
    pub proof fn lemma_cut_ready(self, after: NodePtr, path: Seq<u8>)
        requires
            self.is_inner(),
            self.wf(),
            self.admits(path),
            path.len() > 0,
            !self.leads(path),
            self.cut(after, shared_len(path.drop_last(), self.hdr().prefix()) as int),
            after.layout(),
            after.live() == 1,
        ensures
            after.leads(path),
            after.ready(path),
            after.admits(path),
            after.node_at(path) == self.node_at(path),
            after.size_for(path) == self.size_for(path),
            forall|twig: TwigNode|
                after.shape().insert(path, twig) == #[trigger] self.shape().insert(path, twig),
    {
        let prefix = self.hdr().prefix();
        let partial = path.drop_last();
        let at = shared_len(partial, prefix) as int;
        let child = after.kid(prefix[at]);
        lemma_shared_len(partial, prefix);
        assert forall|i: int| 0 <= i < at implies prefix[i] == path[i] by {
            assert(prefix.take(at)[i] == partial.take(at)[i]);
        }
        assert(prefix.take(at) =~= path.subrange(0, at));
        assert(after.leads(path));
        self.lemma_cut_lookup(after, at);
        self.lemma_with_header(child.hdr());
        assert(after.branch(path) == path[at]);
        if path[at] == prefix[at] {
            assert(at == partial.len());
            let key = self.lemma_holds_key();
            assert forall|i: int| 0 <= i < path.len() implies path[i] == key[i] by {
                assert(key.subrange(0, prefix.len() as int)[i] == prefix[i]);
            }
            assert(path =~= key.subrange(0, path.len() as int));
            assert(clash(key, path));
            assert(false);
        }
        assert(child.wf()) by {
            assert forall|x: u8| !(#[trigger] child.kid(x) is Empty) implies child.kid(x).wf() by {
                assert(self.kid(x) == child.kid(x));
            }
        }
        assert forall|x: u8| !(#[trigger] after.kid(x) is Empty) implies after.kid(x).wf() by {}
        Self::lemma_empty_lookup();
        assert(after.kid(after.branch(path)) is Empty);
        assert(NodePtr::Empty.node_at(after.rest(path)) is Empty);
        assert(NodePtr::Empty.size_for(after.rest(path)) == 0);
        self.lemma_cut_shape(after, at);
        self.lemma_shape();
        after.lemma_shape();
        assert(after.shape().leads(path));
        assert(after.shape().kid(path[at]) is Empty);
        assert(after.rest(path) =~= path.skip(at + 1));
        assert(!self.shape().leads(path));
    }

    /// A path leads through a node exactly when it still begins with the compressed path after
    /// its last byte has been taken off.
    pub proof fn lemma_leads_partial(self, path: Seq<u8>)
        requires
            path.len() > 0,
        ensures
            self.is_inner() ==> self.leads(path) == self.hdr().prefix().is_prefix_of(
                path.drop_last(),
            ),
    {
        let prefix = self.hdr().prefix();
        let partial = path.drop_last();
        if prefix.len() < path.len() {
            assert(path.subrange(0, prefix.len() as int) =~= partial.subrange(
                0,
                prefix.len() as int,
            ));
        }
    }

    /// A key that is to be added does not lead past a leaf.
    pub proof fn lemma_admits_leaf(self, path: Seq<u8>)
        requires
            self.admits(path),
            path.len() > 0,
        ensures
            !(self is Value),
    {
        if self is Value {
            assert(self.lookup(Seq::empty()) is Some);
            assert(Seq::<u8>::empty() =~= path.subrange(0, 0));
            assert(clash(Seq::empty(), path));
        }
    }

    /// Every node that has children holds a key, which goes on from its compressed path.
    pub proof fn lemma_holds_key(self) -> (key: Seq<u8>)
        requires
            self.wf(),
            !(self is Empty),
        ensures
            self.lookup(key) is Some,
            self.is_inner() ==> self.leads(key),
        decreases self,
    {
        if self is Value {
            Seq::empty()
        } else {
            self.lemma_live();
            let x = choose|x: u8| !(#[trigger] self.kid(x) is Empty);
            self.lemma_kid_is_smaller(x);
            let below = self.kid(x).lemma_holds_key();
            self.lemma_join(x, below);
            self.join(x, below)
        }
    }

    /// Two paths through the same child of a node clash exactly when their rests do.
    pub proof fn lemma_clash_join(self, x: u8, a: Seq<u8>, b: Seq<u8>)
        ensures
            clash(self.join(x, a), self.join(x, b)) == clash(a, b),
    {
        let p = self.hdr().prefix() + seq![x];
        lemma_prefix_of_sums(p, a, b);
        lemma_prefix_of_sums(p, b, a);
        if self.join(x, a) == self.join(x, b) {
            assert(a =~= (p + a).skip(p.len() as int));
            assert(b =~= (p + b).skip(p.len() as int));
        }
    }

    /// A child admits what is left of a path that its node admits.
    pub proof fn lemma_admits_step(self, path: Seq<u8>)
        requires
            self.leads(path),
            self.admits(path),
        ensures
            self.kid(self.branch(path)).admits(self.rest(path)),
    {
        let x = self.branch(path);
        assert forall|k: Seq<u8>| (#[trigger] self.kid(x).lookup(k)) is Some implies !clash(
            k,
            self.rest(path),
        ) by {
            self.lemma_join(x, k);
            self.lemma_split(path);
            self.lemma_clash_join(x, k, self.rest(path));
            assert(self.lookup(self.join(x, k)) is Some);
        }
    }

    /// A node admits a path exactly when the child on the way admits what is left of it.
    pub proof fn lemma_admits_child(self, path: Seq<u8>)
        requires
            self.leads(path),
        ensures
            self.admits(path) == self.kid(self.branch(path)).admits(self.rest(path)),
    {
        let x = self.branch(path);
        if self.kid(x).admits(self.rest(path)) {
            assert forall|k: Seq<u8>| (#[trigger] self.lookup(k)) is Some implies !clash(
                k,
                path,
            ) by {
                assert(self.leads(k));
                self.lemma_split(k);
                self.lemma_split(path);
                if self.branch(k) == x {
                    assert(self.kid(x).lookup(self.rest(k)) is Some);
                    self.lemma_clash_join(x, self.rest(k), self.rest(path));
                } else {
                    let i = self.hdr().prefix().len() as int;
                    assert(k[i] != path[i]);
                    lemma_apart(k, path, i);
                }
            }
        }
        if self.admits(path) {
            self.lemma_admits_step(path);
        }
    }

    /// A path that does not lead through a node clashes with its keys exactly when it ends
    /// inside the compressed path.
    pub proof fn lemma_admits_aside(self, path: Seq<u8>)
        requires
            self.is_inner(),
            self.wf(),
            !self.leads(path),
        ensures
            self.admits(path) == !path.is_prefix_of(self.hdr().prefix()),
    {
        let prefix = self.hdr().prefix();
        if path.is_prefix_of(prefix) {
            let key = self.lemma_holds_key();
            assert forall|i: int| 0 <= i < path.len() implies path[i] == key[i] by {
                assert(prefix.subrange(0, path.len() as int)[i] == prefix[i]);
                assert(key.subrange(0, prefix.len() as int)[i] == key[i]);
            }
            assert(path =~= key.subrange(0, path.len() as int));
            assert(clash(key, path));
        } else {
            let n = shared_len(path, prefix) as int;
            lemma_shared_len(path, prefix);
            if n == path.len() {
                assert(path =~= prefix.subrange(0, path.len() as int));
            }
            if n == prefix.len() {
                assert(prefix =~= path.subrange(0, prefix.len() as int));
            }
            assert forall|k: Seq<u8>| (#[trigger] self.lookup(k)) is Some implies !clash(
                k,
                path,
            ) by {
                assert(self.leads(k));
                assert(k.subrange(0, prefix.len() as int)[n] == prefix[n]);
                lemma_apart(k, path, n);
            }
        }
    }

    /// A key that clashes with none can be looked up and removed.
    pub proof fn lemma_admits_access(self, path: Seq<u8>)
        requires
            self.wf(),
            self.admits(path),
        ensures
            self.shape().readable(path),
            self.shape().removable(path),
        decreases path.len(),
    {
        self.lemma_shape();
        let prefix = self.hdr().prefix();
        if path.len() == 0 {
            if self.is_inner() {
                let key = self.lemma_holds_key();
                assert(path =~= key.subrange(0, 0));
                assert(clash(key, path));
            }
        } else if self is Value {
            assert(self.lookup(Seq::empty()) is Some);
            assert(Seq::<u8>::empty() =~= path.subrange(0, 0));
            assert(clash(Seq::empty(), path));
        } else if self.is_inner() {
            if prefix.is_prefix_of(path) && prefix.len() == path.len() {
                let key = self.lemma_holds_key();
                assert(prefix =~= path);
                assert(clash(key, path));
            }
            if self.leads(path) {
                self.lemma_admits_step(path);
                self.kid(self.branch(path)).lemma_admits_access(self.rest(path));
            }
        }
    }

    /// Where a removal comes to an end, it ends at a leaf or at nothing.
    pub proof fn lemma_removable_end(self, path: Seq<u8>)
        requires
            self.shape().removable(path),
        ensures
            !self.node_at(path).is_inner(),
        decreases path.len(),
    {
        self.lemma_shape();
        if path.len() > 0 && self.leads(path) {
            assert(self.shape().leads(path));
            self.kid(self.branch(path)).lemma_removable_end(self.rest(path));
        }
    }

    /// Below a node, the keys are those of its children.
    pub proof fn lemma_join(self, x: u8, path: Seq<u8>)
        requires
            self.is_inner(),
        ensures
            self.leads(self.join(x, path)),
            self.branch(self.join(x, path)) == x,
            self.rest(self.join(x, path)) == path,
            self.lookup(self.join(x, path)) == self.kid(x).lookup(path),
    {
        let whole = self.join(x, path);
        assert(self.hdr().prefix() =~= whole.subrange(0, self.hdr().prefix().len() as int));
        assert(self.rest(whole) =~= path);
    }

    /// A path that leads through a node is its compressed path, a byte, and the rest.
    pub proof fn lemma_split(self, path: Seq<u8>)
        requires
            self.leads(path),
        ensures
            path == self.join(self.branch(path), self.rest(path)),
    {
        let prefix = self.hdr().prefix();
        assert(prefix =~= path.subrange(0, prefix.len() as int));
        assert forall|i: int| 0 <= i < prefix.len() implies path[i] == prefix[i] by {
            assert(path.subrange(0, prefix.len() as int)[i] == path[i]);
        }
        assert(path =~= self.join(self.branch(path), self.rest(path)));
    }

    /// Two nodes with the same compressed path, and with children that hold the same keys, hold
    /// the same keys.
    pub proof fn lemma_same_lookup(self, other: NodePtr)
        requires
            self.is_inner(),
            other.is_inner(),
            self.hdr().prefix() == other.hdr().prefix(),
            forall|x: u8, k: Seq<u8>| #[trigger] self.kid(x).lookup(k) == other.kid(x).lookup(k),
        ensures
            forall|k: Seq<u8>| #[trigger] self.lookup(k) == other.lookup(k),
    {
        assert forall|k: Seq<u8>| #[trigger] self.lookup(k) == other.lookup(k) by {
            if self.leads(k) {
                assert(self.kid(self.branch(k)).lookup(self.rest(k)) == other.kid(
                    self.branch(k),
                ).lookup(self.rest(k)));
            }
        }
    }

    /// An empty pointer holds no keys.
    pub proof fn lemma_empty_lookup()
        ensures
            forall|k: Seq<u8>| #[trigger] NodePtr::Empty.node_at(k) is Empty,
            forall|k: Seq<u8>| #[trigger] NodePtr::Empty.lookup(k) is None,
    {
    }

    /// A node without children holds no keys.
    pub proof fn lemma_childless_lookup(self)
        requires
            self.is_inner(),
            forall|x: u8| #[trigger] self.kid(x) is Empty,
        ensures
            forall|k: Seq<u8>| #[trigger] self.lookup(k) is None,
    {
        assert forall|k: Seq<u8>| #[trigger] self.lookup(k) is None by {
            if self.leads(k) {
                assert(self.kid(self.branch(k)) is Empty);
                Self::lemma_empty_lookup();
                assert(NodePtr::Empty.lookup(self.rest(k)) is None);
            }
        }
    }

    /// Where the last node on the way still suits the number of its children, nothing has to be
    /// adapted.
    pub proof fn lemma_settled(self, path: Seq<u8>)
        requires
            self.pending(path),
            !at_limit(self.parent_size(path)),
        ensures
            self.wf(),
            self.shape().trim(path) == self.shape(),
        decreases path.len(),
    {
        let x = self.branch(path);
        if self.rest(path).len() > 0 {
            self.kid(x).lemma_settled(self.rest(path));
        } else {
            self.lemma_live();
        }
        self.lemma_shape();
        assert(self.shape().leads(path));
        assert(self.shape().branch(path) == x);
        assert(self.shape().rest(path) == self.rest(path));
        assert(self.shape().kid(x) == self.kid(x).shape());
        assert(self.kid(x).shape().trim(self.rest(path)) == self.kid(x).shape());
        self.shape().lemma_with_own_kid(x);
        self.lemma_pruned_shape();
        assert forall|y: u8| !(#[trigger] self.kid(y) is Empty) implies self.kid(y).wf() by {}
    }

    /// A node whose index has lost the byte of an empty slot.
    pub proof fn lemma_stores_cleared(self, mid: NodePtr, after: NodePtr, byte: u8)
        requires
            self.stores(mid, byte, false, NodePtr::Empty),
            match (mid, after) {
                (NodePtr::Node1(a), NodePtr::Node1(b)) => a.key == b.key && a.slot == b.slot,
                (NodePtr::Node4(a), NodePtr::Node4(b)) => a.keys == b.keys && a.slots == b.slots,
                (NodePtr::Node16(a), NodePtr::Node16(b)) => a.keys == b.keys && a.slots == b.slots,
                (NodePtr::Node48(a), NodePtr::Node48(b)) => a.slots == b.slots && b.key_hashes@
                    == a.key_hashes@.update(byte as int, None),
                (NodePtr::Node256(a), NodePtr::Node256(b)) => a.slots == b.slots,
                _ => false,
            },
        ensures
            self.stores(after, byte, true, NodePtr::Empty),
    {
        match (self, mid, after) {
            (NodePtr::Node48(n48), NodePtr::Node48(a), NodePtr::Node48(b)) => {
                let i = choose|i: int|
                    {
                        &&& #[trigger] indexed_place(n48.key_hashes@, n48.slots@, byte, i)
                        &&& a.key_hashes@ == n48.key_hashes@.update(byte as int, Some(i as u8))
                        &&& a.slots@ == n48.slots@.update(i, NodePtr::Empty)
                    };
                assert(indexed_place(n48.key_hashes@, n48.slots@, byte, i));
                assert(b.key_hashes@ =~= n48.key_hashes@.update(byte as int, None));
            },
            _ => {},
        }
    }

    /// Adapts the nodes on the way along `partial_path`, whose key has just been taken out:
    /// each becomes as small as it can be, and one without children goes. A tree that is well
    /// formed is left as it is. Says whether a node has gone and nothing is left.
    pub fn prune(&mut self, partial_path: &[u8]) -> (dropped: bool)
        requires
            old(self).pending(partial_path@) || (old(self).wf() && old(self).chained(
                partial_path@,
            )),
        ensures
            final(self).wf(),
            dropped == (old(self).is_inner() && *final(self) is Empty),
            old(self).is_inner() && !dropped ==> final(self).is_inner() && final(self).hdr().prefix() == old(self).hdr().prefix(),
            !old(self).is_inner() ==> *final(self) == *old(self),
            old(self).trims(*final(self), partial_path@),
            forall|k: Seq<u8>| #[trigger] final(self).lookup(k) == old(self).lookup(k),
            old(self).pending(partial_path@) ==> final(self).shape() == old(self).shape().trim(
                partial_path@,
            ),
            old(self).wf() ==> !dropped && old(self).keeps(*final(self)) && old(self).same(
                *final(self),
            ),
        decreases partial_path@.len(),
    {
        let ghost before = *self;
        let prefix_len = self.prefix().len();
        if partial_path.len() > prefix_len + 1 {
            let byte = partial_path[prefix_len];
            let subpath = slice_subrange(partial_path, prefix_len + 1, partial_path.len());
            assert(subpath@ =~= before.rest(partial_path@));
            assert(byte == before.branch(partial_path@));
            assert(before.leads(partial_path@));
            assert(before.kid(byte).pending(subpath@) || (before.kid(byte).wf() && before.kid(
                byte,
            ).chained(subpath@)));
            let (_children, child) = self.child_mut(byte, false, false).unwrap();
            let child_shrunk = child.prune(subpath);
            let ghost mid = *self;
            assert(before.stores(mid, byte, false, mid.kid(byte)));
            if child_shrunk {
                let header = self.header_mut();
                header.children = header.children - 1;
                let ghost counted = *self;
                proof {
                    mid.lemma_with_header(counted.hdr());
                    assert(counted == mid.with_header(counted.hdr()));
                    assert(mid.layout_without(byte));
                    assert(mid.with_header(counted.hdr()).layout_without(byte));
                }
                if let NodeMut::Node48(n48) = self.deref_mut() {
                    n48.key_hashes[byte as usize] = None;
                }
                proof {
                    assert forall|x: u8| #[trigger] self.kid(x) == mid.kid(x) by {
                        assert(counted.kid(x) == mid.kid(x));
                    }
                }
            }
            proof {
                assert forall|x: u8, k: Seq<u8>| #[trigger]
                    self.kid(x).lookup(k) == before.kid(x).lookup(k) by {
                    assert(mid.kid(x) == self.kid(x));
                }
                assert forall|x: u8| !(#[trigger] self.kid(x) is Empty) implies self.kid(
                    x,
                ).wf() by {
                    assert(mid.kid(x) == self.kid(x));
                }
                self.lemma_same_lookup(before);
                if child_shrunk {
                    before.lemma_stores_cleared(mid, *self, byte);
                }
                assert(before.stores(*self, byte, child_shrunk, self.kid(byte)));
                if before.wf() {
                    before.lemma_keeps_step(*self, partial_path@);
                    before.lemma_stores_same(*self, byte);
                }
            }
        } else {
            proof {
                before.lemma_same_self();
            }
        }
        let ghost settled = *self;
        proof {
            if before.pending(partial_path@) {
                let x = before.branch(partial_path@);
                before.lemma_rebranched(settled, partial_path@);
                assert(settled.kid(x).shape() == before.kid(x).shape().trim(
                    before.rest(partial_path@),
                ));
            }
        }
        let dropped = self.shrink_to_fit();
        proof {
            assert(settled.settles(*self));
            if dropped {
                settled.lemma_live();
                settled.lemma_childless_lookup();
                settled.lemma_childless_shape();
                Self::lemma_empty_lookup();
            } else if before.is_inner() {
                self.lemma_same_lookup(settled);
                self.lemma_same_shape(settled);
                settled.lemma_pruned_shape();
            }
            assert forall|k: Seq<u8>| #[trigger] self.lookup(k) == before.lookup(k) by {
                assert(settled.lookup(k) == before.lookup(k));
            }
        }
        dropped
    }
}

} // verus!

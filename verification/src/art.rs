//! The tree as a map from keys to leaves.

use crate::bytes::{clash, lemma_shared_len, shared_len, starts_with};
use crate::header::{NodeHeader, TwigNode, MAX_PATH_COMPRESSION_BYTES};
use crate::node1::Node1;
use crate::pointer::{NodeMut, NodePtr, NodeRef};
use crate::shape::Shape;
use vstd::pervasive::unreached;
use vstd::prelude::*;
use vstd::slice::slice_subrange;

verus! {

/// A map from byte strings to leaves, held as an adaptive radix tree.
pub struct Art {
    len: usize,
    pub root: NodePtr,
}

/// The map holds no key that clashes with `key`.
pub open spec fn clear_of(map: Map<Seq<u8>, TwigNode>, key: Seq<u8>) -> bool {
    forall|k: Seq<u8>| #[trigger] map.contains_key(k) ==> !clash(k, key)
}

impl View for Art {
    type V = Map<Seq<u8>, TwigNode>;

    /// The keys with their leaves.
    open spec fn view(&self) -> Map<Seq<u8>, TwigNode> {
        self.tree().entries()
    }
}

impl Art {
    /// The number of keys that the map counts.
    pub closed spec fn size(self) -> usize {
        self.len
    }

    /// The tree, from its root on.
    pub closed spec fn tree(self) -> NodePtr {
        self.root
    }

    /// The tree is well formed and its keys are counted.
    pub open spec fn wf(self) -> bool {
        &&& self.tree().wf()
        &&& self@.dom().finite()
        &&& self.size() == self@.dom().len()
    }

    /// The shape of the tree.
    pub open spec fn shape(self) -> Shape {
        self.tree().shape()
    }

    /// A map without keys.
    pub fn new() -> (art: Art)
        ensures
            art.wf(),
            art@ == Map::<Seq<u8>, TwigNode>::empty(),
            art.shape() is Empty,
    {
        let art = Art { len: 0, root: NodePtr::none() };
        proof {
            NodePtr::lemma_empty_lookup();
            assert(art@ =~= Map::<Seq<u8>, TwigNode>::empty());
        }
        art
    }

    /// The root of the tree.
    pub fn root(&self) -> (node: &NodePtr)
        ensures
            *node == self.tree(),
    {
        &self.root
    }

    /// The number of keys.
    pub fn len(&self) -> (n: usize)
        ensures
            n == self.size(),
            self.wf() ==> n == self@.dom().len(),
    {
        self.len
    }

    /// Says whether there are no keys.
    pub fn is_empty(&self) -> (yes: bool)
        ensures
            yes == (self.size() == 0),
            self.wf() ==> yes == (self@ == Map::<Seq<u8>, TwigNode>::empty()),
    {
        proof {
            if self.wf() && self.len == 0 {
                assert(self@.dom() =~= Set::empty());
                assert(self@ =~= Map::<Seq<u8>, TwigNode>::empty());
            }
        }
        self.len() == 0
    }

    /// Says whether no key in the map clashes with `key`.
    fn is_clear_of(&self, key: &[u8]) -> (yes: bool)
        requires
            self.wf(),
        ensures
            yes == clear_of(self@, key@),
    {
        let mut path: &[u8] = key;
        let mut cursor: &NodePtr = &self.root;
        proof {
            self.root.lemma_clear_of(key@);
            NodePtr::lemma_empty_lookup();
        }
        while path.len() > 0
            invariant
                cursor.wf(),
                cursor.admits(path@) == clear_of(self@, key@),
                forall|p: Seq<u8>| #[trigger] NodePtr::Empty.lookup(p) is None,
            decreases path@.len(),
        {
            match cursor.deref() {
                NodeRef::Empty => {
                    return true;
                },
                NodeRef::Value(_) => {
                    proof {
                        if cursor.admits(path@) {
                            cursor.lemma_admits_leaf(path@);
                        }
                    }
                    return false;
                },
                _ => {},
            }
            let prefix = cursor.prefix();
            let partial_path = slice_subrange(path, 0, path.len() - 1);
            proof {
                assert(partial_path@ =~= path@.drop_last());
                cursor.lemma_leads_partial(path@);
            }
            if !starts_with(partial_path, prefix) {
                proof {
                    cursor.lemma_admits_aside(path@);
                }
                return !starts_with(prefix, path);
            }
            let prefix_len = prefix.len();
            let byte = path[prefix_len];
            let ghost rest = cursor.rest(path@);
            proof {
                cursor.lemma_admits_child(path@);
            }
            match cursor.child(byte) {
                Some(child) => {
                    cursor = child;
                },
                None => {
                    return true;
                },
            }
            path = slice_subrange(path, prefix_len + 1, path.len());
            assert(path@ =~= rest);
        }
        proof {
            if cursor.admits(path@) {
                cursor.lemma_admits_access(path@);
            } else {
                let k = choose|k: Seq<u8>| (#[trigger] cursor.lookup(k)) is Some && clash(k, path@);
                if k.len() == 0 {
                    assert(k =~= path@);
                }
            }
        }
        proof {
            cursor.lemma_shape();
        }
        match cursor.deref() {
            NodeRef::Empty => true,
            NodeRef::Value(_) => true,
            _ => false,
        }
    }

    /// Says whether `key` can be inserted.
    pub fn can_insert(&self, key: &[u8]) -> (yes: bool)
        requires
            self.wf(),
        ensures
            yes == (clear_of(self@, key@) && (self@.contains_key(key@) || self@.dom().len()
                < usize::MAX)),
    {
        self.is_clear_of(key) && (self.len < usize::MAX || self.get(key).is_some())
    }

    /// Says whether `key` can be looked up.
    pub fn can_get(&self, key: &[u8]) -> (yes: bool)
        requires
            self.wf(),
        ensures
            yes == (clear_of(self@, key@) || self.shape().readable(key@)),
    {
        proof {
            if clear_of(self@, key@) {
                self.root.lemma_clear_of(key@);
                self.root.lemma_admits_access(key@);
            }
        }
        let mut path: &[u8] = key;
        let mut cursor: &NodePtr = &self.root;
        while path.len() > 0
            invariant
                cursor.wf(),
                cursor.shape().readable(path@) == self.shape().readable(key@),
                clear_of(self@, key@) ==> self.shape().readable(key@),
            decreases path@.len(),
        {
            proof {
                cursor.lemma_shape();
            }
            if cursor.is_none() {
                return true;
            }
            if cursor.header().path_len as usize > MAX_PATH_COMPRESSION_BYTES {
                return false;
            }
            let prefix = cursor.prefix();
            if !starts_with(path, prefix) {
                return true;
            }
            let prefix_len = prefix.len();
            if prefix_len == path.len() {
                return false;
            }
            if let NodeRef::Value(_) = cursor.deref() {
                return false;
            }
            let byte = path[prefix_len];
            let ghost rest = cursor.rest(path@);
            match cursor.child(byte) {
                Some(child) => {
                    cursor = child;
                },
                None => {
                    assert(Shape::Empty.readable(rest));
                    return true;
                },
            }
            path = slice_subrange(path, prefix_len + 1, path.len());
            assert(path@ =~= rest);
        }
        proof {
            cursor.lemma_shape();
        }
        match cursor.deref() {
            NodeRef::Empty => true,
            NodeRef::Value(_) => true,
            _ => false,
        }
    }

    /// Says whether `key` can be removed.
    pub fn can_remove(&self, key: &[u8]) -> (yes: bool)
        requires
            self.wf(),
        ensures
            yes == (clear_of(self@, key@) || self.shape().removable(key@)),
    {
        proof {
            if clear_of(self@, key@) {
                self.root.lemma_clear_of(key@);
                self.root.lemma_admits_access(key@);
            }
        }
        let mut path: &[u8] = key;
        let mut cursor: &NodePtr = &self.root;
        while path.len() > 0
            invariant
                cursor.wf(),
                cursor.shape().removable(path@) == self.shape().removable(key@),
                clear_of(self@, key@) ==> self.shape().removable(key@),
            decreases path@.len(),
        {
            proof {
                cursor.lemma_shape();
            }
            if cursor.is_none() {
                return true;
            }
            proof {
                cursor.lemma_live();
            }
            if cursor.header().path_len as usize > MAX_PATH_COMPRESSION_BYTES
                || !cursor.has_size() {
                return false;
            }
            let prefix = cursor.prefix();
            let partial_path = slice_subrange(path, 0, path.len() - 1);
            proof {
                assert(partial_path@ =~= path@.drop_last());
                cursor.lemma_leads_partial(path@);
            }
            if !starts_with(partial_path, prefix) {
                return true;
            }
            if let NodeRef::Value(_) = cursor.deref() {
                return false;
            }
            let prefix_len = prefix.len();
            let byte = path[prefix_len];
            let ghost rest = cursor.rest(path@);
            match cursor.child(byte) {
                Some(child) => {
                    cursor = child;
                },
                None => {
                    assert(Shape::Empty.removable(rest));
                    return true;
                },
            }
            path = slice_subrange(path, prefix_len + 1, path.len());
            assert(path@ =~= rest);
        }
        proof {
            cursor.lemma_shape();
        }
        match cursor.deref() {
            NodeRef::Empty => true,
            NodeRef::Value(_) => true,
            _ => false,
        }
    }

    /// Stores `value` for `key` and returns the leaf that was there before. No key in the map may
    /// clash with `key`, and there must be room for one more; [`Art::can_insert`] tells.
    pub fn insert(&mut self, key: &[u8], value: TwigNode) -> (was: Option<TwigNode>)
        requires
            old(self).wf(),
            clear_of(old(self)@, key@),
            old(self)@.contains_key(key@) || old(self)@.dom().len() < usize::MAX,
        ensures
            final(self).wf(),
            final(self)@ == old(self)@.insert(key@, value),
            final(self).shape() == old(self).shape().insert(key@, value),
            old(self).tree().puts(
                final(self).tree(),
                key@,
                false,
                NodePtr::Value(Box::new(value)),
            ),
            was == old(self)@.get(key@),
    {
        let ghost before = *self;
        let mut value = value;
        let ghost stored = value;
        proof {
            self.root.lemma_clear_of(key@);
        }
        let (parent_opt, cursor) = self.slot_for_key(key, true).unwrap();
        match cursor.deref_mut() {
            NodeMut::Value(twig) => {
                std::mem::swap(&mut *twig, &mut value);
                assert(self@ =~= before@.insert(key@, stored));
                Some(value)
            },
            NodeMut::Empty => {
                *cursor = NodePtr::value(value);
                if let Some(children) = parent_opt {
                    *children = *children + 1;
                }
                assert(self@ =~= before@.insert(key@, stored));
                self.len = self.len + 1;
                None
            },
            _ => unreached(),
        }
    }

    /// Takes `key` out and returns the leaf that it had. A key that clashes with one in the map is
    /// none of its keys, but the way along it may end at a node; [`Art::can_remove`] tells.
    pub fn remove(&mut self, key: &[u8]) -> (was: Option<TwigNode>)
        requires
            old(self).wf(),
            clear_of(old(self)@, key@) || old(self).shape().removable(key@),
        ensures
            final(self).wf(),
            final(self)@ == old(self)@.remove(key@),
            !old(self)@.contains_key(key@) ==> *final(self) == *old(self),
            old(self)@.contains_key(key@) ==> old(self).tree().removes(final(self).tree(), key@),
            final(self).shape() == if old(self)@.contains_key(key@) {
                old(self).shape().remove(key@)
            } else {
                old(self).shape()
            },
            was == old(self)@.get(key@),
    {
        let ghost before = *self;
        proof {
            if clear_of(self@, key@) {
                self.root.lemma_clear_of(key@);
                self.root.lemma_admits_access(key@);
            }
        }
        let (parent_opt, cursor) = match self.slot_for_key(key, false) {
            Some(place) => place,
            None => {
                assert(before@.remove(key@) =~= before@);
                return None;
            },
        };
        match cursor.take() {
            Some(twig) => {
                if let Some(children) = parent_opt {
                    *children = *children - 1;
                    let n = *children;
                    let ghost mid = self.root;
                    assert(before.root.puts(mid, key@, true, NodePtr::Empty));
                    if n == 48 || n == 16 || n == 4 || n == 1 || n == 0 {
                        self.prune(key);
                    } else {
                        proof {
                            self.root.lemma_settled(key@);
                        }
                    }
                }
                proof {
                    before.root.lemma_shape_path(key@);
                    before.shape().lemma_clear_then_trim(key@);
                }
                assert(self@ =~= before@.remove(key@));
                self.len = self.len - 1;
                Some(twig)
            },
            None => {
                assert(self@ =~= before@);
                assert(before@.remove(key@) =~= before@);
                None
            },
        }
    }

    /// The leaf for `key`. A key that clashes with one in the map is none of its keys, but the way
    /// along it may end at a node; [`Art::can_get`] tells.
    pub fn get(&self, key: &[u8]) -> (found: Option<&TwigNode>)
        requires
            self.wf(),
            clear_of(self@, key@) || self.shape().readable(key@),
        ensures
            match found {
                Some(twig) => self@.contains_key(key@) && self@[key@] == *twig,
                None => !self@.contains_key(key@),
            },
    {
        let mut k: &[u8] = key;
        let mut cursor: &NodePtr = &self.root;
        proof {
            if clear_of(self@, key@) {
                self.root.lemma_clear_of(key@);
                self.root.lemma_admits_access(key@);
            }
            NodePtr::lemma_empty_lookup();
        }
        while k.len() > 0
            invariant
                cursor.wf(),
                cursor.shape().readable(k@),
                cursor.lookup(k@) == self.root.lookup(key@),
                forall|p: Seq<u8>| #[trigger] NodePtr::Empty.lookup(p) is None,
            decreases k@.len(),
        {
            proof {
                cursor.lemma_shape();
            }
            let prefix = cursor.prefix();
            if !starts_with(k, prefix) {
                return None;
            }
            let prefix_len = prefix.len();
            let byte = k[prefix_len];
            let ghost rest = cursor.rest(k@);
            match cursor.child(byte) {
                Some(child) => {
                    cursor = child;
                },
                None => {
                    assert(NodePtr::Empty.lookup(rest) is None);
                    return None;
                },
            }
            k = slice_subrange(k, prefix_len + 1, k.len());
            assert(k@ =~= rest);
        }
        proof {
            cursor.lemma_shape();
        }
        match cursor.deref() {
            NodeRef::Value(twig) => Some(twig),
            NodeRef::Empty => None,
            _ => unreached(),
        }
    }

    /// Adapts the nodes on the way along `key`, which has just been taken out. A tree that is
    /// well formed is left as it is.
    fn prune(&mut self, key: &[u8])
        requires
            old(self).root.pending(key@) || (old(self).root.wf() && old(self).root.chained(key@)),
        ensures
            final(self).root.wf(),
            final(self).len == old(self).len,
            forall|k: Seq<u8>| #[trigger] final(self).root.lookup(k) == old(self).root.lookup(k),
            old(self).root.pending(key@) ==> final(self).root.shape() == old(self).root.shape().trim(key@),
            old(self).root.trims(final(self).root, key@),
            old(self).root.wf() ==> old(self).root.keeps(final(self).root) && old(self).root.same(
                final(self).root,
            ),
            !old(self).root.is_inner() ==> final(self).root == old(self).root,
    {
        self.root.prune(key);
    }

    /// Says whether there is a slot for `key` that holds something, or `key` is empty and its
    /// slot is the root.
    fn reaches(&self, key: &[u8]) -> (yes: bool)
        requires
            self.root.wf(),
            self.shape().removable(key@),
        ensures
            yes == (key@.len() == 0 || !(self.root.node_at(key@) is Empty)),
    {
        if key.len() == 0 {
            return true;
        }
        let mut path: &[u8] = key;
        let mut cursor: &NodePtr = &self.root;
        proof {
            NodePtr::lemma_empty_lookup();
        }
        while path.len() > 0
            invariant
                key@.len() > 0,
                cursor.wf(),
                cursor.shape().removable(path@),
                cursor.node_at(path@) == self.root.node_at(key@),
                path@.len() < key@.len() ==> !(cursor is Empty),
                forall|p: Seq<u8>| #[trigger] NodePtr::Empty.node_at(p) is Empty,
            decreases path@.len(),
        {
            proof {
                cursor.lemma_shape();
                cursor.lemma_leads_partial(path@);
            }
            if cursor.is_none() {
                return false;
            }
            let prefix = cursor.prefix();
            let partial_path = slice_subrange(path, 0, path.len() - 1);
            assert(partial_path@ =~= path@.drop_last());
            if !starts_with(partial_path, prefix) {
                return false;
            }
            let prefix_len = prefix.len();
            let byte = path[prefix_len];
            let ghost rest = cursor.rest(path@);
            match cursor.child(byte) {
                Some(child) => {
                    cursor = child;
                },
                None => {
                    assert(NodePtr::Empty.node_at(rest) is Empty);
                    return false;
                },
            }
            path = slice_subrange(path, prefix_len + 1, path.len());
            assert(path@ =~= rest);
        }
        true
    }

    /// Follows `key` to its slot. Returns the number of children of the node that has the slot,
    /// unless the slot is the root, and the slot. With `is_add` the nodes that are missing on
    /// the way are made; without it there may be no such slot.
    fn slot_for_key(&mut self, key: &[u8], is_add: bool) -> (place: Option<
        (Option<&mut u16>, &mut NodePtr),
    >)
        requires
            old(self).root.wf(),
            is_add ==> old(self).root.admits(key@),
            !is_add ==> old(self).shape().removable(key@),
        ensures
            final(self).len == old(self).len,
            place is None <==> !is_add && key@.len() > 0 && old(self).root.lookup(key@) is None,
            place is None ==> *final(self) == *old(self),
            place matches Some((parent, slot)) ==> {
                &&& *slot == old(self).root.node_at(key@)
                &&& !slot.is_inner()
                &&& parent is Some <==> key@.len() > 0
                &&& parent is None ==> final(self).root == *final(slot)
                &&& parent matches Some(children) ==> {
                    &&& *children == old(self).root.size_for(key@)
                    &&& *children <= 256
                    &&& !is_add ==> *children > 0
                    &&& *final(children) == final(self).root.parent_size(key@)
                    &&& *slot is Empty && *final(slot) is Empty && *final(children) == *children
                        ==> old(self).root.opens(final(self).root, key@)
                }
                &&& is_add ==> (*final(slot) is Value && (
                parent matches Some(children) ==> *final(children) == *children + (if *slot is Empty {
                    1int
                } else {
                    0
                })) ==> old(self).root.gains(final(self).root, key@, *(*final(slot))->Value_0))
                &&& !is_add ==> (*final(slot) is Empty && (parent matches Some(children)
                    ==> *final(children) == *children - 1) ==> old(self).root.loses(
                    final(self).root,
                    key@,
                ))
            },
    {
        let ghost root = self.root;
        proof {
            NodePtr::lemma_empty_lookup();
            if !is_add {
                root.lemma_removable_end(key@);
            }
        }
        if !is_add && !self.reaches(key) {
            return None;
        }
        let mut parent: Option<&mut u16> = None;
        let mut path: &[u8] = key;
        let mut cursor: &mut NodePtr = &mut self.root;
        let ghost end = *final(cursor);
        #[verifier::loop_isolation(false)]
        while path.len() > 0
            invariant
                path@.len() <= key@.len(),
                parent is Some <==> path@.len() < key@.len(),
                path@.len() == key@.len() ==> end == *final(cursor),
                cursor.node_at(path@) == root.node_at(key@),
                is_add ==> cursor.ready(path@) && cursor.admits(path@),
                !is_add ==> cursor.wf() && cursor.shape().removable(path@),
                !is_add && key@.len() > 0 ==> !(cursor.node_at(path@) is Empty),
                parent matches Some(children) ==> *children <= 256,
                !is_add && parent is Some ==> *parent->0 > 0,
                path@.len() > 0 ==> {
                    &&& cursor.size_for(path@) == root.size_for(key@)
                    &&& final(cursor).parent_size(path@) == end.parent_size(key@)
                },
                path@.len() == 0 ==> (parent matches Some(children) ==> {
                    &&& *children == root.size_for(key@)
                    &&& *final(children) == end.parent_size(key@)
                }),
                is_add ==> forall|twig: TwigNode|
                    (#[trigger] cursor.gains(*final(cursor), path@, twig)) && (
                    parent matches Some(children) ==> *final(children) == *children + (
                    if *cursor is Empty {
                        1int
                    } else {
                        0
                    })) ==> root.gains(end, key@, twig),
                is_add ==> (cursor.opens(*final(cursor), path@) && (
                parent matches Some(children) ==> *final(children) == *children + (if *cursor is Empty
                    && path@.len() > 0 {
                    1int
                } else {
                    0
                })) ==> root.opens(end, key@)),
                !is_add ==> (cursor.loses(*final(cursor), path@) && (
                parent matches Some(children) ==> *final(children) == *children - (
                if path@.len() == 0 {
                    1int
                } else {
                    0
                })) ==> root.loses(end, key@)),
            decreases path@.len(), (if cursor.is_inner() && !cursor.leads(path@) {
                1int
            } else {
                0
            }),
        {
            let ghost head = *cursor;
            let ghost done = *final(cursor);
            let ghost whole = path@;
            proof {
                head.lemma_shape();
            }
            if cursor.is_none() {
                // a node that takes in as much of the path as it can hold
                let mut n1: Box<Node1> = Box::new(Node1::default());
                let prefix_len: usize = if path.len() - 1 < MAX_PATH_COMPRESSION_BYTES {
                    path.len() - 1
                } else {
                    MAX_PATH_COMPRESSION_BYTES
                };
                n1.header = NodeHeader::with_path(slice_subrange(path, 0, prefix_len));
                *cursor = NodePtr::node1(n1);
                if let Some(children) = parent {
                    *children = *children + 1;
                }
                let ghost made = *cursor;
                let byte = path[prefix_len];
                proof {
                    assert(made.hdr().prefix() =~= whole.subrange(0, prefix_len as int));
                    assert(made.leads(whole));
                    made.lemma_childless_lookup();
                    made.lemma_childless_shape();
                    made.lemma_shape();
                    assert(made.shape().leads(whole));
                    assert(made.rest(whole) =~= whole.skip(prefix_len + 1));
                    assert(whole.subrange(0, prefix_len as int) =~= whole.take(prefix_len as int));
                    NodePtr::lemma_empty_lookup();
                }
                let (p, child) = cursor.child_mut(byte, true, false).unwrap();
                path = slice_subrange(path, prefix_len + 1, path.len());
                proof {
                    assert(path@ =~= made.rest(whole));
                    assert forall|twig: TwigNode|
                        made.shape().insert(whole, twig) == #[trigger] head.shape().insert(
                            whole,
                            twig,
                        ) by {}
                    assert forall|twig: TwigNode|
                        (#[trigger] child.gains(*final(child), path@, twig)) && *final(p) == *p
                            + 1 implies root.gains(end, key@, twig) by {
                        made.lemma_gains_step(done, whole, twig);
                        assert(made.shape().insert(whole, twig) == head.shape().insert(
                            whole,
                            twig,
                        ));
                        head.lemma_puts_aside(
                            made,
                            done,
                            whole,
                            false,
                            NodePtr::Value(Box::new(twig)),
                        );
                        assert(head.gains(done, whole, twig));
                    }
                    made.lemma_opens_step(done, whole);
                    made.lemma_parent_size_step(done, whole);
                    made.lemma_same_opening(head, done, whole);
                }
                parent = Some(p);
                cursor = child;
                continue;
            }
            proof {
                if is_add {
                    head.lemma_admits_leaf(whole);
                }
            }
            let prefix = cursor.prefix();
            let partial_path = slice_subrange(path, 0, path.len() - 1);
            proof {
                assert(partial_path@ =~= whole.drop_last());
                head.lemma_leads_partial(whole);
            }
            if !starts_with(partial_path, prefix) {
                // the compressed path has to end where the key leaves it
                cursor.truncate_prefix(partial_path);
                proof {
                    lemma_shared_len(partial_path@, prefix@);
                    head.lemma_cut_ready(*cursor, whole);
                    head.lemma_cut_lookup(
                        *cursor,
                        shared_len(partial_path@, head.hdr().prefix()) as int,
                    );
                    assert forall|twig: TwigNode| #[trigger]
                        cursor.gains(done, whole, twig) implies head.gains(done, whole, twig) by {
                        head.lemma_puts_aside(
                            *cursor,
                            done,
                            whole,
                            false,
                            NodePtr::Value(Box::new(twig)),
                        );
                        assert forall|k: Seq<u8>|
                            #[trigger] done.lookup(k) == if k == whole {
                                Some(twig)
                            } else {
                                head.lookup(k)
                            } by {
                            assert(cursor.lookup(k) == head.lookup(k));
                        }
                    }
                    cursor.lemma_same_opening(head, done, whole);
                }
                continue;
            }
            let prefix_len = prefix.len();
            let next_byte = path[prefix_len];
            path = slice_subrange(path, prefix_len + 1, path.len());
            let clear_child_index = !is_add && path.len() == 0;
            proof {
                assert(path@ =~= head.rest(whole));
                assert(next_byte == head.branch(whole));
                head.lemma_live();
                NodePtr::lemma_empty_lookup();
                assert(NodePtr::Empty.node_at(path@) is Empty);
                if is_add {
                    head.lemma_admits_step(whole);
                }
            }
            let (p, child) = cursor.child_mut(next_byte, is_add, clear_child_index).unwrap();
            proof {
                if is_add {
                    assert forall|twig: TwigNode|
                        (#[trigger] child.gains(*final(child), path@, twig)) && *final(p) == *p + (
                        if *child is Empty {
                            1int
                        } else {
                            0
                        }) implies root.gains(end, key@, twig) by {
                        head.lemma_gains_step(done, whole, twig);
                    }
                    head.lemma_opens_step(done, whole);
                    child.lemma_opens_empty(*final(child), path@);
                } else {
                    head.lemma_loses_step(done, whole);
                }
                head.lemma_parent_size_step(done, whole);
            }
            parent = Some(p);
            cursor = child;
        }
        proof {
            if is_add {
                cursor.lemma_admits_access(path@);
            }
            cursor.lemma_path_end(*final(cursor), path@);
        }
        Some((parent, cursor))
    }
}

impl NodePtr {
    /// A map is clear of a key where its tree admits it.
    pub proof fn lemma_clear_of(self, key: Seq<u8>)
        ensures
            clear_of(self.entries(), key) == self.admits(key),
    {
        if clear_of(self.entries(), key) {
            assert forall|k: Seq<u8>| (#[trigger] self.lookup(k)) is Some implies !clash(k, key) by {
                assert(self.entries().contains_key(k));
            }
        }
    }
}

impl Clone for Art {
    fn clone(&self) -> (copy: Art)
        ensures
            copy.size() == self.size(),
            self.tree().same(copy.tree()),
            self.wf() ==> copy.wf() && copy@ == self@ && copy.shape() == self.shape(),
    {
        let copy = Art { len: self.len, root: self.root.clone() };
        proof {
            if self.wf() {
                self.root.lemma_same_wf(copy.root);
                self.root.lemma_same_shapes(copy.root);
                assert forall|key: Seq<u8>| #[trigger]
                    copy.root.lookup(key) == self.root.lookup(key) by {
                    self.root.lemma_same_tree(copy.root, key);
                }
                assert(copy@ =~= self@);
            }
        }
        copy
    }
}

impl Default for Art {
    fn default() -> (art: Art)
        ensures
            art.wf(),
            art@ == Map::<Seq<u8>, TwigNode>::empty(),
            art.shape() is Empty,
    {
        Art::new()
    }
}

} // verus!

//! The shape of a tree: its compressed paths, its branchings with their time stamps, and its
//! leaves, without regard to the sizes of its nodes.

use crate::bytes::{lemma_shared_len, shared_len};
use crate::header::{TwigNode, MAX_PATH_COMPRESSION_BYTES};
use crate::pointer::NodePtr;
use vstd::prelude::*;

verus! {

/// Nothing, a leaf, or a compressed path after which the tree branches, with a time stamp and
/// what is below each byte.
pub enum Shape {
    Empty,
    Leaf(TwigNode),
    Inner(Seq<u8>, u64, Seq<Shape>),
}

/// A branching with nothing below any byte.
pub open spec fn no_kids() -> Seq<Shape> {
    Seq::new(256, |x: int| Shape::Empty)
}

/// How many bytes of `path` go into the compressed path of a node that is made for it: all but
/// the last, as far as they fit.
pub open spec fn stem_len(path: Seq<u8>) -> int {
    if path.len() - 1 < MAX_PATH_COMPRESSION_BYTES {
        path.len() - 1
    } else {
        MAX_PATH_COMPRESSION_BYTES as int
    }
}

impl Shape {
    /// The compressed path.
    pub open spec fn prefix(self) -> Seq<u8> {
        match self {
            Shape::Empty => Seq::empty(),
            Shape::Leaf(twig) => twig.header.prefix(),
            Shape::Inner(prefix, _, _) => prefix,
        }
    }

    /// The time stamp of a branching.
    pub open spec fn ts(self) -> u64 {
        match self {
            Shape::Inner(_, ts, _) => ts,
            _ => 0,
        }
    }

    /// What is below `x`.
    pub open spec fn kid(self, x: u8) -> Shape {
        match self {
            Shape::Inner(_, _, kids) => kids[x as int],
            _ => Shape::Empty,
        }
    }

    /// `path` leads through this branching: it begins with the compressed path and goes on.
    pub open spec fn leads(self, path: Seq<u8>) -> bool {
        &&& self is Inner
        &&& self.prefix().len() < path.len()
        &&& self.prefix().is_prefix_of(path)
    }

    /// The byte at which `path` branches off.
    pub open spec fn branch(self, path: Seq<u8>) -> u8 {
        path[self.prefix().len() as int]
    }

    /// What is left of `path` below the branching.
    pub open spec fn rest(self, path: Seq<u8>) -> Seq<u8> {
        path.skip(self.prefix().len() as int + 1)
    }

    /// The same with something else below `x`.
    pub open spec fn with_kid(self, x: u8, kid: Shape) -> Shape {
        match self {
            Shape::Inner(prefix, ts, kids) => Shape::Inner(prefix, ts, kids.update(x as int, kid)),
            _ => self,
        }
    }

    /// A branching with nothing below it is nothing.
    pub open spec fn pruned(self) -> Shape {
        if self is Inner && forall|x: u8| #[trigger] self.kid(x) is Empty {
            Shape::Empty
        } else {
            self
        }
    }

    /// The leaf for `key`.
    pub open spec fn lookup(self, key: Seq<u8>) -> Option<TwigNode>
        decreases key.len(),
    {
        if key.len() == 0 {
            match self {
                Shape::Leaf(twig) => Some(twig),
                _ => None,
            }
        } else if self.leads(key) {
            self.kid(self.branch(key)).lookup(self.rest(key))
        } else {
            None
        }
    }

    /// The shape once `twig` is stored for the key `path`. Where there is nothing, a compressed
    /// path takes in what it can. Where the path leaves a compressed path, that is cut in two,
    /// and a branching comes between. A branching that is made has the time stamp zero.
    pub open spec fn insert(self, path: Seq<u8>, twig: TwigNode) -> Shape
        decreases path.len(),
    {
        if path.len() == 0 {
            Shape::Leaf(twig)
        } else if self.leads(path) {
            let x = self.branch(path);
            self.with_kid(x, self.kid(x).insert(self.rest(path), twig))
        } else if self is Inner {
            let at = shared_len(path.drop_last(), self.prefix()) as int;
            proof {
                lemma_shared_len(path.drop_last(), self.prefix());
            }
            self.cut(at).with_kid(path[at], Shape::Empty.insert(path.skip(at + 1), twig))
        } else {
            let n = stem_len(path);
            Shape::Inner(path.take(n), 0, no_kids()).with_kid(
                path[n],
                Shape::Empty.insert(path.skip(n + 1), twig),
            )
        }
    }

    /// The compressed path cut in two at `at`, with a branching between.
    pub open spec fn cut(self, at: int) -> Shape {
        match self {
            Shape::Inner(prefix, ts, kids) => Shape::Inner(prefix.take(at), 0, no_kids()).with_kid(
                prefix[at],
                Shape::Inner(prefix.skip(at + 1), ts, kids),
            ),
            _ => self,
        }
    }

    /// The shape once the key `path` is gone: its leaf, and the branchings on the way that have
    /// nothing else below them.
    pub open spec fn remove(self, path: Seq<u8>) -> Shape
        decreases path.len(),
    {
        if path.len() == 0 {
            Shape::Empty
        } else if self.leads(path) {
            let x = self.branch(path);
            self.with_kid(x, self.kid(x).remove(self.rest(path))).pruned()
        } else {
            self
        }
    }

    /// The shape once the leaf for the key `path` is gone, with every branching still there.
    pub open spec fn clear(self, path: Seq<u8>) -> Shape
        decreases path.len(),
    {
        if path.len() == 0 {
            Shape::Empty
        } else if self.leads(path) {
            let x = self.branch(path);
            self.with_kid(x, self.kid(x).clear(self.rest(path)))
        } else {
            self
        }
    }

    /// The shape without the branchings along `path` that have nothing below them.
    pub open spec fn trim(self, path: Seq<u8>) -> Shape
        decreases path.len(),
    {
        if path.len() > 0 && self.leads(path) {
            let x = self.branch(path);
            self.with_kid(x, self.kid(x).trim(self.rest(path))).pruned()
        } else {
            self
        }
    }

    /// A lookup of `key` comes to an end: the key ends neither on reaching a branching nor right
    /// after its compressed path, and where it goes on from a leaf, what is left of it does not
    /// begin with the leaf's own path.
    pub open spec fn readable(self, key: Seq<u8>) -> bool
        decreases key.len(),
    {
        if key.len() == 0 {
            !(self is Inner)
        } else {
            match self {
                Shape::Empty => true,
                Shape::Leaf(twig) => twig.header.fits() && !self.prefix().is_prefix_of(key),
                Shape::Inner(prefix, _, _) => prefix.is_prefix_of(key) ==> prefix.len() < key.len()
                    && self.kid(self.branch(key)).readable(self.rest(key)),
            }
        }
    }

    /// A removal of `key` comes to an end: the key does not end on reaching a branching, and
    /// where it goes on from a leaf, the leaf counts no children and what is left of the key
    /// does not begin with the leaf's own path and go on.
    pub open spec fn removable(self, key: Seq<u8>) -> bool
        decreases key.len(),
    {
        if key.len() == 0 {
            !(self is Inner)
        } else {
            match self {
                Shape::Empty => true,
                Shape::Leaf(twig) => twig.header.children == 0 && twig.header.fits()
                    && !self.prefix().is_prefix_of(key.drop_last()),
                Shape::Inner(_, _, _) => self.leads(key) ==> self.kid(self.branch(key)).removable(
                    self.rest(key),
                ),
            }
        }
    }

    /// Taking out the leaf and then the branchings takes out the key.
    pub proof fn lemma_clear_then_trim(self, path: Seq<u8>)
        requires
            self.deep(path),
        ensures
            self.clear(path).trim(path) == self.remove(path),
        decreases path.len(),
    {
        if path.len() > 0 && self.leads(path) {
            let x = self.branch(path);
            let kid = self.kid(x);
            kid.lemma_clear_then_trim(self.rest(path));
            let cleared = self.clear(path);
            self.lemma_with_kid(x, kid.clear(self.rest(path)));
            assert(cleared.leads(path));
            assert(cleared.kid(x) == kid.clear(self.rest(path)));
            cleared.lemma_with_kid(x, cleared.kid(x).trim(self.rest(path)));
            self.lemma_with_kid(x, kid.remove(self.rest(path)));
            cleared.with_kid(x, kid.remove(self.rest(path))).lemma_equal(
                self.with_kid(x, kid.remove(self.rest(path))),
            );
        }
    }

    /// There is a kid for every byte, at each branching on the way along `path`.
    pub open spec fn deep(self, path: Seq<u8>) -> bool
        decreases path.len(),
    {
        &&& self.full()
        &&& path.len() > 0 && self.leads(path) ==> self.kid(self.branch(path)).deep(
            self.rest(path),
        )
    }

    /// There is a kid for every byte.
    pub open spec fn full(self) -> bool {
        self matches Shape::Inner(_, _, kids) ==> kids.len() == 256
    }

    /// Changing what is below a byte.
    pub proof fn lemma_with_kid(self, x: u8, kid: Shape)
        requires
            self is Inner,
            self.full(),
        ensures
            self.with_kid(x, kid) is Inner,
            self.with_kid(x, kid).full(),
            self.with_kid(x, kid).prefix() == self.prefix(),
            self.with_kid(x, kid).ts() == self.ts(),
            forall|y: u8|
                #[trigger] self.with_kid(x, kid).kid(y) == if y == x {
                    kid
                } else {
                    self.kid(y)
                },
    {
    }

    /// Of two changes below the same byte, the second counts.
    pub proof fn lemma_with_kid_twice(self, x: u8, first: Shape, second: Shape)
        requires
            self is Inner,
            self.full(),
        ensures
            self.with_kid(x, first).with_kid(x, second) == self.with_kid(x, second),
    {
        self.lemma_with_kid(x, first);
        self.lemma_with_kid(x, second);
        self.with_kid(x, first).lemma_with_kid(x, second);
        self.with_kid(x, first).with_kid(x, second).lemma_equal(self.with_kid(x, second));
    }

    /// Putting below a byte what is there already changes nothing.
    pub proof fn lemma_with_own_kid(self, x: u8)
        requires
            self is Inner,
            self.full(),
        ensures
            self.with_kid(x, self.kid(x)) == self,
    {
        self.lemma_with_kid(x, self.kid(x));
        self.with_kid(x, self.kid(x)).lemma_equal(self);
    }

    /// Two branchings with the same compressed path, the same time stamp and the same below every
    /// byte are the same.
    pub proof fn lemma_equal(self, other: Shape)
        requires
            self is Inner,
            other is Inner,
            self.full(),
            other.full(),
            self.prefix() == other.prefix(),
            self.ts() == other.ts(),
            forall|x: u8| #[trigger] self.kid(x) == other.kid(x),
        ensures
            self == other,
    {
        match (self, other) {
            (Shape::Inner(_, _, a), Shape::Inner(_, _, b)) => {
                assert forall|x: int| 0 <= x < 256 implies a[x] == b[x] by {
                    assert(self.kid(x as u8) == other.kid(x as u8));
                }
                assert(a =~= b);
            },
            _ => {},
        }
    }
}

impl NodePtr {
    /// The shape of the tree.
    pub open spec fn shape(self) -> Shape
        decreases self,
        via Self::shape_decreases
    {
        match self {
            NodePtr::Empty => Shape::Empty,
            NodePtr::Value(twig) => Shape::Leaf(*twig),
            _ => Shape::Inner(
                self.hdr().prefix(),
                self.hdr().ts,
                Seq::new(
                    256,
                    |x: int|
                        if self.kid(x as u8) is Empty {
                            Shape::Empty
                        } else {
                            self.kid(x as u8).shape()
                        },
                ),
            ),
        }
    }

    #[via_fn]
    proof fn shape_decreases(self) {
        assert forall|x: u8| !(#[trigger] self.kid(x) is Empty) implies decreases_to!(
            self => self.kid(x)
        ) by {
            self.lemma_kid_is_smaller(x);
        }
    }

    /// The shape of a tree branches over all bytes everywhere, and has the leaves of the tree.
    pub proof fn lemma_shape_path(self, path: Seq<u8>)
        ensures
            self.shape().deep(path),
            self.shape().lookup(path) == self.lookup(path),
        decreases path.len(),
    {
        self.lemma_shape();
        if path.len() > 0 && self.leads(path) {
            assert(self.shape().leads(path));
            self.kid(self.branch(path)).lemma_shape_path(self.rest(path));
        }
    }

    /// Two nodes with the same compressed path and time stamp and with children of the same
    /// shapes are of the same shape.
    pub proof fn lemma_same_shape(self, other: NodePtr)
        requires
            self.is_inner(),
            other.is_inner(),
            self.hdr().prefix() == other.hdr().prefix(),
            self.hdr().ts == other.hdr().ts,
            forall|x: u8| (#[trigger] self.kid(x)).shape() == other.kid(x).shape(),
        ensures
            self.shape() == other.shape(),
    {
        self.lemma_shape();
        other.lemma_shape();
        assert forall|x: u8| #[trigger] self.shape().kid(x) == other.shape().kid(x) by {
            assert(self.kid(x).shape() == other.kid(x).shape());
        }
        self.shape().lemma_equal(other.shape());
    }

    /// The shape of a node without children.
    pub proof fn lemma_childless_shape(self)
        requires
            self.is_inner(),
            forall|x: u8| #[trigger] self.kid(x) is Empty,
        ensures
            self.shape() == Shape::Inner(self.hdr().prefix(), self.hdr().ts, no_kids()),
            self.shape().pruned() is Empty,
    {
        self.lemma_shape();
        let bare = Shape::Inner(self.hdr().prefix(), self.hdr().ts, no_kids());
        assert forall|x: u8| #[trigger] self.shape().kid(x) == bare.kid(x) by {
            assert(self.kid(x) is Empty);
        }
        self.shape().lemma_equal(bare);
    }

    /// A node with children keeps its place when branchings with nothing below them go.
    pub proof fn lemma_pruned_shape(self)
        requires
            self.is_inner(),
            self.layout(),
            self.live() > 0,
        ensures
            self.shape().pruned() == self.shape(),
    {
        self.lemma_shape();
        self.lemma_live();
        let x = choose|x: u8| !(#[trigger] self.kid(x) is Empty);
        self.kid(x).lemma_shape();
        assert(!(self.shape().kid(x) is Empty));
    }

    /// The shape of a node is made of its compressed path, its time stamp and the shapes of its
    /// children.
    pub proof fn lemma_shape(self)
        ensures
            self.shape().full(),
            self is Empty == self.shape() is Empty,
            self.is_inner() == self.shape() is Inner,
            self.is_inner() ==> self.shape().prefix() == self.hdr().prefix(),
            self.is_inner() ==> self.shape().ts() == self.hdr().ts,
            forall|x: u8| #[trigger] self.shape().kid(x) == self.kid(x).shape(),
            forall|path: Seq<u8>| #[trigger] self.shape().leads(path) == self.leads(path),
            forall|path: Seq<u8>|
                self.is_inner() ==> #[trigger] self.shape().branch(path) == self.branch(path),
            forall|path: Seq<u8>|
                self.is_inner() ==> #[trigger] self.shape().rest(path) == self.rest(path),
    {
        assert forall|x: u8| #[trigger] self.shape().kid(x) == self.kid(x).shape() by {
            assert((x as int) as u8 == x);
        }
    }
}

} // verus!

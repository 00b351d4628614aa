//! What every node of the tree carries besides its children, and the documents in the leaves.

use vstd::prelude::*;

verus! {

/// The most bytes that one node can hold as its compressed path.
pub const MAX_PATH_COMPRESSION_BYTES: usize = 9;

/// The header of a node: the compressed path that leads to its branching byte, the number of
/// its children, and a time stamp.
#[derive(Clone, Copy, Debug, PartialEq)]
pub struct NodeHeader {
    pub path: [u8; MAX_PATH_COMPRESSION_BYTES],
    pub path_len: u8,
    pub children: u16,
    pub ts: u64,
}

/// `bytes`, filled up with zeros to as many bytes as a header has room for.
pub open spec fn padded(bytes: Seq<u8>) -> Seq<u8> {
    bytes + Seq::new((MAX_PATH_COMPRESSION_BYTES - bytes.len()) as nat, |i: int| 0u8)
}

impl NodeHeader {
    /// The compressed path: the bytes of `path` that are in use.
    pub open spec fn prefix(self) -> Seq<u8> {
        self.path@.take(self.path_len as int)
    }

    /// No more bytes are in use than there is room for.
    pub open spec fn fits(self) -> bool {
        self.path_len <= MAX_PATH_COMPRESSION_BYTES
    }

    /// The same header with another number of children.
    pub open spec fn with_children(self, children: u16) -> NodeHeader {
        NodeHeader { children, ..self }
    }

    /// A header whose compressed path is `bytes`.
    pub fn with_path(bytes: &[u8]) -> (header: NodeHeader)
        requires
            bytes@.len() <= MAX_PATH_COMPRESSION_BYTES,
        ensures
            header.path@ == padded(bytes@),
            header.path_len == bytes@.len(),
            header.children == 0,
            header.ts == 0,
            header.fits(),
            header.prefix() == bytes@,
    {
        let mut header = none_header();
        for i in 0..bytes.len()
            invariant
                bytes@.len() <= MAX_PATH_COMPRESSION_BYTES,
                header.children == 0,
                header.ts == 0,
                forall|j: int| 0 <= j < i ==> #[trigger] header.path@[j] == bytes@[j],
                forall|j: int| i <= j < MAX_PATH_COMPRESSION_BYTES ==> #[trigger] header.path@[j] == 0,
        {
            header.path[i] = bytes[i];
        }
        header.path_len = bytes.len() as u8;
        assert(header.prefix() =~= bytes@);
        header
    }

    /// Takes the first `n` bytes off the compressed path, by rotating them to the end.
    pub fn strip(&mut self, n: usize)
        requires
            old(self).fits(),
            n <= old(self).path_len,
        ensures
            final(self).path@ == old(self).path@.skip(n as int) + old(self).path@.take(n as int),
            final(self).path_len == old(self).path_len - n,
            final(self).children == old(self).children,
            final(self).ts == old(self).ts,
            final(self).fits(),
            final(self).prefix() == old(self).prefix().skip(n as int),
    {
        let path = self.path;
        let ghost rotated = path@.skip(n as int) + path@.take(n as int);
        let ghost header = *self;
        for i in 0..MAX_PATH_COMPRESSION_BYTES
            invariant
                n <= MAX_PATH_COMPRESSION_BYTES,
                rotated == path@.skip(n as int) + path@.take(n as int),
                self.path_len == header.path_len,
                self.children == header.children,
                self.ts == header.ts,
                forall|j: int| 0 <= j < i ==> #[trigger] self.path@[j] == rotated[j],
        {
            self.path[i] = if i < MAX_PATH_COMPRESSION_BYTES - n {
                path[i + n]
            } else {
                path[i - (MAX_PATH_COMPRESSION_BYTES - n)]
            };
        }
        self.path_len = self.path_len - n as u8;
        assert(self.path@ =~= rotated);
        assert(self.prefix() =~= header.prefix().skip(n as int));
    }

    /// The bytes of the compressed path.
    pub fn prefix_bytes(&self) -> (bytes: &[u8])
        requires
            self.fits(),
        ensures
            bytes@ == self.prefix(),
    {
        &self.path[0..self.path_len as usize]
    }
}

/// The header without path, children or time stamp.
pub open spec fn blank_header() -> NodeHeader {
    NodeHeader { children: 0, path_len: 0, path: [0;MAX_PATH_COMPRESSION_BYTES], ts: 0 }
}

impl Default for NodeHeader {
    fn default() -> (header: NodeHeader)
        ensures
            header == blank_header(),
    {
        none_header()
    }
}

/// The header that stands for a node that is not there.
pub fn none_header() -> (header: NodeHeader)
    ensures
        header == blank_header(),
{
    NodeHeader { children: 0, path_len: 0, path: [0;MAX_PATH_COMPRESSION_BYTES], ts: 0 }
}

/// A shared header that stands for every node that is not there.
pub fn none_header_ref() -> (header: &'static NodeHeader)
    ensures
        *header == blank_header(),
{
    &NodeHeader { children: 0, path_len: 0, path: [0;MAX_PATH_COMPRESSION_BYTES], ts: 0 }
}

/// A leaf of the tree: a header of its own and the document that it holds.
#[derive(Debug, PartialEq)]
pub struct TwigNode {
    pub header: NodeHeader,
    pub doc: String,
}

impl TwigNode {
    /// A leaf that holds `doc` under `header`.
    pub fn new(header: NodeHeader, doc: String) -> (twig: Self)
        ensures
            twig.header == header,
            twig.doc == doc,
    {
        TwigNode { header, doc }
    }
}

impl Clone for TwigNode {
    fn clone(&self) -> (twig: Self)
        ensures
            twig == *self,
    {
        TwigNode { header: self.header, doc: self.doc.clone() }
    }
}

} // verus!

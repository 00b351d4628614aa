//! The two ways in which a node finds a child for a byte: a list of keys beside the slots, and
//! an index from bytes to slots.

use crate::counting::{count, lemma_count_bounds, lemma_count_take, lemma_count_update, weight};
use crate::pointer::NodePtr;
use vstd::prelude::*;

verus! {

/// Which of the slots hold something.
pub open spec fn filled(slots: Seq<NodePtr>) -> Seq<bool> {
    Seq::new(slots.len(), |i: int| !(slots[i] is Empty))
}

/// How many of the slots hold something.
pub open spec fn live(slots: Seq<NodePtr>) -> nat {
    count(filled(slots))
}

/// Slot `i` holds the child for `byte`.
pub open spec fn holds(
    keys: Seq<Option<u8>>,
    slots: Seq<NodePtr>,
    byte: u8,
    i: int,
) -> bool {
    &&& 0 <= i < slots.len()
    &&& keys[i] == Some(byte)
    &&& !(slots[i] is Empty)
}

/// The child for `byte` where each slot has a key of its own.
pub open spec fn keyed_kid(keys: Seq<Option<u8>>, slots: Seq<NodePtr>, byte: u8) -> NodePtr {
    if exists|i: int| holds(keys, slots, byte, i) {
        slots[choose|i: int| holds(keys, slots, byte, i)]
    } else {
        NodePtr::Empty
    }
}

/// Slot `i` is the first one that is empty.
pub open spec fn first_empty(slots: Seq<NodePtr>, i: int) -> bool {
    &&& 0 <= i < slots.len()
    &&& slots[i] is Empty
    &&& forall|j: int| 0 <= j < i ==> !(#[trigger] slots[j] is Empty)
}

/// Slot `i` is the place for `byte` where each slot has a key of its own: the slot that holds
/// its child, or else the first one that is empty.
pub open spec fn keyed_place(
    keys: Seq<Option<u8>>,
    slots: Seq<NodePtr>,
    byte: u8,
    i: int,
) -> bool {
    if keyed_kid(keys, slots, byte) is Empty {
        first_empty(slots, i)
    } else {
        holds(keys, slots, byte, i)
    }
}

/// Every slot in use has a key, and no earlier slot carries that key, in use or not.
pub open spec fn keyed_layout(keys: Seq<Option<u8>>, slots: Seq<NodePtr>) -> bool {
    &&& keys.len() == slots.len()
    &&& forall|i: int| 0 <= i < slots.len() && !(#[trigger] slots[i] is Empty) ==> keys[i] is Some
    &&& forall|i: int, j: int|
        #![trigger keys[i], slots[j]]
        0 <= i < j < slots.len() && !(slots[j] is Empty) ==> keys[i] != keys[j]
}

/// The child for `byte` where an index says which slot a byte has.
pub open spec fn indexed_kid(index: Seq<Option<u8>>, slots: Seq<NodePtr>, byte: u8) -> NodePtr {
    match index[byte as int] {
        Some(i) => if i < slots.len() {
            slots[i as int]
        } else {
            NodePtr::Empty
        },
        None => NodePtr::Empty,
    }
}

/// Slot `i` is the place for `byte` where an index says which slot a byte has: that slot, or
/// else the first one that is empty.
pub open spec fn indexed_place(
    index: Seq<Option<u8>>,
    slots: Seq<NodePtr>,
    byte: u8,
    i: int,
) -> bool {
    match index[byte as int] {
        Some(n) => i == n,
        None => first_empty(slots, i),
    }
}

/// Which bytes have a slot.
pub open spec fn indexed(index: Seq<Option<u8>>) -> Seq<bool> {
    Seq::new(index.len(), |b: int| index[b] is Some)
}

/// Every byte in the index has a slot of its own that is in use, and every slot in use belongs
/// to a byte, which is said by the two numbers being equal.
pub open spec fn indexed_layout(index: Seq<Option<u8>>, slots: Seq<NodePtr>) -> bool {
    &&& index.len() == 256
    &&& forall|b: int|
        0 <= b < 256 && (#[trigger] index[b]) is Some ==> index[b]->0 < slots.len() && !(
        slots[index[b]->0 as int] is Empty)
    &&& forall|a: int, b: int|
        0 <= a < b < 256 && (#[trigger] index[a]) is Some ==> index[a] != #[trigger] index[b]
    &&& count(indexed(index)) == live(slots)
}

/// `children` lists the children by byte, in ascending order.
pub open spec fn lists(
    children: Seq<(Option<u8>, &NodePtr)>,
    kids: spec_fn(u8) -> NodePtr,
) -> bool {
    &&& forall|j: int|
        0 <= j < children.len() ==> (#[trigger] children[j]).0 is Some && !(
        *children[j].1 is Empty) && *children[j].1 == kids(children[j].0->0)
    &&& forall|i: int, j: int|
        0 <= i < j < children.len() ==> (#[trigger] children[i]).0->0 < (
        #[trigger] children[j]).0->0
    &&& forall|x: u8|
        !(#[trigger] kids(x) is Empty) ==> exists|j: int|
            0 <= j < children.len() && (#[trigger] children[j]).0 == Some(x)
}

/// Where the layout is right, the child for a byte is in the one slot that holds it.
pub proof fn lemma_keyed_kid(keys: Seq<Option<u8>>, slots: Seq<NodePtr>, byte: u8, i: int)
    requires
        keyed_layout(keys, slots),
        holds(keys, slots, byte, i),
    ensures
        keyed_kid(keys, slots, byte) == slots[i],
{
    let j = choose|j: int| holds(keys, slots, byte, j);
    assert(holds(keys, slots, byte, j));
    if i < j {
        assert(keys[i] != keys[j]);
    } else if j < i {
        assert(keys[j] != keys[i]);
    }
}

/// Storing `node` in slot `i` changes the number of slots in use accordingly.
pub proof fn lemma_live_update(slots: Seq<NodePtr>, i: int, node: NodePtr)
    requires
        0 <= i < slots.len(),
    ensures
        live(slots.update(i, node)) + weight(!(slots[i] is Empty)) == live(slots) + weight(
            !(node is Empty),
        ),
{
    assert(filled(slots.update(i, node)) =~= filled(slots).update(i, !(node is Empty)));
    lemma_count_update(filled(slots), i, !(node is Empty));
}

/// The number of slots in use, at its least and at its most.
pub proof fn lemma_live_bounds(slots: Seq<NodePtr>)
    ensures
        live(slots) <= slots.len(),
        live(slots) == slots.len() <==> (forall|i: int|
            0 <= i < slots.len() ==> !(#[trigger] slots[i] is Empty)),
        live(slots) == 0 <==> (forall|i: int| 0 <= i < slots.len() ==> #[trigger] slots[i] is Empty),
{
    let flags = filled(slots);
    lemma_count_bounds(flags);
    assert forall|i: int| 0 <= i < slots.len() implies flags[i] == !(#[trigger] slots[i] is Empty) by {
    }
    if count(flags) == flags.len() {
        assert forall|i: int| 0 <= i < slots.len() implies !(#[trigger] slots[i] is Empty) by {
            assert(flags[i]);
        }
    }
    if count(flags) == 0 {
        assert forall|i: int| 0 <= i < slots.len() implies #[trigger] slots[i] is Empty by {
            assert(!flags[i]);
        }
    }
}

/// Storing `node` for `byte`, in the slot that holds its child or else in the first free slot,
/// keeps the layout and changes the child for `byte` alone.
pub proof fn lemma_keyed_put(
    keys: Seq<Option<u8>>,
    slots: Seq<NodePtr>,
    byte: u8,
    i: int,
    node: NodePtr,
)
    requires
        keyed_layout(keys, slots),
        0 <= i < slots.len(),
        holds(keys, slots, byte, i) || (keyed_kid(keys, slots, byte) is Empty && slots[i] is Empty
            && forall|j: int| 0 <= j < i ==> !(#[trigger] slots[j] is Empty)),
    ensures
        keyed_layout(keys.update(i, Some(byte)), slots.update(i, node)),
        keyed_kid(keys, slots, byte) == slots[i],
        forall|x: u8|
            #[trigger] keyed_kid(keys.update(i, Some(byte)), slots.update(i, node), x) == (if x
                == byte {
                node
            } else {
                keyed_kid(keys, slots, x)
            }),
{
    let keys2 = keys.update(i, Some(byte));
    let slots2 = slots.update(i, node);
    if holds(keys, slots, byte, i) {
        lemma_keyed_kid(keys, slots, byte, i);
    }
    assert forall|j: int| 0 <= j < slots.len() && j != i && !(#[trigger] slots[j] is Empty) implies keys[j]
        != Some(byte) by {
        if keys[j] == Some(byte) {
            assert(holds(keys, slots, byte, j));
            lemma_keyed_kid(keys, slots, byte, j);
            if j < i {
                assert(keys[j] != keys[i] || slots[i] is Empty);
            }
            if i < j && !(slots[i] is Empty) {
                assert(keys[i] != keys[j]);
            }
        }
    }
    assert(keyed_layout(keys2, slots2)) by {
        assert forall|a: int, b: int|
            #![trigger keys2[a], slots2[b]]
            0 <= a < b < slots2.len() && !(slots2[b] is Empty) implies keys2[a] != keys2[b] by {
            if b == i {
                if holds(keys, slots, byte, i) {
                    assert(keys[a] != keys[i]);
                } else {
                    assert(!(slots[a] is Empty));
                }
            } else if a == i {
                assert(!(slots[b] is Empty));
                assert(keys[b] is Some);
            } else {
                assert(!(slots[b] is Empty));
                assert(keys[a] != keys[b]);
            }
        }
    }
    assert forall|x: u8|
        #[trigger] keyed_kid(keys2, slots2, x) == (if x == byte {
            node
        } else {
            keyed_kid(keys, slots, x)
        }) by {
        if x == byte {
            if node is Empty {
                assert forall|j: int| !holds(keys2, slots2, x, j) by {
                    if holds(keys2, slots2, x, j) {
                        assert(j != i);
                        assert(!(slots[j] is Empty));
                    }
                }
            } else {
                assert(holds(keys2, slots2, x, i));
                lemma_keyed_kid(keys2, slots2, x, i);
            }
        } else {
            if exists|j: int| holds(keys, slots, x, j) {
                let j = choose|j: int| holds(keys, slots, x, j);
                lemma_keyed_kid(keys, slots, x, j);
                assert(j != i) by {
                    if j == i {
                        assert(holds(keys, slots, byte, i));
                    }
                }
                assert(holds(keys2, slots2, x, j));
                lemma_keyed_kid(keys2, slots2, x, j);
            } else {
                assert forall|j: int| !holds(keys2, slots2, x, j) by {
                    if holds(keys2, slots2, x, j) {
                        assert(j != i);
                        assert(holds(keys, slots, x, j));
                    }
                }
            }
        }
    }
}

/// Where the slots in use list the children of a node, each under its byte, the child for a
/// byte is the child that the node has for it.
pub proof fn lemma_keyed_listing(
    keys: Seq<Option<u8>>,
    slots: Seq<NodePtr>,
    kids: spec_fn(u8) -> NodePtr,
)
    requires
        keyed_layout(keys, slots),
        forall|j: int|
            0 <= j < slots.len() && !(#[trigger] slots[j] is Empty) ==> slots[j] == kids(
                keys[j]->0,
            ),
        forall|x: u8|
            !(#[trigger] kids(x) is Empty) ==> exists|j: int| holds(keys, slots, x, j),
    ensures
        forall|x: u8| #[trigger] keyed_kid(keys, slots, x) == kids(x),
{
    assert forall|x: u8| #[trigger] keyed_kid(keys, slots, x) == kids(x) by {
        if exists|j: int| holds(keys, slots, x, j) {
            let j = choose|j: int| holds(keys, slots, x, j);
            lemma_keyed_kid(keys, slots, x, j);
        } else {
            assert(kids(x) is Empty);
        }
    }
}

/// Storing `node` for `byte` in slot `i`, which is its slot already or else a free one, keeps
/// the layout where `node` is something, and else once the byte has left the index. It changes
/// the child for `byte` alone.
pub proof fn lemma_indexed_put(
    index: Seq<Option<u8>>,
    slots: Seq<NodePtr>,
    byte: u8,
    i: u8,
    node: NodePtr,
)
    requires
        indexed_layout(index, slots),
        i < slots.len(),
        index[byte as int] == Some(i) || (index[byte as int] is None && slots[i as int] is Empty),
    ensures
        !(node is Empty) ==> indexed_layout(
            index.update(byte as int, Some(i)),
            slots.update(i as int, node),
        ),
        node is Empty ==> indexed_layout(
            index.update(byte as int, None),
            slots.update(i as int, node),
        ),
        forall|x: u8|
            x != byte ==> #[trigger] indexed_kid(
                index.update(byte as int, Some(i)),
                slots.update(i as int, node),
                x,
            ) == indexed_kid(index, slots, x),
        forall|x: u8|
            x != byte ==> #[trigger] indexed_kid(
                index.update(byte as int, None),
                slots.update(i as int, node),
                x,
            ) == indexed_kid(index, slots, x),
{
    let with = index.update(byte as int, Some(i));
    let without = index.update(byte as int, None);
    let slots2 = slots.update(i as int, node);
    lemma_live_update(slots, i as int, node);
    lemma_count_update(indexed(index), byte as int, true);
    lemma_count_update(indexed(index), byte as int, false);
    assert(indexed(with) =~= indexed(index).update(byte as int, true));
    assert(indexed(without) =~= indexed(index).update(byte as int, false));
    assert forall|b: int| 0 <= b < 256 && b != byte && (#[trigger] index[b]) is Some implies index[b]->0
        != i by {
        if index[byte as int] == Some(i) {
            if b < byte {
                assert(index[b] != index[byte as int]);
            } else {
                assert(index[byte as int] != index[b]);
            }
        }
    }
}

/// A slot in use is found under its key.
pub proof fn lemma_keyed_some(keys: Seq<Option<u8>>, slots: Seq<NodePtr>)
    requires
        keyed_layout(keys, slots),
    ensures
        live(slots) > 0 ==> exists|x: u8| !(#[trigger] keyed_kid(keys, slots, x) is Empty),
{
    lemma_live_bounds(slots);
    if live(slots) > 0 {
        let i = choose|i: int| 0 <= i < slots.len() && !(#[trigger] slots[i] is Empty);
        lemma_keyed_kid(keys, slots, keys[i]->0, i);
    }
}

/// Where there is a slot in use, there is a byte that leads to one.
pub proof fn lemma_indexed_some(index: Seq<Option<u8>>, slots: Seq<NodePtr>)
    requires
        indexed_layout(index, slots),
    ensures
        live(slots) > 0 ==> exists|x: u8| !(#[trigger] indexed_kid(index, slots, x) is Empty),
        live(slots) == 0 ==> forall|x: u8| #[trigger] indexed_kid(index, slots, x) is Empty,
{
    lemma_count_bounds(indexed(index));
    lemma_live_bounds(slots);
    if live(slots) > 0 {
        let b = choose|b: int| 0 <= b < 256 && #[trigger] indexed(index)[b];
        assert(!(indexed_kid(index, slots, b as u8) is Empty));
    }
}

/// A list of `n` empty slots.
pub fn no_slots(n: usize) -> (slots: Vec<NodePtr>)
    ensures
        slots@.len() == n,
        forall|i: int| 0 <= i < n ==> #[trigger] slots@[i] is Empty,
        live(slots@) == 0,
{
    let mut slots: Vec<NodePtr> = Vec::with_capacity(n);
    for k in 0..n
        invariant
            slots@.len() == k,
            forall|i: int| 0 <= i < k ==> #[trigger] slots@[i] is Empty,
    {
        slots.push(NodePtr::Empty);
    }
    proof {
        lemma_live_bounds(slots@);
    }
    slots
}

/// The first slot that is empty.
pub fn first_free(slots: &Vec<NodePtr>) -> (found: Option<usize>)
    ensures
        match found {
            Some(i) => i < slots@.len() && slots@[i as int] is Empty && forall|j: int|
                0 <= j < i ==> !(#[trigger] slots@[j] is Empty),
            None => forall|j: int| 0 <= j < slots@.len() ==> !(#[trigger] slots@[j] is Empty),
        },
{
    let n = slots.len();
    let mut i: usize = 0;
    while i < n
        invariant
            i <= n == slots@.len(),
            forall|j: int| 0 <= j < i ==> !(#[trigger] slots@[j] is Empty),
        decreases n - i,
    {
        if slots[i].is_none() {
            return Some(i);
        }
        i = i + 1;
    }
    None
}

/// Counts the slots in use.
pub fn count_filled(slots: &Vec<NodePtr>) -> (n: usize)
    ensures
        n == live(slots@),
{
    let mut n: usize = 0;
    for i in 0..slots.len()
        invariant
            n == count(filled(slots@).take(i as int)),
            n <= i,
    {
        proof {
            lemma_count_take(filled(slots@), i as int);
        }
        if !slots[i].is_none() {
            n = n + 1;
        }
    }
    assert(filled(slots@).take(slots@.len() as int) =~= filled(slots@));
    n
}

/// Lists the children by byte, in ascending order, where each slot has a key of its own.
pub fn sorted_children<'a>(keys: &[Option<u8>], slots: &'a Vec<NodePtr>) -> (children: Vec<
    (Option<u8>, &'a NodePtr),
>)
    requires
        keyed_layout(keys@, slots@),
    ensures
        lists(children@, |x: u8| keyed_kid(keys@, slots@, x)),
{
    let mut children: Vec<(Option<u8>, &'a NodePtr)> = Vec::new();
    let ghost mut from: Seq<int> = Seq::empty();
    let n = slots.len();
    for i in 0..n
        invariant
            n == slots@.len() == keys@.len(),
            keyed_layout(keys@, slots@),
            from.len() == children@.len(),
            forall|j: int|
                0 <= j < children@.len() ==> {
                    &&& 0 <= #[trigger] from[j] < i
                    &&& !(slots@[from[j]] is Empty)
                    &&& children@[j].0 == keys@[from[j]]
                    &&& children@[j].0 is Some
                    &&& *children@[j].1 == slots@[from[j]]
                },
            forall|a: int, b: int|
                0 <= a < b < children@.len() ==> (#[trigger] children@[a]).0->0 < (
                #[trigger] children@[b]).0->0,
            forall|s: int| 0 <= s < i && !(#[trigger] slots@[s] is Empty) ==> from.contains(s),
    {
        if !slots[i].is_none() {
            let key: u8 = keys[i].unwrap();
            let len = children.len();
            let mut pos: usize = 0;
            assert forall|j: int| 0 <= j < children@.len() implies (
            #[trigger] children@[j]).0 is Some by {
                assert(0 <= from[j]);
            }
            while pos < len && children[pos].0.unwrap() < key
                invariant
                    pos <= len == children@.len(),
                    from.len() == children@.len(),
                    forall|j: int| 0 <= j < children@.len() ==> (#[trigger] children@[j]).0 is Some,
                    forall|j: int| 0 <= j < pos ==> (#[trigger] children@[j]).0->0 < key,
                decreases len - pos,
            {
                pos = pos + 1;
            }
            let ghost children0 = children@;
            let ghost from0 = from;
            children.insert(pos, (keys[i], &slots[i]));
            proof {
                from = from.insert(pos as int, i as int);
                assert forall|j: int| pos <= j < children0.len() implies key < (
                #[trigger] children0[j]).0->0 by {
                    assert(keys@[from0[j]] != keys@[i as int]);
                    if pos < j {
                        assert(children0[pos as int].0->0 < children0[j].0->0);
                    }
                }
                assert forall|a: int, b: int| 0 <= a < b < children@.len() implies (
                #[trigger] children@[a]).0->0 < (#[trigger] children@[b]).0->0 by {
                    let a0 = if a < pos { a } else { a - 1 };
                    let b0 = if b < pos { b } else { b - 1 };
                    if a != pos {
                        assert(children@[a] == children0[a0]);
                    }
                    if b != pos {
                        assert(children@[b] == children0[b0]);
                    }
                }
                assert forall|j: int| 0 <= j < children@.len() implies {
                    &&& 0 <= #[trigger] from[j] < i + 1
                    &&& !(slots@[from[j]] is Empty)
                    &&& children@[j].0 == keys@[from[j]]
                    &&& children@[j].0 is Some
                    &&& *children@[j].1 == slots@[from[j]]
                } by {
                    if j < pos {
                        assert(from[j] == from0[j]);
                    } else if j > pos {
                        assert(from[j] == from0[j - 1]);
                    }
                }
                assert forall|s: int|
                    0 <= s < i + 1 && !(#[trigger] slots@[s] is Empty) implies from.contains(s) by {
                    if s < i {
                        let j = choose|j: int| 0 <= j < from0.len() && from0[j] == s;
                        let j1 = if j < pos { j } else { j + 1 };
                        assert(from[j1] == s);
                    } else {
                        assert(from[pos as int] == s);
                    }
                }
            }
        }
    }
    proof {
        assert forall|j: int| 0 <= j < children@.len() implies (#[trigger] children@[j]).0 is Some
            && !(*children@[j].1 is Empty) && *children@[j].1 == keyed_kid(
            keys@,
            slots@,
            children@[j].0->0,
        ) by {
            assert(0 <= from[j] < n);
            lemma_keyed_kid(keys@, slots@, children@[j].0->0, from[j]);
        }
        assert forall|x: u8| !(#[trigger] keyed_kid(keys@, slots@, x) is Empty) implies exists|
            j: int,
        | 0 <= j < children@.len() && (#[trigger] children@[j]).0 == Some(x) by {
            let s = choose|s: int| holds(keys@, slots@, x, s);
            let j = choose|j: int| 0 <= j < from.len() && from[j] == s;
            assert(children@[j].0 == Some(x));
        }
    }
    children
}

/// The first position of `byte` among the keys.
pub fn first_key(keys: &[Option<u8>], byte: u8) -> (found: Option<usize>)
    ensures
        match found {
            Some(i) => i < keys@.len() && keys@[i as int] == Some(byte) && forall|j: int|
                0 <= j < i ==> #[trigger] keys@[j] != Some(byte),
            None => forall|j: int| 0 <= j < keys@.len() ==> #[trigger] keys@[j] != Some(byte),
        },
{
    let n = keys.len();
    let mut i: usize = 0;
    while i < n
        invariant
            i <= n == keys@.len(),
            forall|j: int| 0 <= j < i ==> #[trigger] keys@[j] != Some(byte),
        decreases n - i,
    {
        if keys[i] == Some(byte) {
            return Some(i);
        }
        i = i + 1;
    }
    None
}

} // verus!

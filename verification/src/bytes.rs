//! Byte strings: prefixes, and how two keys may relate.

use vstd::prelude::*;

verus! {

/// Two keys clash when they differ and one of them is an initial part of the other. A radix
/// tree without end markers cannot hold both.
pub open spec fn clash(a: Seq<u8>, b: Seq<u8>) -> bool {
    a != b && (a.is_prefix_of(b) || b.is_prefix_of(a))
}

/// The number of leading positions at which `a` and `b` agree.
pub open spec fn shared_len(a: Seq<u8>, b: Seq<u8>) -> nat
    decreases a.len(),
{
    if a.len() == 0 || b.len() == 0 || a[0] != b[0] {
        0
    } else {
        1 + shared_len(a.skip(1), b.skip(1))
    }
}

/// The shared length is the largest `n` such that `a` and `b` agree below `n`.
pub proof fn lemma_shared_len(a: Seq<u8>, b: Seq<u8>)
    ensures
        shared_len(a, b) <= a.len(),
        shared_len(a, b) <= b.len(),
        a.take(shared_len(a, b) as int) == b.take(shared_len(a, b) as int),
        shared_len(a, b) < a.len() && shared_len(a, b) < b.len() ==> a[shared_len(a, b) as int]
            != b[shared_len(a, b) as int],
    decreases a.len(),
{
    if !(a.len() == 0 || b.len() == 0 || a[0] != b[0]) {
        let n = shared_len(a.skip(1), b.skip(1)) as int;
        lemma_shared_len(a.skip(1), b.skip(1));
        assert forall|i: int| 0 <= i < n + 1 implies a[i] == b[i] by {
            if i > 0 {
                assert(a.skip(1).take(n)[i - 1] == b.skip(1).take(n)[i - 1]);
            }
        }
        assert(a.take(n + 1) =~= b.take(n + 1));
        if n + 1 < a.len() && n + 1 < b.len() {
            assert(a.skip(1)[n] == a[n + 1]);
            assert(b.skip(1)[n] == b[n + 1]);
        }
    } else {
        assert(a.take(0) =~= b.take(0));
    }
}

/// Says whether `bytes` begins with `prefix`.
pub fn starts_with(bytes: &[u8], prefix: &[u8]) -> (yes: bool)
    ensures
        yes == prefix@.is_prefix_of(bytes@),
{
    if bytes.len() < prefix.len() {
        return false;
    }
    let mut i: usize = 0;
    while i < prefix.len()
        invariant
            i <= prefix.len() <= bytes.len(),
            forall|j: int| 0 <= j < i ==> prefix@[j] == bytes@[j],
        decreases prefix.len() - i,
    {
        if bytes[i] != prefix[i] {
            assert(bytes@.subrange(0, prefix@.len() as int)[i as int] != prefix@[i as int]);
            return false;
        }
        i = i + 1;
    }
    assert(prefix@ =~= bytes@.subrange(0, prefix@.len() as int));
    true
}

/// Counts the leading positions at which `a` and `b` agree.
pub fn count_shared(a: &[u8], b: &[u8]) -> (n: usize)
    ensures
        n == shared_len(a@, b@),
{
    let mut n: usize = 0;
    assert(a@.skip(0) =~= a@);
    assert(b@.skip(0) =~= b@);
    while n < a.len() && n < b.len() && a[n] == b[n]
        invariant
            n <= a.len(),
            n <= b.len(),
            shared_len(a@, b@) == n + shared_len(a@.skip(n as int), b@.skip(n as int)),
        decreases a.len() - n,
    {
        assert(a@.skip(n as int).skip(1) =~= a@.skip(n + 1));
        assert(b@.skip(n as int).skip(1) =~= b@.skip(n + 1));
        n = n + 1;
    }
    n
}

} // verus!

//! Counting the flags that are set in a sequence.

use vstd::prelude::*;

verus! {

/// How many of the flags are set.
pub open spec fn count(flags: Seq<bool>) -> nat
    decreases flags.len(),
{
    if flags.len() == 0 {
        0
    } else {
        count(flags.drop_last()) + weight(flags.last())
    }
}

/// What one flag adds to a count.
pub open spec fn weight(flag: bool) -> nat {
    if flag {
        1
    } else {
        0
    }
}

/// How many flags are set before position `i`.
pub open spec fn rank(flags: Seq<bool>, i: int) -> int {
    count(flags.take(i)) as int
}

/// A count is at most the number of flags, it reaches that number exactly when every flag is
/// set, and it is zero exactly when none is.
pub proof fn lemma_count_bounds(flags: Seq<bool>)
    ensures
        count(flags) <= flags.len(),
        count(flags) == flags.len() <==> (forall|i: int| 0 <= i < flags.len() ==> flags[i]),
        count(flags) == 0 <==> (forall|i: int| 0 <= i < flags.len() ==> !flags[i]),
    decreases flags.len(),
{
    if flags.len() > 0 {
        let init = flags.drop_last();
        lemma_count_bounds(init);
        assert(forall|i: int| 0 <= i < init.len() ==> init[i] == flags[i]);
        let n = flags.len() - 1;
        assert(flags.last() == flags[n]);
        if count(flags) == flags.len() {
            assert forall|i: int| 0 <= i < flags.len() implies flags[i] by {
                if i < n {
                    assert(init[i]);
                }
            }
        }
        if count(flags) == 0 {
            assert forall|i: int| 0 <= i < flags.len() implies !flags[i] by {
                if i < n {
                    assert(!init[i]);
                }
            }
        }
    }
}

/// Changing one flag changes the count by the difference of the two weights.
pub proof fn lemma_count_update(flags: Seq<bool>, i: int, flag: bool)
    requires
        0 <= i < flags.len(),
    ensures
        count(flags.update(i, flag)) + weight(flags[i]) == count(flags) + weight(flag),
    decreases flags.len(),
{
    let changed = flags.update(i, flag);
    if i == flags.len() - 1 {
        assert(changed.drop_last() =~= flags.drop_last());
    } else {
        assert(changed.drop_last() =~= flags.drop_last().update(i, flag));
        lemma_count_update(flags.drop_last(), i, flag);
    }
}

/// The count over a longer initial part takes in the weight of the flag that was added.
pub proof fn lemma_count_take(flags: Seq<bool>, i: int)
    requires
        0 <= i < flags.len(),
    ensures
        count(flags.take(i + 1)) == count(flags.take(i)) + weight(flags[i]),
        count(flags.take(i + 1)) <= count(flags),
{
    assert(flags.take(i + 1).drop_last() =~= flags.take(i));
    lemma_count_take_le(flags, i + 1);
}

/// An initial part holds no more set flags than the whole.
pub proof fn lemma_count_take_le(flags: Seq<bool>, i: int)
    requires
        0 <= i <= flags.len(),
    ensures
        count(flags.take(i)) <= count(flags),
    decreases flags.len(),
{
    if i == flags.len() {
        assert(flags.take(i) =~= flags);
    } else {
        assert(flags.take(i) =~= flags.drop_last().take(i));
        lemma_count_take_le(flags.drop_last(), i);
    }
}

} // verus!

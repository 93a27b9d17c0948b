//! What the runtime's many-argument functions compute from the integers that
//! compiled code passes them, in registers and on the stack.

use vstd::prelude::*;

verus! {

/// The sum of the integers.
pub open spec fn seq_sum(s: Seq<i64>) -> int
    decreases s.len(),
{
    if s.len() == 0 {
        0
    } else {
        seq_sum(s.drop_last()) + s.last()
    }
}

/// Adding from the left, every partial sum fits in an `i64`.
pub open spec fn partial_sums_fit(s: Seq<i64>) -> bool {
    forall|k: int| 0 <= k <= s.len() ==> i64::MIN <= #[trigger] seq_sum(s.take(k)) <= i64::MAX
}

/// The sum of the arguments, added from the first to the last.
pub fn sum_arguments(xs: &[i64]) -> (r: i64)
    requires
        partial_sums_fit(xs@),
    ensures
        r == seq_sum(xs@),
{
    let mut acc: i64 = 0;
    let mut i: usize = 0;
    assert(xs@.take(0) =~= Seq::<i64>::empty());
    while i < xs.len()
        invariant
            i <= xs@.len(),
            partial_sums_fit(xs@),
            acc == seq_sum(xs@.take(i as int)),
        decreases xs@.len() - i,
    {
        assert(xs@.take(i + 1).drop_last() =~= xs@.take(i as int));
        assert(i64::MIN <= seq_sum(xs@.take(i + 1)) <= i64::MAX);
        acc = acc + xs[i];
        i = i + 1;
    }
    assert(xs@.take(xs@.len() as int) =~= xs@);
    acc
}

/// The sum adds up: the sum of one integer is that integer, and the sum of two
/// runs one after the other is the sum of their sums.
pub proof fn lemma_sum_splits(a: Seq<i64>, b: Seq<i64>, x: i64)
    ensures
        seq_sum(seq![x]) == x,
        seq_sum(Seq::<i64>::empty()) == 0,
        seq_sum(a + b) == seq_sum(a) + seq_sum(b),
    decreases b.len(),
{
    assert(seq![x].drop_last() =~= Seq::<i64>::empty());
    assert(seq_sum(Seq::<i64>::empty()) == 0);
    assert(seq![x].last() == x);
    assert(seq_sum(seq![x]) == seq_sum(seq![x].drop_last()) + x);
    if b.len() == 0 {
        assert(a + b =~= a);
    } else {
        lemma_sum_splits(a, b.drop_last(), x);
        assert((a + b).drop_last() =~= a + b.drop_last());
    }
}

} // verus!

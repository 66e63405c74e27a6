//! Sums of sizes in bytes.
use vstd::prelude::*;

verus! {

broadcast use vstd::seq::group_seq_axioms;

/// The sum of the sizes.
pub open spec fn total(sizes: Seq<u64>) -> nat
    decreases sizes.len(),
{
    if sizes.len() == 0 {
        0
    } else {
        total(sizes.drop_last()) + sizes.last() as nat
    }
}

/// Leaving out sizes at the end leaves a smaller sum.
proof fn lemma_total_grows(sizes: Seq<u64>, i: int)
    requires
        0 <= i <= sizes.len(),
    ensures
        total(sizes.take(i)) <= total(sizes),
    decreases sizes.len() - i,
{
    if i < sizes.len() {
        lemma_total_grows(sizes, i + 1);
        assert(sizes.take(i + 1).drop_last() =~= sizes.take(i));
    } else {
        assert(sizes.take(i) =~= sizes);
    }
}

/// The sum of the sizes, where it fits.
pub fn checked_total(sizes: &[u64]) -> (r: Option<u64>)
    ensures
        r matches Some(n) ==> n == total(sizes@),
        r is None ==> total(sizes@) > u64::MAX,
{
    let mut sum: u64 = 0;
    for i in 0..sizes.len()
        invariant
            sum == total(sizes@.take(i as int)),
    {
        assert(sizes@.take(i + 1).drop_last() =~= sizes@.take(i as int));
        proof {
            lemma_total_grows(sizes@, i + 1);
        }
        match sum.checked_add(sizes[i]) {
            Some(n) => {
                sum = n;
            },
            None => {
                return None;
            },
        }
    }
    assert(sizes@.take(sizes@.len() as int) =~= sizes@);
    Some(sum)
}

/// The sizes of two runs add up, and a single size is its own sum.
pub proof fn law_total(a: Seq<u64>, b: Seq<u64>, n: u64)
    ensures
        total(a + b) == total(a) + total(b),
        total(seq![n]) == n,
        total(Seq::empty()) == 0,
    decreases b.len(),
{
    assert(seq![n].drop_last() =~= Seq::<u64>::empty());
    reveal_with_fuel(total, 2);
    if b.len() == 0 {
        assert(a + b =~= a);
    } else {
        law_total(a, b.drop_last(), n);
        assert((a + b).drop_last() =~= a + b.drop_last());
    }
}

}

//! Facts about ordered lists.
use vstd::prelude::*;

verus! {

/// Two lists of the same elements, each in an order that goes one way only, are the same list.
pub proof fn lemma_one_order<A>(a: Seq<A>, b: Seq<A>, before: spec_fn(A, A) -> bool)
    requires
        forall|x: A| a.contains(x) <==> b.contains(x),
        forall|k: int, l: int|
            0 <= k < l < a.len() ==> before(#[trigger] a[k], #[trigger] a[l]) && !before(
                a[l],
                a[k],
            ),
        forall|k: int, l: int|
            0 <= k < l < b.len() ==> before(#[trigger] b[k], #[trigger] b[l]) && !before(
                b[l],
                b[k],
            ),
        forall|k: int| 0 <= k < a.len() ==> !before(#[trigger] a[k], a[k]),
        forall|k: int| 0 <= k < b.len() ==> !before(#[trigger] b[k], b[k]),
    ensures
        a == b,
    decreases a.len(),
{
    if a.len() == 0 {
        if b.len() > 0 {
            assert(b.contains(b[0]));
        }
        assert(a == b);
    } else {
        let x = a.last();
        assert(a.contains(x));
        let k = choose|k: int| 0 <= k < b.len() && b[k] == x;
        let y = b.last();
        assert(b.contains(y));
        let j = choose|j: int| 0 <= j < a.len() && a[j] == y;
        if k < b.len() - 1 {
            assert(before(b[k], b[b.len() - 1]));
            if j < a.len() - 1 {
                assert(before(a[j], a[a.len() - 1]));
            }
        }
        assert(x == y);
        let a0 = a.drop_last();
        let b0 = b.drop_last();
        assert forall|z: A| a0.contains(z) <==> b0.contains(z) by {
            if a0.contains(z) {
                let i = choose|i: int| 0 <= i < a0.len() && a0[i] == z;
                assert(a[i] == z);
                assert(a.contains(z));
                let m = choose|m: int| 0 <= m < b.len() && b[m] == z;
                assert(before(a[i], a[a.len() - 1]));
                assert(b0[m] == z);
            }
            if b0.contains(z) {
                let i = choose|i: int| 0 <= i < b0.len() && b0[i] == z;
                assert(b[i] == z);
                assert(b.contains(z));
                let m = choose|m: int| 0 <= m < a.len() && a[m] == z;
                assert(before(b[i], b[b.len() - 1]));
                assert(a0[m] == z);
            }
        }
        lemma_one_order(a0, b0, before);
        assert(a == a0.push(x));
        assert(b == b0.push(y));
    }
}

} // verus!

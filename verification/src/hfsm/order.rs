//! Search and ordering facts shared by the definition compiler and the evaluator.
use vstd::prelude::*;

verus! {

/// Smallest `i < n` with `p(i)`, or `n` when there is none.
pub open spec fn first_where(n: nat, p: spec_fn(int) -> bool) -> nat
    decreases n,
{
    if n == 0 {
        0
    } else {
        let f = first_where((n - 1) as nat, p);
        if f < n - 1 {
            f
        } else if p(n - 1) {
            (n - 1) as nat
        } else {
            n
        }
    }
}

/// `first_where` is the least witness, or `n` when nothing below `n` qualifies.
pub proof fn lemma_first_where(n: nat, p: spec_fn(int) -> bool)
    ensures
        first_where(n, p) <= n,
        forall|j: int| 0 <= j < first_where(n, p) ==> !#[trigger] p(j),
        first_where(n, p) < n ==> p(first_where(n, p) as int),
    decreases n,
{
    if n > 0 {
        lemma_first_where((n - 1) as nat, p);
    }
}

/// Pins `first_where` from a scan that found no witness below `i` and stopped at `i`.
pub proof fn lemma_first_where_is(n: nat, p: spec_fn(int) -> bool, i: int)
    requires
        0 <= i <= n,
        forall|j: int| 0 <= j < i ==> !#[trigger] p(j),
        i < n ==> p(i),
    ensures
        first_where(n, p) == i,
{
    lemma_first_where(n, p);
    let f = first_where(n, p) as int;
    if f < i {
        assert(!p(f));
    }
    if i < f {
        assert(!p(i));
    }
}

/// Two sequences that are strictly increasing under a strict order and hold the same
/// elements are equal.
pub proof fn lemma_sorted_unique(a: Seq<int>, b: Seq<int>, lt: spec_fn(int, int) -> bool)
    requires
        forall|x: int| #[trigger] lt(x, x) ==> false,
        forall|x: int, y: int, z: int| #[trigger] lt(x, y) && #[trigger] lt(y, z) ==> lt(x, z),
        forall|i: int, j: int| 0 <= i < j < a.len() ==> lt(a[i], a[j]),
        forall|i: int, j: int| 0 <= i < j < b.len() ==> lt(b[i], b[j]),
        forall|x: int| a.contains(x) <==> b.contains(x),
    ensures
        a == b,
    decreases a.len() + b.len(),
{
    if a.len() == 0 {
        if b.len() > 0 {
            assert(b.contains(b[0]));
        }
        assert(b.len() == 0);
        assert(a =~= b);
    } else if b.len() == 0 {
        assert(a.contains(a[0]));
    } else {
        assert(a.contains(a[0]));
        let k = choose|k: int| 0 <= k < b.len() && b[k] == a[0];
        assert(b.contains(b[0]));
        let m = choose|m: int| 0 <= m < a.len() && a[m] == b[0];
        if k > 0 {
            assert(lt(b[0], b[k]));
            if m > 0 {
                assert(lt(a[0], a[m]));
                assert(lt(a[0], a[0]));
            } else {
                assert(lt(a[0], a[0]));
            }
        }
        assert(a[0] == b[0]);
        let a1 = a.drop_first();
        let b1 = b.drop_first();
        assert forall|x: int| a1.contains(x) implies b1.contains(x) by {
            let i = choose|i: int| 0 <= i < a1.len() && a1[i] == x;
            assert(a.contains(x)) by {
                assert(a[i + 1] == x);
            }
            let j = choose|j: int| 0 <= j < b.len() && b[j] == x;
            assert(lt(a[0], a[i + 1]));
            if j == 0 {
                assert(lt(x, x));
            }
            assert(b1[j - 1] == x);
        }
        assert forall|x: int| b1.contains(x) implies a1.contains(x) by {
            let i = choose|i: int| 0 <= i < b1.len() && b1[i] == x;
            assert(b.contains(x)) by {
                assert(b[i + 1] == x);
            }
            let j = choose|j: int| 0 <= j < a.len() && a[j] == x;
            assert(lt(b[0], b[i + 1]));
            if j == 0 {
                assert(lt(x, x));
            }
            assert(a1[j - 1] == x);
        }
        lemma_sorted_unique(a1, b1, lt);
        assert(a =~= b) by {
            assert forall|i: int| 0 <= i < a.len() implies a[i] == b[i] by {
                if i > 0 {
                    assert(a[i] == a1[i - 1]);
                    assert(b[i] == b1[i - 1]);
                }
            }
        }
    }
}

} // verus!

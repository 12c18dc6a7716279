//! Laws that hold across calls, stated over the contracts of `Tree`.

use crate::tree::lemma_insert_contains;
use vstd::prelude::*;

verus! {

/// A run of inserts, as `Tree::insert` describes each step: each
/// `trees[i + 1]` is `trees[i]` with `values[i]` put in at some place.
pub open spec fn insert_run<T>(trees: Seq<Seq<T>>, values: Seq<T>) -> bool {
    &&& trees.len() == values.len() + 1
    &&& forall|i: int|
        0 <= i < values.len() ==> exists|k: int|
            0 <= k <= trees[i].len() && #[trigger] trees[i + 1] == trees[i].insert(k, values[i])
}

proof fn lemma_insert_run_prefix<T>(trees: Seq<Seq<T>>, values: Seq<T>, n: int)
    requires
        insert_run(trees, values),
        0 <= n <= values.len(),
    ensures
        trees[n].len() == trees[0].len() + n,
        forall|x: T| #[trigger]
            trees[n].contains(x) <==> (trees[0].contains(x) || values.subrange(0, n).contains(x)),
    decreases n,
{
    if n == 0 {
        assert(values.subrange(0, 0) =~= Seq::<T>::empty());
    } else {
        let m = n - 1;
        lemma_insert_run_prefix(trees, values, m);
        assert(trees[m + 1] == trees[n]);
        let k = choose|k: int|
            0 <= k <= trees[m].len() && #[trigger] trees[m + 1] == trees[m].insert(k, values[m]);
        lemma_insert_contains(trees[m], k, values[m]);
        let before = values.subrange(0, m);
        let after = values.subrange(0, n);
        assert(after =~= before.push(values[m]));
        assert forall|x: T| #[trigger] after.contains(x) <==> (before.contains(x) || x == values[m]) by {
            if after.contains(x) {
                let j = choose|j: int| 0 <= j < after.len() && after[j] == x;
                if j < m {
                    assert(before[j] == x);
                }
            }
            if before.contains(x) {
                let j = choose|j: int| 0 <= j < before.len() && before[j] == x;
                assert(after[j] == x);
            }
            if x == values[m] {
                assert(after[m] == x);
            }
        }
    }
}

/// After any run of inserts, the tree holds one more value per insert,
/// every inserted value is found, and a value that was neither there at the
/// start nor inserted is not. From the empty tree: the count is the number
/// of inserts, and exactly the inserted values are found.
pub proof fn lemma_insert_run<T>(trees: Seq<Seq<T>>, values: Seq<T>)
    requires
        insert_run(trees, values),
    ensures
        trees.last().len() == trees[0].len() + values.len(),
        forall|x: T| #[trigger]
            trees.last().contains(x) <==> (trees[0].contains(x) || values.contains(x)),
        trees[0].len() == 0 ==> trees.last().len() == values.len(),
        trees[0].len() == 0 ==> forall|x: T| #[trigger]
            trees.last().contains(x) <==> values.contains(x),
{
    lemma_insert_run_prefix(trees, values, values.len() as int);
    assert(values.subrange(0, values.len() as int) =~= values);
}

/// Removing the only copy of a value, as `Tree::remove` does when it
/// succeeds, leaves one value fewer, and that value no longer found.
pub proof fn lemma_remove_only_copy<T>(s: Seq<T>, v: T, i: int)
    requires
        0 <= i < s.len(),
        s[i] == v,
        forall|j: int| 0 <= j < s.len() && s[j] == v ==> j == i,
    ensures
        s.remove(i).len() == s.len() - 1,
        !s.remove(i).contains(v),
{
    let t = s.remove(i);
    if t.contains(v) {
        let j = choose|j: int| 0 <= j < t.len() && t[j] == v;
        if j < i {
            assert(s[j] == v);
        } else {
            assert(s[j + 1] == v);
        }
    }
}

} // verus!

use vstd::prelude::*;

use crate::node::strictly_sorted;

verus! {

/// One update of a tree.
pub enum Step {
    Insert(i32),
    Delete(i32),
}

/// The keys after one step, as `RbTree::insert` and `RbTree::delete` state it.
pub open spec fn apply(s: Set<i32>, step: Step) -> Set<i32> {
    match step {
        Step::Insert(k) => s.insert(k),
        Step::Delete(k) => s.remove(k),
    }
}

/// The keys of a tree that starts empty and takes the steps in order.
pub open spec fn replay(steps: Seq<Step>) -> Set<i32>
    decreases steps.len(),
{
    if steps.len() == 0 {
        Set::empty()
    } else {
        apply(replay(steps.drop_last()), steps.last())
    }
}

/// Insertions of the keys, in order.
pub open spec fn insertions(ks: Seq<i32>) -> Seq<Step> {
    ks.map_values(|k: i32| Step::Insert(k))
}

/// After any sequence of insertions and deletions, a key is present (and
/// `get` finds it) exactly when some step inserted it and no later step
/// deleted it.
pub proof fn lemma_present_after_steps(steps: Seq<Step>, k: i32)
    ensures
        replay(steps).contains(k) <==> exists|i: int|
            0 <= i < steps.len() && steps[i] == Step::Insert(k) && forall|j: int|
                i < j < steps.len() ==> steps[j] != Step::Delete(k),
    decreases steps.len(),
{
    if steps.len() > 0 {
        let n = steps.len() - 1;
        let front = steps.drop_last();
        lemma_present_after_steps(front, k);
        if steps.last() == Step::Insert(k) {
            assert(steps[n] == Step::Insert(k));
        } else if steps.last() == Step::Delete(k) {
            assert(!replay(steps).contains(k));
            assert forall|i: int| 0 <= i < steps.len() && steps[i] == Step::Insert(k) implies !(
            forall|j: int| i < j < steps.len() ==> steps[j] != Step::Delete(k)) by {
                assert(steps[n] == Step::Delete(k));
            }
        } else {
            assert(replay(steps).contains(k) == replay(front).contains(k));
            if replay(front).contains(k) {
                let i = choose|i: int|
                    0 <= i < front.len() && front[i] == Step::Insert(k) && forall|j: int|
                        i < j < front.len() ==> front[j] != Step::Delete(k);
                assert(steps[i] == Step::Insert(k));
                assert forall|j: int| i < j < steps.len() implies steps[j] != Step::Delete(k) by {
                    if j < n {
                        assert(front[j] == steps[j]);
                    }
                }
            }
            if exists|i: int|
                0 <= i < steps.len() && steps[i] == Step::Insert(k) && forall|j: int|
                    i < j < steps.len() ==> steps[j] != Step::Delete(k) {
                let i = choose|i: int|
                    0 <= i < steps.len() && steps[i] == Step::Insert(k) && forall|j: int|
                        i < j < steps.len() ==> steps[j] != Step::Delete(k);
                assert(i < n);
                assert(front[i] == Step::Insert(k));
                assert forall|j: int| i < j < front.len() implies front[j] != Step::Delete(k) by {
                    assert(front[j] == steps[j]);
                }
            }
        }
    }
}

/// Inserting keys into an empty tree leaves exactly those keys.
pub proof fn lemma_insertions_hold_their_keys(ks: Seq<i32>)
    ensures
        replay(insertions(ks)) == ks.to_set(),
    decreases ks.len(),
{
    if ks.len() > 0 {
        let front = ks.drop_last();
        lemma_insertions_hold_their_keys(front);
        assert(insertions(ks).drop_last() =~= insertions(front));
        assert(insertions(ks).last() == Step::Insert(ks.last()));
        assert forall|x: i32| ks.contains(x) <==> front.contains(x) || x == ks.last() by {
            if ks.contains(x) && x != ks.last() {
                let i = choose|i: int| 0 <= i < ks.len() && ks[i] == x;
                assert(front[i] == x);
            }
            if front.contains(x) {
                let i = choose|i: int| 0 <= i < front.len() && front[i] == x;
                assert(ks[i] == x);
            }
            if x == ks.last() {
                assert(ks[ks.len() - 1] == x);
            }
        }
        assert(ks.to_set() =~= front.to_set().insert(ks.last()));
    } else {
        assert(ks.to_set() =~= Set::empty());
    }
}

/// Two strictly increasing sequences with the same elements are equal.
pub proof fn lemma_sorted_listing_unique(a: Seq<i32>, b: Seq<i32>)
    requires
        strictly_sorted(a),
        strictly_sorted(b),
        a.to_set() == b.to_set(),
    ensures
        a == b,
    decreases a.len(),
{
    if a.len() == 0 {
        if b.len() > 0 {
            assert(b.to_set().contains(b[0]));
        }
        assert(a =~= b);
    } else {
        assert(a.to_set().contains(a[0]));
        assert(b.contains(a[0]));
        assert(b.len() > 0);
        assert(b.to_set().contains(b[0]));
        assert(a.contains(b[0]));
        let ia = choose|i: int| 0 <= i < a.len() && a[i] == b[0];
        let ib = choose|i: int| 0 <= i < b.len() && b[i] == a[0];
        if ib > 0 {
            assert(b[0] < b[ib]);
        }
        if ia > 0 {
            assert(a[0] < a[ia]);
        }
        assert(a[0] == b[0]);
        let ra = a.drop_first();
        let rb = b.drop_first();
        assert forall|x: i32| ra.contains(x) <==> rb.contains(x) by {
            if ra.contains(x) {
                let i = choose|i: int| 0 <= i < ra.len() && ra[i] == x;
                assert(a[i + 1] == x);
                assert(a[0] < x);
                assert(b.to_set().contains(x));
                let j = choose|j: int| 0 <= j < b.len() && b[j] == x;
                assert(j > 0);
                assert(rb[j - 1] == x);
            }
            if rb.contains(x) {
                let i = choose|i: int| 0 <= i < rb.len() && rb[i] == x;
                assert(b[i + 1] == x);
                assert(b[0] < x);
                assert(a.to_set().contains(x));
                let j = choose|j: int| 0 <= j < a.len() && a[j] == x;
                assert(j > 0);
                assert(ra[j - 1] == x);
            }
        }
        assert(ra.to_set() =~= rb.to_set());
        lemma_sorted_listing_unique(ra, rb);
        assert(a =~= seq![a[0]] + ra);
        assert(b =~= seq![b[0]] + rb);
    }
}

/// Inserting the same keys in any two orders and listing each tree in
/// increasing order (as `RbTree::enumerate` does) gives one and the same
/// sequence, which holds exactly those keys.
pub proof fn lemma_listing_independent_of_order(
    ks1: Seq<i32>,
    ks2: Seq<i32>,
    listed1: Seq<i32>,
    listed2: Seq<i32>,
)
    requires
        ks1.to_set() == ks2.to_set(),
        strictly_sorted(listed1),
        listed1.to_set() == replay(insertions(ks1)),
        strictly_sorted(listed2),
        listed2.to_set() == replay(insertions(ks2)),
    ensures
        listed1 == listed2,
        listed1.to_set() == ks1.to_set(),
{
    lemma_insertions_hold_their_keys(ks1);
    lemma_insertions_hold_their_keys(ks2);
    lemma_sorted_listing_unique(listed1, listed2);
}

} // verus!

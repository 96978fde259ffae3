//! Laws that relate the operations of [`crate::PagedSmallVec`], stated over the
//! contents that their contracts speak of.

use vstd::prelude::*;

verus! {

/// `pop` undoes `push`: after pushing `val` onto contents `s`, popping gives
/// back `val` and leaves `s`.
pub proof fn lemma_pop_undoes_push<T>(s: Seq<T>, val: T)
    ensures
        s.push(val).len() > 0,
        s.push(val).last() == val,
        s.push(val).drop_last() == s,
{
    assert(s.push(val).drop_last() =~= s);
}

/// A pushed value is found at the old length, and every earlier element is
/// found where it was.
pub proof fn lemma_get_after_push<T>(s: Seq<T>, val: T, i: int)
    requires
        0 <= i <= s.len(),
    ensures
        s.push(val)[i] == if i == s.len() {
            val
        } else {
            s[i]
        },
{
}

/// `remove` and `swap_remove` at the same index take out the same element and
/// leave the same elements behind, though not in the same order.
pub proof fn lemma_remove_and_swap_remove_agree<T>(s: Seq<T>, i: int)
    requires
        0 <= i < s.len(),
    ensures
        s.remove(i).to_multiset() == s.update(i, s.last()).drop_last().to_multiset(),
        s.remove(i).len() == s.update(i, s.last()).drop_last().len(),
{
    broadcast use vstd::multiset::group_multiset_axioms;

    let n: int = s.len() as int;
    let t = s.update(i, s.last());
    assert(t.drop_last() =~= t.remove(n - 1));
    vstd::seq_lib::to_multiset_remove(t, n - 1);
    vstd::seq_lib::to_multiset_update(s, i, s.last());
    vstd::seq_lib::to_multiset_remove(s, i);
    assert(t[n - 1] == s.last());
    assert(s.to_multiset().insert(s.last()).remove(s[i]).remove(s.last()) =~= s.to_multiset().remove(
        s[i],
    ));
}

/// Removing the last element with `remove` is the same as `pop`, and so is
/// `swap_remove` at the last index.
pub proof fn lemma_remove_last_is_pop<T>(s: Seq<T>)
    requires
        s.len() > 0,
    ensures
        s.remove(s.len() - 1) == s.drop_last(),
        s.update(s.len() - 1, s.last()).drop_last() == s.drop_last(),
{
    assert(s.remove(s.len() - 1) =~= s.drop_last());
    assert(s.update(s.len() - 1, s.last()) =~= s);
}

/// The contents after pushing the elements of `cs` onto `s`, one at a time.
pub open spec fn pushed_in_order<T>(s: Seq<T>, cs: Seq<T>) -> Seq<T>
    decreases cs.len(),
{
    if cs.len() == 0 {
        s
    } else {
        pushed_in_order(s, cs.drop_last()).push(cs.last())
    }
}

/// Pushing the elements of `cs` one at a time appends `cs`.
pub proof fn lemma_pushed_in_order_appends<T>(s: Seq<T>, cs: Seq<T>)
    ensures
        pushed_in_order(s, cs) == s + cs,
    decreases cs.len(),
{
    if cs.len() == 0 {
        assert(s + cs =~= s);
    } else {
        lemma_pushed_in_order_appends(s, cs.drop_last());
        assert((s + cs.drop_last()).push(cs.last()) =~= s + cs);
    }
}

/// `extend_from_slice(values)` gives what pushing a clone of each element of
/// `values`, in order, gives: the contents `r` that its contract allows are
/// exactly those reached by pushing clones `cs` of `values` one at a time.
pub proof fn lemma_extend_is_repeated_push<T: Clone>(s: Seq<T>, values: Seq<T>, r: Seq<T>)
    ensures
        ({
            &&& r.len() == s.len() + values.len()
            &&& r.subrange(0, s.len() as int) == s
            &&& forall|j: int|
                0 <= j < values.len() ==> cloned::<T>(#[trigger] values[j], r[s.len() + j])
        }) <==> exists|cs: Seq<T>|
            {
                &&& cs.len() == values.len()
                &&& forall|j: int| 0 <= j < values.len() ==> cloned::<T>(#[trigger] values[j], cs[j])
                &&& r == #[trigger] pushed_in_order(s, cs)
            },
{
    if r.len() == s.len() + values.len() && r.subrange(0, s.len() as int) == s && (forall|j: int|
        0 <= j < values.len() ==> cloned::<T>(#[trigger] values[j], r[s.len() + j])) {
        let cs = r.subrange(s.len() as int, r.len() as int);
        lemma_pushed_in_order_appends(s, cs);
        assert(r =~= s + cs);
        assert forall|j: int| 0 <= j < values.len() implies cloned::<T>(#[trigger] values[j], cs[j]) by {
            assert(cs[j] == r[s.len() + j]);
        }
    }
    if exists|cs: Seq<T>|
        {
            &&& cs.len() == values.len()
            &&& forall|j: int| 0 <= j < values.len() ==> cloned::<T>(#[trigger] values[j], cs[j])
            &&& r == #[trigger] pushed_in_order(s, cs)
        } {
        let cs = choose|cs: Seq<T>|
            {
                &&& cs.len() == values.len()
                &&& forall|j: int| 0 <= j < values.len() ==> cloned::<T>(#[trigger] values[j], cs[j])
                &&& r == #[trigger] pushed_in_order(s, cs)
            };
        lemma_pushed_in_order_appends(s, cs);
        assert(r.subrange(0, s.len() as int) =~= s);
        assert forall|j: int| 0 <= j < values.len() implies cloned::<T>(#[trigger] values[j], r[s.len() + j]) by {
            assert(r[s.len() + j] == cs[j]);
        }
    }
}

} // verus!

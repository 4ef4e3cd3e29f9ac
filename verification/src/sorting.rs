//! Stable sorting.
use vstd::prelude::*;

verus! {

/// Things with an order among them; things that come neither before nor after each other
/// rank the same.
pub trait Ranked: Sized {
    /// Whether this comes before the other.
    spec fn before(&self, other: &Self) -> bool;

    /// Whether this comes before the other.
    fn is_before(&self, other: &Self) -> (result: bool)
        ensures
            result == self.before(other),
    ;

    /// What does not come after something that does not come after a third, does not come
    /// after the third.
    proof fn lemma_weak(a: &Self, b: &Self, c: &Self)
        ensures
            !b.before(a) && !c.before(b) ==> !c.before(a),
            !a.before(a),
            !(a.before(b) && b.before(a)),
    ;
}

/// Where to put an item among the first `at` items that are sorted: behind those that rank
/// the same.
pub open spec fn slot<T: Ranked>(sorted: Seq<T>, item: T, at: int) -> int
    decreases at,
{
    if at > 0 && item.before(&sorted[at - 1]) {
        slot(sorted, item, at - 1)
    } else {
        at
    }
}

/// A list sorted by rank; items that rank the same keep their order.
pub open spec fn sorted<T: Ranked>(list: Seq<T>) -> Seq<T>
    decreases list.len(),
{
    if list.len() == 0 {
        Seq::empty()
    } else {
        let before = sorted(list.drop_last());
        before.insert(slot(before, list.last(), before.len() as int), list.last())
    }
}

proof fn lemma_slot<T: Ranked>(list: Seq<T>, item: T, at: int)
    requires
        0 <= at <= list.len(),
    ensures
        0 <= slot(list, item, at) <= at,
        forall|k: int| slot(list, item, at) <= k < at ==> item.before(&#[trigger] list[k]),
        slot(list, item, at) > 0 ==> !item.before(&list[slot(list, item, at) - 1]),
    decreases at,
{
    if at > 0 && item.before(&list[at - 1]) {
        lemma_slot(list, item, at - 1);
    }
}

/// As many items as before.
pub proof fn lemma_sorted_len<T: Ranked>(list: Seq<T>)
    ensures
        sorted(list).len() == list.len(),
    decreases list.len(),
{
    if list.len() > 0 {
        lemma_sorted_len(list.drop_last());
        let before = sorted(list.drop_last());
        lemma_slot(before, list.last(), before.len() as int);
    }
}

/// Sorting keeps every item, and as often.
pub proof fn law_sorting_keeps_the_items<T: Ranked>(list: Seq<T>)
    ensures
        sorted(list).to_multiset() == list.to_multiset(),
    decreases list.len(),
{
    broadcast use vstd::seq_lib::group_to_multiset_ensures;

    if list.len() > 0 {
        law_sorting_keeps_the_items(list.drop_last());
        lemma_sorted_len(list.drop_last());
        let before = sorted(list.drop_last());
        let at = slot(before, list.last(), before.len() as int);
        lemma_slot(before, list.last(), before.len() as int);
        vstd::seq_lib::to_multiset_insert(before, at, list.last());
        assert(list =~= list.drop_last().push(list.last()));
    } else {
        assert(list =~= Seq::<T>::empty());
    }
}

/// In a sorted list nothing comes before what stands earlier.
pub open spec fn is_sorted<T: Ranked>(list: Seq<T>) -> bool {
    forall|i: int, j: int|
        #![trigger list[i], list[j]]
        0 <= i < j < list.len() ==> !list[j].before(&list[i])
}

/// Sorting sorts.
pub proof fn law_sorting_sorts<T: Ranked>(list: Seq<T>)
    ensures
        is_sorted(sorted(list)),
    decreases list.len(),
{
    if list.len() > 0 {
        law_sorting_sorts(list.drop_last());
        lemma_sorted_len(list.drop_last());
        let before = sorted(list.drop_last());
        let item = list.last();
        let at = slot(before, item, before.len() as int);
        lemma_slot(before, item, before.len() as int);
        let after = sorted(list);
        assert forall|i: int, j: int|
            #![trigger after[i], after[j]]
            0 <= i < j < after.len() implies !after[j].before(&after[i]) by {
            let old_i = if i < at {
                i
            } else {
                i - 1
            };
            let old_j = if j < at {
                j
            } else {
                j - 1
            };
            if i != at && j != at {
                assert(after[i] == before[old_i] && after[j] == before[old_j]);
            } else if j == at {
                assert(after[i] == before[i]);
                if i < at - 1 {
                    assert(!before[at - 1].before(&before[i]));
                    T::lemma_weak(&before[i], &before[at - 1], &item);
                }
            } else {
                assert(after[j] == before[j - 1]);
                assert(item.before(&before[j - 1]));
                T::lemma_weak(&item, &before[j - 1], &item);
            }
        }
    }
}

/// From where in a list each item of the sorted list comes.
pub open spec fn places<T: Ranked>(list: Seq<T>) -> Seq<int>
    decreases list.len(),
{
    if list.len() == 0 {
        Seq::empty()
    } else {
        let before = sorted(list.drop_last());
        places(list.drop_last()).insert(
            slot(before, list.last(), before.len() as int),
            list.len() - 1,
        )
    }
}

/// The sorted list holds the items of the list, each from another place; items that rank the
/// same stand in the order that they had.
pub proof fn lemma_sorted_places<T: Ranked>(list: Seq<T>)
    ensures
        places(list).len() == list.len(),
        sorted(list).len() == list.len(),
        forall|i: int|
            0 <= i < list.len() ==> 0 <= #[trigger] places(list)[i] < list.len() && sorted(list)[i]
                == list[places(list)[i]],
        forall|i: int, j: int|
            #![trigger places(list)[i], places(list)[j]]
            0 <= i < j < list.len() ==> places(list)[i] != places(list)[j] && (!sorted(
                list,
            )[i].before(&sorted(list)[j]) ==> places(list)[i] < places(list)[j]),
    decreases list.len(),
{
    if list.len() > 0 {
        let rest = list.drop_last();
        lemma_sorted_places(rest);
        law_sorting_sorts(rest);
        let before = sorted(rest);
        let item = list.last();
        let n = before.len() as int;
        let at = slot(before, item, n);
        lemma_slot(before, item, n);
        let (from, to) = (places(rest), places(list));
        let after = sorted(list);
        assert forall|i: int| 0 <= i < list.len() implies 0 <= #[trigger] to[i] < list.len()
            && after[i] == list[to[i]] by {
            if i < at {
                assert(to[i] == from[i] && after[i] == before[i]);
            } else if i > at {
                assert(to[i] == from[i - 1] && after[i] == before[i - 1]);
            }
        }
        assert forall|i: int, j: int|
            #![trigger to[i], to[j]]
            0 <= i < j < list.len() implies to[i] != to[j] && (!after[i].before(&after[j])
            ==> to[i] < to[j]) by {
            if j < at {
                assert(from[i] != from[j]);
                assert(after[i] == before[i] && after[j] == before[j]);
            } else if i > at {
                assert(from[i - 1] != from[j - 1]);
                assert(after[i] == before[i - 1] && after[j] == before[j - 1]);
            } else if i == at {
                assert(to[j] == from[j - 1]);
                assert(item.before(&before[j - 1]));
            } else if j == at {
                assert(to[i] == from[i]);
            } else {
                assert(to[i] == from[i] && to[j] == from[j - 1]);
                assert(from[i] != from[j - 1]);
                assert(after[i] == before[i] && after[j] == before[j - 1]);
            }
        }
    }
}

/// Where an item of a list stands in the sorted list.
pub proof fn lemma_place_of<T: Ranked>(list: Seq<T>, i: int) -> (at: int)
    requires
        0 <= i < list.len(),
    ensures
        0 <= at < sorted(list).len(),
        places(list)[at] == i,
        sorted(list)[at] == list[i],
    decreases list.len(),
{
    let rest = list.drop_last();
    lemma_sorted_places(rest);
    lemma_sorted_places(list);
    let before = sorted(rest);
    let slot_at = slot(before, list.last(), before.len() as int);
    lemma_slot(before, list.last(), before.len() as int);
    if i == list.len() - 1 {
        slot_at
    } else {
        let old = lemma_place_of(rest, i);
        if old < slot_at {
            old
        } else {
            old + 1
        }
    }
}

/// Sorting is stable: items that rank the same keep their order.
pub proof fn law_sorting_is_stable<T: Ranked>(list: Seq<T>, i: int, j: int)
    requires
        0 <= i < j < list.len(),
        !list[j].before(&list[i]),
    ensures
        exists|a: int, b: int|
            0 <= a < b < sorted(list).len() && sorted(list)[a] == list[i] && #[trigger] is_from(list, a, i) && #[trigger] is_from(list, b, j),
{
    lemma_sorted_places(list);
    law_sorting_sorts(list);
    let a = lemma_place_of(list, i);
    let b = lemma_place_of(list, j);
    if b < a {
        assert(places(list)[b] == j && places(list)[a] == i);
        assert(!sorted(list)[b].before(&sorted(list)[a]) ==> j < i);
    }
    assert(a != b);
    assert(is_from(list, a, i) && is_from(list, b, j));
}

/// Whether an item of the sorted list is that of a place in the list.
pub open spec fn is_from<T: Ranked>(list: Seq<T>, at: int, i: int) -> bool {
    places(list)[at] == i && sorted(list)[at] == list[i]
}

/// Sorts by rank; items that rank the same keep their order.
pub fn sort<T: Ranked>(list: Vec<T>) -> (result: Vec<T>)
    ensures
        result@ == sorted(list@),
{
    let ghost all = list@;
    let mut result: Vec<T> = Vec::new();
    assert(all.take(0) =~= Seq::<T>::empty());
    for item in iter: list
        invariant
            iter.seq() == all,
            result@ == sorted(all.take(iter.index() as int)),
    {
        let ghost before = result@;
        proof {
            assert(all.take(iter.index() + 1).drop_last() =~= all.take(iter.index() as int));
            assert(all.take(iter.index() + 1).last() == item);
        }
        let mut at: usize = result.len();
        while at > 0 && item.is_before(&result[at - 1])
            invariant
                at <= result@.len(),
                result@ == before,
                slot(before, item, before.len() as int) == slot(before, item, at as int),
            decreases at,
        {
            at = at - 1;
        }
        result.insert(at, item);
    }
    assert(all.take(all.len() as int) =~= all);
    result
}

} // verus!

use vstd::prelude::*;
use vstd::std_specs::cmp::PartialEqSpec;
use crate::quadtree::quadtree::equality_is_identity;

verus! {

/// The values behind a list of references.
pub open spec fn values<T>(refs: Seq<&T>) -> Seq<T> {
    refs.map_values(|r: &T| *r)
}

/// The values behind a list that got one more reference are the values
/// behind the list, and one more.
pub proof fn lemma_values_push<T>(refs: Seq<&T>, r: &T)
    ensures
        values(refs.push(r)) == values(refs).push(*r),
{
    assert(values(refs.push(r)) =~= values(refs).push(*r));
}

/// `s` without repetitions: of each value the first occurrence stays, in
/// its place among the others.
pub open spec fn unique<T>(s: Seq<T>) -> Seq<T>
    decreases s.len(),
{
    if s.len() == 0 {
        Seq::empty()
    } else {
        let before = unique(s.drop_last());
        if before.contains(s.last()) {
            before
        } else {
            before.push(s.last())
        }
    }
}

/// A list with one more value holds that value and what the list held.
pub proof fn lemma_push_contains<T>(s: Seq<T>, last: T, x: T)
    ensures
        s.push(last).contains(x) <==> s.contains(x) || x == last,
{
    let longer = s.push(last);
    if s.contains(x) {
        let i = choose|i: int| 0 <= i < s.len() && s[i] == x;
        assert(longer[i] == x);
    }
    if x == last {
        assert(longer[s.len() as int] == x);
    }
    if longer.contains(x) {
        let i = choose|i: int| 0 <= i < longer.len() && longer[i] == x;
        if i < s.len() {
            assert(s[i] == x);
        }
    }
}

/// Removing repetitions leaves no value twice and loses none.
pub proof fn lemma_unique<T>(s: Seq<T>)
    ensures
        unique(s).no_duplicates(),
        forall|x: T| unique(s).contains(x) <==> s.contains(x),
    decreases s.len(),
{
    if s.len() > 0 {
        let head = s.drop_last();
        let last = s.last();
        lemma_unique(head);
        let before = unique(head);
        assert(s =~= head.push(last));
        assert forall|x: T| unique(s).contains(x) <==> s.contains(x) by {
            lemma_push_contains(head, last, x);
            lemma_push_contains(before, last, x);
        }
    }
}

fn holds_equal<T: PartialEq>(list: &Vec<&T>, item: &T) -> (r: bool)
    requires
        equality_is_identity::<T>(),
    ensures
        r == values(list@).contains(*item),
{
    let mut i: usize = 0;
    while i < list.len()
        invariant
            equality_is_identity::<T>(),
            i <= list@.len(),
            forall|j: int| 0 <= j < i ==> values(list@)[j] != *item,
        decreases list@.len() - i,
    {
        if *list[i] == *item {
            assert(values(list@)[i as int] == *item);
            return true;
        }
        i += 1;
    }
    false
}

/// Drops from a list of references every one whose value came earlier in the
/// list.
pub(crate) fn keep_first<'a, T: PartialEq>(list: Vec<&'a T>) -> (r: Vec<&'a T>)
    requires
        equality_is_identity::<T>(),
    ensures
        values(r@) == unique(values(list@)),
{
    let mut kept: Vec<&T> = Vec::new();
    let mut i: usize = 0;
    while i < list.len()
        invariant
            equality_is_identity::<T>(),
            i <= list@.len(),
            values(kept@) == unique(values(list@).take(i as int)),
        decreases list@.len() - i,
    {
        let item: &T = list[i];
        proof {
            let next = values(list@).take(i + 1);
            assert(next.drop_last() =~= values(list@).take(i as int));
            assert(next.last() == *item);
        }
        if !holds_equal(&kept, item) {
            kept.push(item);
            assert(values(kept@) =~= unique(values(list@).take(i as int)).push(*item));
        }
        i += 1;
    }
    assert(values(list@).take(i as int) =~= values(list@));
    kept
}

} // verus!

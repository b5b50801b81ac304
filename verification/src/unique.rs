//! Removing repeated items from a collection.
use vstd::prelude::*;
use vstd::std_specs::cmp::PartialEqSpec;

verus! {

/// Trait to extract unique items from collections.
pub trait Unique: Sized {
    /// Returns the same collection, but with all duplicates removed
    fn unique(&self) -> Self;
}

/// `==` on `T` decides whether two values are the same value.
pub open spec fn eq_is_identity<T: PartialEq>() -> bool {
    &&& T::obeys_eq_spec()
    &&& forall|a: T, b: T| #[trigger] a.eq_spec(&b) <==> a == b
}

/// `s` without its repeated items: of each value only the first occurrence stays, and what
/// stays keeps its order.
pub open spec fn distinct<T>(s: Seq<T>) -> Seq<T>
    decreases s.len(),
{
    if s.len() == 0 {
        s
    } else if distinct(s.drop_last()).contains(s.last()) {
        distinct(s.drop_last())
    } else {
        distinct(s.drop_last()).push(s.last())
    }
}

/// `distinct(s)` holds each value of `s` exactly once: it has no duplicates, it holds the
/// same values as `s`, and so its length is the number of different values in `s`.
pub proof fn lemma_distinct<T>(s: Seq<T>)
    ensures
        distinct(s).no_duplicates(),
        forall|x: T| #[trigger] distinct(s).contains(x) <==> s.contains(x),
        distinct(s).to_set() == s.to_set(),
        distinct(s).len() == s.to_set().len(),
        distinct(s).len() <= s.len(),
    decreases s.len(),
{
    let d = distinct(s);
    if s.len() == 0 {
        assert(s.to_set() =~= Set::<T>::empty());
    } else {
        let front = s.drop_last();
        let last = s.last();
        let df = distinct(front);
        lemma_distinct(front);
        assert(s =~= front.push(last));
        assert forall|x: T| d.contains(x) <==> s.contains(x) by {
            assert(df.contains(x) <==> front.contains(x));
            if s.contains(x) {
                let i = choose|i: int| 0 <= i < s.len() && s[i] == x;
                if i < front.len() {
                    assert(front[i] == x);
                    assert(front.contains(x));
                    let j = choose|j: int| 0 <= j < df.len() && df[j] == x;
                    assert(d[j] == x);
                } else if !df.contains(last) {
                    assert(d[d.len() - 1] == x);
                } else {
                    let j = choose|j: int| 0 <= j < df.len() && df[j] == last;
                    assert(d[j] == x);
                }
            }
            if d.contains(x) {
                let j = choose|j: int| 0 <= j < d.len() && d[j] == x;
                if j < df.len() {
                    assert(df[j] == x);
                    assert(df.contains(x));
                    let i = choose|i: int| 0 <= i < front.len() && front[i] == x;
                    assert(s[i] == x);
                } else {
                    assert(s[s.len() - 1] == x);
                }
            }
        }
        assert(d.to_set() =~= s.to_set());
        d.unique_seq_to_set();
    }
}

/// Whether `items` holds `item`.
pub fn holds<T: Copy + PartialEq>(items: &Vec<T>, item: &T) -> (found: bool)
    ensures
        eq_is_identity::<T>() ==> found == items@.contains(*item),
{
    let mut i: usize = 0;
    while i < items.len()
        invariant
            i <= items.len(),
            eq_is_identity::<T>() ==> forall|j: int| 0 <= j < i ==> items@[j] != *item,
        decreases items.len() - i,
    {
        if items[i] == *item {
            return true;
        }
        i += 1;
    }
    false
}

impl<T: Copy + PartialEq> Unique for Vec<T> {
    fn unique(&self) -> (r: Self)
        ensures
            eq_is_identity::<T>() ==> r@ == distinct(self@),
    {
        let mut r: Vec<T> = Vec::new();
        let mut i: usize = 0;
        while i < self.len()
            invariant
                i <= self.len(),
                eq_is_identity::<T>() ==> r@ == distinct(self@.take(i as int)),
            decreases self.len() - i,
        {
            let item = self[i];
            proof {
                assert(self@.take(i + 1).drop_last() =~= self@.take(i as int));
            }
            if !holds(&r, &item) {
                r.push(item);
            }
            i += 1;
        }
        proof {
            assert(self@.take(self.len() as int) =~= self@);
        }
        r
    }
}

} // verus!

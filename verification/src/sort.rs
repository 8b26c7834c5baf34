//! Sorting by insertion, for everything that has an order of its own.

use vstd::prelude::*;

verus! {

/// What can be put in order.
pub trait Ordered: Sized {
    /// Whether this comes before `other`.
    spec fn precedes(self, other: Self) -> bool;

    /// Nothing comes before itself.
    proof fn lemma_irreflexive(a: Self)
        ensures
            !a.precedes(a),
    ;

    /// What comes before something comes before all that follows it.
    proof fn lemma_transitive(a: Self, b: Self, c: Self)
        requires
            a.precedes(b),
            b.precedes(c),
        ensures
            a.precedes(c),
    ;

    /// Whether this comes before `other`.
    fn comes_before(&self, other: &Self) -> (r: bool)
        ensures
            r == self.precedes(*other),
    ;
}

/// Whether nothing comes before what stands in front of it.
pub open spec fn in_order<T: Ordered>(items: Seq<T>) -> bool {
    forall|i: int, j: int|
        0 <= i < j < items.len() ==> !(#[trigger] items[j]).precedes(#[trigger] items[i])
}

proof fn lemma_insert<T: Ordered>(items: Seq<T>, at: int, item: T)
    requires
        in_order(items),
        0 <= at <= items.len(),
        forall|j: int| 0 <= j < at ==> !item.precedes(#[trigger] items[j]),
        at < items.len() ==> item.precedes(items[at]),
    ensures
        in_order(items.insert(at, item)),
{
    let now = items.insert(at, item);
    assert forall|i: int, j: int| 0 <= i < j < now.len() implies !(#[trigger] now[j]).precedes(
        #[trigger] now[i],
    ) by {
        let a = if i < at {
            i
        } else {
            i - 1
        };
        let b = if j < at {
            j
        } else {
            j - 1
        };
        if i != at {
            assert(now[i] == items[a]);
        }
        if j != at {
            assert(now[j] == items[b]);
        }
        if i == at && items[b].precedes(item) {
            T::lemma_transitive(items[b], item, items[at]);
            if b == at {
                T::lemma_irreflexive(items[b]);
            } else {
                assert(!items[b].precedes(items[at]));
            }
        }
    }
}

/// The items in order.
pub fn sorted<T: Ordered>(items: Vec<T>) -> (r: Vec<T>)
    ensures
        in_order(r@),
        r@.to_multiset() == items@.to_multiset(),
{
    let mut rest = items;
    let mut sorted: Vec<T> = Vec::new();
    let ghost all = items@.to_multiset();
    proof {
        broadcast use vstd::seq_lib::group_to_multiset_ensures;

        assert(all =~= sorted@.to_multiset().add(rest@.to_multiset()));
    }
    while rest.len() > 0
        invariant
            in_order(sorted@),
            all == sorted@.to_multiset().add(rest@.to_multiset()),
        decreases rest@.len(),
    {
        let ghost left = rest@;
        let ghost before = sorted@;
        match rest.pop() {
            Some(item) => {
                let mut at: usize = 0;
                while at < sorted.len() && !item.comes_before(&sorted[at])
                    invariant
                        at <= sorted@.len(),
                        sorted@ == before,
                        forall|j: int| 0 <= j < at ==> !item.precedes(#[trigger] before[j]),
                    decreases sorted@.len() - at,
                {
                    at = at + 1;
                }
                proof {
                    broadcast use vstd::seq_lib::group_to_multiset_ensures;

                    assert(left =~= rest@.push(item));
                    assert(before.insert(at as int, item).to_multiset()
                        =~= before.to_multiset().insert(item));
                    lemma_insert(before, at as int, item);
                }
                sorted.insert(at, item);
                proof {
                    broadcast use vstd::seq_lib::group_to_multiset_ensures;

                    assert(all =~= sorted@.to_multiset().add(rest@.to_multiset()));
                }
            },
            None => {},
        }
    }
    proof {
        broadcast use vstd::seq_lib::group_to_multiset_ensures;

        assert(rest@ =~= Seq::<T>::empty());
        assert(all =~= sorted@.to_multiset());
    }
    sorted
}

} // verus!

//! Operations on sequences that several stages share.

use vstd::prelude::*;

verus! {

/// The models of `items`, in order.
pub open spec fn views<T: View>(items: Seq<T>) -> Seq<T::V> {
    Seq::new(items.len(), |i: int| items[i]@)
}

/// The groups in order, with `sep` between each two neighbours.
pub open spec fn interleave<T>(groups: Seq<Seq<T>>, sep: Seq<T>) -> Seq<T>
    decreases groups.len(),
{
    if groups.len() == 0 {
        seq![]
    } else if groups.len() == 1 {
        groups[0]
    } else {
        interleave(groups.drop_last(), sep) + sep + groups.last()
    }
}

/// The groups in order, one after the other.
pub open spec fn concat<T>(groups: Seq<Seq<T>>) -> Seq<T>
    decreases groups.len(),
{
    if groups.len() == 0 {
        seq![]
    } else {
        concat(groups.drop_last()) + groups.last()
    }
}

/// Taking one more group appends it, after a separator unless it is the first.
pub proof fn lemma_interleave_step<T>(groups: Seq<Seq<T>>, sep: Seq<T>, n: int)
    requires
        0 <= n < groups.len(),
    ensures
        interleave(groups.take(n + 1), sep) == if n == 0 {
            groups[0]
        } else {
            interleave(groups.take(n), sep) + sep + groups[n]
        },
{
    assert(groups.take(n + 1).drop_last() =~= groups.take(n));
}

/// Taking one more group appends it.
pub proof fn lemma_concat_step<T>(groups: Seq<Seq<T>>, n: int)
    requires
        0 <= n < groups.len(),
    ensures
        concat(groups.take(n + 1)) == concat(groups.take(n)) + groups[n],
{
    assert(groups.take(n + 1).drop_last() =~= groups.take(n));
}

/// What holds of every item of every group holds of every item of their
/// concatenation.
pub proof fn lemma_concat_all<T>(groups: Seq<Seq<T>>, holds: spec_fn(T) -> bool)
    requires
        forall|i: int, k: int|
            0 <= i < groups.len() && 0 <= k < groups[i].len() ==> holds(#[trigger] groups[i][k]),
    ensures
        forall|j: int| 0 <= j < concat(groups).len() ==> holds(#[trigger] concat(groups)[j]),
    decreases groups.len(),
{
    if groups.len() > 0 {
        let front = groups.drop_last();
        assert forall|i: int, k: int| 0 <= i < front.len() && 0 <= k < front[i].len() implies holds(
            #[trigger] front[i][k],
        ) by {
            assert(front[i] == groups[i]);
        }
        lemma_concat_all(front, holds);
        assert forall|j: int| 0 <= j < concat(groups).len() implies holds(
            #[trigger] concat(groups)[j],
        ) by {
            if j >= concat(front).len() {
                let k = j - concat(front).len();
                assert(concat(groups)[j] == groups[groups.len() - 1][k]);
            } else {
                assert(concat(groups)[j] == concat(front)[j]);
            }
        }
    }
}

/// What holds of every item of every group and of the separator holds of
/// every item of the groups interleaved.
pub proof fn lemma_interleave_all<T>(groups: Seq<Seq<T>>, sep: Seq<T>, holds: spec_fn(T) -> bool)
    requires
        forall|i: int, k: int|
            0 <= i < groups.len() && 0 <= k < groups[i].len() ==> holds(#[trigger] groups[i][k]),
        forall|k: int| 0 <= k < sep.len() ==> holds(#[trigger] sep[k]),
    ensures
        forall|j: int|
            0 <= j < interleave(groups, sep).len() ==> holds(#[trigger] interleave(groups, sep)[j]),
    decreases groups.len(),
{
    if groups.len() > 1 {
        let front = groups.drop_last();
        assert forall|i: int, k: int| 0 <= i < front.len() && 0 <= k < front[i].len() implies holds(
            #[trigger] front[i][k],
        ) by {
            assert(front[i] == groups[i]);
        }
        lemma_interleave_all(front, sep, holds);
        let head = interleave(front, sep);
        assert forall|j: int| 0 <= j < interleave(groups, sep).len() implies holds(
            #[trigger] interleave(groups, sep)[j],
        ) by {
            if j < head.len() {
                assert(interleave(groups, sep)[j] == head[j]);
            } else if j < head.len() + sep.len() {
                assert(interleave(groups, sep)[j] == sep[j - head.len()]);
            } else {
                let k = j - head.len() - sep.len();
                assert(interleave(groups, sep)[j] == groups[groups.len() - 1][k]);
            }
        }
    }
}

/// Groups of one item each concatenate to the items themselves.
pub proof fn lemma_concat_singletons<T>(groups: Seq<Seq<T>>, items: Seq<T>)
    requires
        groups.len() == items.len(),
        forall|i: int| 0 <= i < groups.len() ==> #[trigger] groups[i] == seq![items[i]],
    ensures
        concat(groups) == items,
    decreases groups.len(),
{
    if groups.len() > 0 {
        lemma_concat_singletons(groups.drop_last(), items.drop_last());
        assert(concat(groups) =~= items);
    } else {
        assert(concat(groups) =~= items);
    }
}

/// Concatenation splits into two parts at any group.
pub proof fn lemma_concat_split<T>(front: Seq<Seq<T>>, back: Seq<Seq<T>>)
    ensures
        concat(front + back) == concat(front) + concat(back),
    decreases back.len(),
{
    if back.len() == 0 {
        assert(front + back =~= front);
        assert(concat(front) + concat(back) =~= concat(front));
    } else {
        lemma_concat_split(front, back.drop_last());
        assert((front + back).drop_last() =~= front + back.drop_last());
        assert(concat(front + back) =~= concat(front) + concat(back));
    }
}

/// Concatenation starts with the first group.
pub proof fn lemma_concat_front<T>(first: Seq<T>, rest: Seq<Seq<T>>)
    ensures
        concat(seq![first] + rest) == first + concat(rest),
{
    lemma_concat_split(seq![first], rest);
    assert(seq![first].drop_last() =~= Seq::<Seq<T>>::empty());
    assert(concat(seq![first].drop_last()) =~= Seq::<T>::empty());
    assert(concat(seq![first]) =~= first);
}

} // verus!

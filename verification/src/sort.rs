//! A merge sort by key.

use vstd::prelude::*;

use crate::order::strict_total_order;

verus! {

/// Something that is sorted by a key.
pub trait Keyed: View + Sized {
    /// What the key is.
    type Key;

    /// The key of a value.
    spec fn key(value: Self::V) -> Self::Key;

    /// The order of the keys.
    spec fn order() -> spec_fn(Self::Key, Self::Key) -> bool;

    /// The keys are strictly and totally ordered.
    proof fn order_is_strict_and_total()
        ensures
            strict_total_order(Self::order()),
    ;

    /// Whether the key of `self` precedes that of `other`.
    fn precedes(&self, other: &Self) -> (result: bool)
        ensures
            result == Self::order()(Self::key(self@), Self::key(other@)),
    ;
}

/// The values behind the items of a list.
pub open spec fn views<T: View>(items: Seq<T>) -> Seq<T::V> {
    items.map_values(|item: T| item@)
}

/// Whether the key of `b` does not precede that of `a`.
pub open spec fn not_after<T: Keyed>(a: T::V, b: T::V) -> bool {
    !T::order()(T::key(b), T::key(a))
}

/// Whether the values stand in ascending order of their keys.
pub open spec fn ascending<T: Keyed>(values: Seq<T::V>) -> bool {
    forall|i: int, j: int|
        0 <= i < j < values.len() ==> #[trigger] not_after::<T>(values[i], values[j])
}

spec fn descending<T: Keyed>(values: Seq<T::V>) -> bool {
    forall|i: int, j: int|
        0 <= i < j < values.len() ==> #[trigger] not_after::<T>(values[j], values[i])
}

spec fn all_not_after<T: Keyed>(low: Seq<T::V>, high: Seq<T::V>) -> bool {
    forall|i: int, j: int|
        0 <= i < low.len() && 0 <= j < high.len() ==> #[trigger] not_after::<T>(low[i], high[j])
}

proof fn lemma_not_after_transitive<T: Keyed>(a: T::V, b: T::V, c: T::V)
    requires
        not_after::<T>(a, b),
        not_after::<T>(b, c),
    ensures
        not_after::<T>(a, c),
{
    T::order_is_strict_and_total();
    let lt = T::order();
    assert(lt(T::key(a), T::key(b)) || T::key(a) == T::key(b));
    assert(lt(T::key(b), T::key(c)) || T::key(b) == T::key(c));
    if lt(T::key(c), T::key(a)) {
        if lt(T::key(a), T::key(b)) {
            assert(lt(T::key(c), T::key(b)));
        }
        assert(false);
    }
}

proof fn lemma_views_push<T: View>(items: Seq<T>, item: T)
    ensures
        views(items.push(item)) == views(items).push(item@),
        views(items.push(item)).to_multiset() == views(items).to_multiset().insert(item@),
{
    assert(views(items.push(item)) =~= views(items).push(item@));
    vstd::seq_lib::to_multiset_build(views(items), item@);
}

/// Moves the last item of `from` to the end of `to`.
fn move_last<T: View>(from: &mut Vec<T>, to: &mut Vec<T>)
    requires
        old(from)@.len() > 0,
    ensures
        final(from)@ == old(from)@.drop_last(),
        final(to)@ == old(to)@.push(old(from)@.last()),
        views(final(from)@) == views(old(from)@).drop_last(),
        views(final(to)@) == views(old(to)@).push(views(old(from)@).last()),
        views(final(from)@).to_multiset().add(views(final(to)@).to_multiset()) == views(
            old(from)@,
        ).to_multiset().add(views(old(to)@).to_multiset()),
{
    match from.pop() {
        Some(item) => {
            proof {
                assert(old(from)@ =~= from@.push(item));
                lemma_views_push(from@, item);
                lemma_views_push(to@, item);
            }
            to.push(item);
            proof {
                assert(views(from@) =~= views(old(from)@).drop_last());
                assert(views(from@).to_multiset().add(views(to@).to_multiset()) =~= views(
                    old(from)@,
                ).to_multiset().add(views(old(to)@).to_multiset()));
            }
        },
        None => {},
    }
}

/// Merges two lists that are in ascending order.
fn merge<T: Keyed>(left: Vec<T>, right: Vec<T>) -> (result: Vec<T>)
    requires
        ascending::<T>(views(left@)),
        ascending::<T>(views(right@)),
    ensures
        ascending::<T>(views(result@)),
        views(result@).to_multiset() == views(left@).to_multiset().add(
            views(right@).to_multiset(),
        ),
{
    let mut low_left = left;
    let mut low_right = right;
    let mut high: Vec<T> = Vec::new();
    let ghost all = views(left@).to_multiset().add(views(right@).to_multiset());
    proof {
        views(high@).to_multiset_ensures();
        assert(views(high@) =~= Seq::empty());
        assert(views(low_left@).to_multiset().add(views(low_right@).to_multiset()).add(
            views(high@).to_multiset(),
        ) =~= all);
    }
    while low_left.len() > 0 || low_right.len() > 0
        invariant
            ascending::<T>(views(low_left@)),
            ascending::<T>(views(low_right@)),
            descending::<T>(views(high@)),
            all_not_after::<T>(views(low_left@), views(high@)),
            all_not_after::<T>(views(low_right@), views(high@)),
            views(low_left@).to_multiset().add(views(low_right@).to_multiset()).add(
                views(high@).to_multiset(),
            ) == all,
        decreases low_left.len() + low_right.len(),
    {
        let take_left: bool = if low_left.len() == 0 {
            false
        } else if low_right.len() == 0 {
            true
        } else {
            !low_left[low_left.len() - 1].precedes(&low_right[low_right.len() - 1])
        };
        let ghost before = (views(low_left@), views(low_right@), views(high@));
        if take_left {
            proof {
                lemma_take_highest::<T>(before.0, before.1, before.2);
            }
            move_last(&mut low_left, &mut high);
        } else {
            proof {
                if before.0.len() > 0 {
                    T::order_is_strict_and_total();
                }
                lemma_take_highest::<T>(before.1, before.0, before.2);
            }
            move_last(&mut low_right, &mut high);
        }
        proof {
            let left_now = views(low_left@).to_multiset();
            let right_now = views(low_right@).to_multiset();
            let high_now = views(high@).to_multiset();
            let left_before = before.0.to_multiset();
            let right_before = before.1.to_multiset();
            let high_before = before.2.to_multiset();
            assert forall|v: T::V| #[trigger]
                left_now.add(right_now).add(high_now).count(v) == left_before.add(
                right_before,
            ).add(high_before).count(v) by {
                if take_left {
                    assert(left_now.add(high_now).count(v) == left_before.add(high_before).count(
                        v,
                    ));
                } else {
                    assert(right_now.add(high_now).count(v) == right_before.add(high_before).count(
                        v,
                    ));
                }
            }
            assert(left_now.add(right_now).add(high_now) =~= all);
        }
    }
    let mut result: Vec<T> = Vec::new();
    proof {
        views(low_left@).to_multiset_ensures();
        assert(views(low_left@) =~= Seq::empty());
        assert(views(low_right@) =~= Seq::empty());
        assert(views(result@) =~= Seq::empty());
        assert(views(high@).to_multiset().add(views(result@).to_multiset()) =~= all);
    }
    while high.len() > 0
        invariant
            descending::<T>(views(high@)),
            ascending::<T>(views(result@)),
            all_not_after::<T>(views(result@), views(high@)),
            views(high@).to_multiset().add(views(result@).to_multiset()) == all,
        decreases high.len(),
    {
        move_last(&mut high, &mut result);
    }
    proof {
        assert(views(high@) =~= Seq::empty());
        assert(views(result@).to_multiset() =~= all);
    }
    result
}

/// Putting the last value of `from`, which no value of `other` exceeds, on top of
/// `high` keeps what the merge maintains.
proof fn lemma_take_highest<T: Keyed>(from: Seq<T::V>, other: Seq<T::V>, high: Seq<T::V>)
    requires
        from.len() > 0,
        ascending::<T>(from),
        ascending::<T>(other),
        descending::<T>(high),
        all_not_after::<T>(from, high),
        all_not_after::<T>(other, high),
        other.len() > 0 ==> not_after::<T>(other.last(), from.last()),
    ensures
        ascending::<T>(from.drop_last()),
        descending::<T>(high.push(from.last())),
        all_not_after::<T>(from.drop_last(), high.push(from.last())),
        all_not_after::<T>(other, high.push(from.last())),
{
    let top = high.push(from.last());
    assert forall|i: int, j: int| 0 <= i < j < top.len() implies #[trigger] not_after::<T>(
        top[j],
        top[i],
    ) by {
        if j == high.len() {
            assert(not_after::<T>(from[from.len() - 1], high[i]));
        } else {
            assert(not_after::<T>(high[j], high[i]));
        }
    }
    assert forall|i: int, j: int|
        0 <= i < from.drop_last().len() && 0 <= j < top.len() implies #[trigger] not_after::<T>(
        from.drop_last()[i],
        top[j],
    ) by {
        if j == high.len() {
            assert(not_after::<T>(from[i], from[from.len() - 1]));
        } else {
            assert(not_after::<T>(from[i], high[j]));
        }
    }
    assert forall|i: int, j: int| 0 <= i < other.len() && 0 <= j < top.len() implies
        #[trigger] not_after::<T>(other[i], top[j]) by {
        if j == high.len() {
            if i < other.len() - 1 {
                assert(not_after::<T>(other[i], other[other.len() - 1]));
                lemma_not_after_transitive::<T>(other[i], other.last(), from.last());
            }
        } else {
            assert(not_after::<T>(other[i], high[j]));
        }
    }
    assert forall|i: int, j: int| 0 <= i < j < from.drop_last().len() implies
        #[trigger] not_after::<T>(from.drop_last()[i], from.drop_last()[j]) by {
        assert(not_after::<T>(from[i], from[j]));
    }
}

/// Sorts a list by key.
pub fn sort<T: Keyed>(items: Vec<T>) -> (result: Vec<T>)
    ensures
        ascending::<T>(views(result@)),
        views(result@).to_multiset() == views(items@).to_multiset(),
    decreases items.len(),
{
    if items.len() <= 1 {
        return items;
    }
    let middle: usize = items.len() / 2;
    let mut left = items;
    let right = left.split_off(middle);
    proof {
        assert(views(items@) =~= views(left@) + views(right@));
        vstd::seq_lib::lemma_multiset_commutative(views(left@), views(right@));
    }
    let sorted_left = sort(left);
    let sorted_right = sort(right);
    merge(sorted_left, sorted_right)
}

/// Whether no two values have one key.
pub open spec fn distinct_keys<T: Keyed>(values: Seq<T::V>) -> bool {
    forall|i: int, j: int|
        0 <= i < values.len() && 0 <= j < values.len() && i != j ==> T::key(#[trigger] values[i])
            != T::key(#[trigger] values[j])
}

/// Two lists in strictly ascending order that hold the same values are equal.
pub proof fn lists_in_strict_order_are_fixed_by_their_items<T: Keyed>(
    a: Seq<T::V>,
    b: Seq<T::V>,
)
    requires
        forall|i: int, j: int|
            0 <= i < j < a.len() ==> #[trigger] T::order()(T::key(a[i]), T::key(a[j])),
        forall|i: int, j: int|
            0 <= i < j < b.len() ==> #[trigger] T::order()(T::key(b[i]), T::key(b[j])),
        forall|v: T::V| #[trigger] a.contains(v) <==> #[trigger] b.contains(v),
    ensures
        a == b,
    decreases a.len(),
{
    T::order_is_strict_and_total();
    let lt = T::order();
    if a.len() == 0 {
        if b.len() > 0 {
            assert(b.contains(b[0]));
            assert(a.contains(b[0]));
        }
        assert(a =~= b);
    } else {
        let last_a = a.last();
        assert(a.contains(last_a));
        assert(b.contains(last_a));
        let last_b = b.last();
        assert(b.contains(last_b));
        assert(a.contains(last_b));
        let i = a.index_of(last_b);
        let j = b.index_of(last_a);
        if last_a != last_b {
            assert(lt(T::key(a[i]), T::key(a[a.len() - 1])));
            assert(lt(T::key(b[j]), T::key(b[b.len() - 1])));
            assert(lt(T::key(last_b), T::key(last_a)) && lt(T::key(last_a), T::key(last_b)));
            assert(lt(T::key(last_a), T::key(last_a)));
        }
        let rest_a = a.drop_last();
        let rest_b = b.drop_last();
        assert forall|k: int, l: int| 0 <= k < l < rest_a.len() implies #[trigger] T::order()(
            T::key(rest_a[k]),
            T::key(rest_a[l]),
        ) by {
            assert(T::order()(T::key(a[k]), T::key(a[l])));
        }
        assert forall|k: int, l: int| 0 <= k < l < rest_b.len() implies #[trigger] T::order()(
            T::key(rest_b[k]),
            T::key(rest_b[l]),
        ) by {
            assert(T::order()(T::key(b[k]), T::key(b[l])));
        }
        assert forall|v: T::V| #[trigger] rest_a.contains(v) implies rest_b.contains(v) by {
            let k = rest_a.index_of(v);
            assert(a[k] == v);
            assert(a.contains(v));
            assert(lt(T::key(a[k]), T::key(a[a.len() - 1])));
            assert(v != last_a) by {
                assert(!lt(T::key(last_a), T::key(last_a)));
            }
            assert(b.contains(v));
            let l = b.index_of(v);
            assert(rest_b[l] == v);
        }
        assert forall|v: T::V| #[trigger] rest_b.contains(v) implies rest_a.contains(v) by {
            let k = rest_b.index_of(v);
            assert(b[k] == v);
            assert(b.contains(v));
            assert(lt(T::key(b[k]), T::key(b[b.len() - 1])));
            assert(v != last_b) by {
                assert(!lt(T::key(last_b), T::key(last_b)));
            }
            assert(a.contains(v));
            let l = a.index_of(v);
            assert(rest_a[l] == v);
        }
        lists_in_strict_order_are_fixed_by_their_items::<T>(rest_a, rest_b);
        assert(a =~= rest_a.push(last_a));
        assert(b =~= rest_b.push(last_b));
    }
}

/// Whether keys are distinct does not depend on the order of the values.
pub proof fn distinct_keys_do_not_depend_on_the_order<T: Keyed>(a: Seq<T::V>, b: Seq<T::V>)
    requires
        a.to_multiset() == b.to_multiset(),
        distinct_keys::<T>(a),
    ensures
        distinct_keys::<T>(b),
{
    a.to_multiset_ensures();
    b.to_multiset_ensures();
    assert forall|v: T::V| #[trigger] a.contains(v) <==> #[trigger] b.contains(v) by {
        assert(a.to_multiset().count(v) > 0 <==> a.contains(v));
        assert(b.to_multiset().count(v) > 0 <==> b.contains(v));
    }
    assert(a.no_duplicates());
    a.lemma_multiset_has_no_duplicates();
    b.lemma_multiset_has_no_duplicates_conv();
    assert forall|i: int, j: int|
        0 <= i < b.len() && 0 <= j < b.len() && i != j implies T::key(#[trigger] b[i]) != T::key(
        #[trigger] b[j],
    ) by {
        assert(b.contains(b[i]) && b.contains(b[j]));
        assert(a.contains(b[i]) && a.contains(b[j]));
        let k = a.index_of(b[i]);
        let l = a.index_of(b[j]);
        assert(k != l);
        assert(T::key(a[k]) != T::key(a[l]));
    }
}

/// Sorted values with distinct keys stand in strictly ascending order.
pub proof fn sorted_lists_with_distinct_keys_ascend_strictly<T: Keyed>(values: Seq<T::V>)
    requires
        ascending::<T>(values),
        distinct_keys::<T>(values),
    ensures
        forall|i: int, j: int|
            0 <= i < j < values.len() ==> #[trigger] T::order()(
                T::key(values[i]),
                T::key(values[j]),
            ),
{
    T::order_is_strict_and_total();
    let lt = T::order();
    assert forall|i: int, j: int| 0 <= i < j < values.len() implies #[trigger] T::order()(
        T::key(values[i]),
        T::key(values[j]),
    ) by {
        assert(not_after::<T>(values[i], values[j]));
        assert(T::key(values[i]) != T::key(values[j]));
        assert(lt(T::key(values[i]), T::key(values[j])) || lt(
            T::key(values[j]),
            T::key(values[i]),
        ));
    }
}

/// Two sorted lists that hold the same values, each as often, are equal where no
/// two values have one key.
pub proof fn sorted_lists_are_fixed_by_their_items<T: Keyed>(a: Seq<T::V>, b: Seq<T::V>)
    requires
        ascending::<T>(a),
        ascending::<T>(b),
        a.to_multiset() == b.to_multiset(),
        distinct_keys::<T>(a),
    ensures
        a == b,
{
    a.to_multiset_ensures();
    b.to_multiset_ensures();
    assert forall|v: T::V| #[trigger] a.contains(v) <==> #[trigger] b.contains(v) by {
        assert(a.to_multiset().count(v) > 0 <==> a.contains(v));
        assert(b.to_multiset().count(v) > 0 <==> b.contains(v));
    }
    distinct_keys_do_not_depend_on_the_order::<T>(a, b);
    sorted_lists_with_distinct_keys_ascend_strictly::<T>(a);
    sorted_lists_with_distinct_keys_ascend_strictly::<T>(b);
    lists_in_strict_order_are_fixed_by_their_items::<T>(a, b);
}

} // verus!

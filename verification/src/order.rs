use vstd::prelude::*;
use vstd::seq_lib::*;
use vstd::set_lib::*;

verus! {

/// Whether entry `i` comes before entry `j` when entries are put in the order of their keys, and
/// those with the same key stay as they are.
pub open spec fn comes_before(keys: Seq<u32>, i: int, j: int) -> bool {
    keys[i] < keys[j] || (keys[i] == keys[j] && i < j)
}

/// Whether `order` names every entry once, in the order of the keys.
pub open spec fn is_stable_order(keys: Seq<u32>, order: Seq<int>) -> bool {
    &&& order.len() == keys.len()
    &&& forall|i: int| 0 <= i < order.len() ==> 0 <= #[trigger] order[i] < keys.len()
    &&& forall|i: int, j: int|
        0 <= i < j < order.len() ==> comes_before(keys, #[trigger] order[i], #[trigger] order[j])
}

/// The entries in the order of their keys.
pub open spec fn stable_order(keys: Seq<u32>) -> Seq<int> {
    choose|order: Seq<int>| is_stable_order(keys, order)
}

/// The items in the order of their keys. Items with the same key stay as they are.
pub open spec fn arranged<A>(items: Seq<A>, keys: Seq<u32>) -> Seq<A> {
    Seq::new(keys.len(), |i: int| items[stable_order(keys)[i]])
}

/// Every entry is named by a stable order.
proof fn lemma_order_is_onto(keys: Seq<u32>, order: Seq<int>, entry: int)
    requires
        is_stable_order(keys, order),
        0 <= entry < keys.len(),
    ensures
        order.contains(entry),
{
    assert(order.no_duplicates());
    order.unique_seq_to_set();
    lemma_int_range(0, keys.len() as int);
    let all = set_int_range(0, keys.len() as int);
    assert(order.to_set().subset_of(all));
    lemma_subset_equality(order.to_set(), all);
    assert(all.contains(entry));
}

/// There is only one stable order.
pub proof fn lemma_order_is_unique(keys: Seq<u32>, a: Seq<int>, b: Seq<int>)
    requires
        is_stable_order(keys, a),
        is_stable_order(keys, b),
    ensures
        a == b,
{
    assert forall|i: int| 0 <= i < a.len() implies a[i] == b[i] by {
        lemma_order_agrees(keys, a, b, i);
    }
    assert(a =~= b);
}

proof fn lemma_order_agrees(keys: Seq<u32>, a: Seq<int>, b: Seq<int>, i: int)
    requires
        is_stable_order(keys, a),
        is_stable_order(keys, b),
        0 <= i < a.len(),
    ensures
        a[i] == b[i],
    decreases i,
{
    assert forall|j: int| 0 <= j < i implies a[j] == b[j] by {
        lemma_order_agrees(keys, a, b, j);
    }
    lemma_order_is_onto(keys, b, a[i]);
    lemma_order_is_onto(keys, a, b[i]);
    let k = choose|k: int| 0 <= k < b.len() && b[k] == a[i];
    let l = choose|l: int| 0 <= l < a.len() && a[l] == b[i];
    if k < i {
        assert(comes_before(keys, a[k], a[i]));
    }
    if l < i {
        assert(comes_before(keys, b[l], b[i]));
    }
    if k > i && l > i {
        assert(comes_before(keys, b[i], b[k]));
        assert(comes_before(keys, a[i], a[l]));
    }
}

/// Where the entry behind the others goes: behind those whose keys are not greater.
spec fn insertion_point(keys: Seq<u32>, order: Seq<int>, key: u32) -> int
    decreases order.len(),
{
    if order.len() == 0 || keys[order.last()] <= key {
        order.len() as int
    } else {
        insertion_point(keys, order.drop_last(), key)
    }
}

proof fn lemma_insertion_point(keys: Seq<u32>, order: Seq<int>, key: u32)
    requires
        is_stable_order(keys, order),
    ensures
        0 <= insertion_point(keys, order, key) <= order.len(),
        forall|i: int|
            0 <= i < insertion_point(keys, order, key) ==> keys[#[trigger] order[i]] <= key,
        forall|i: int|
            insertion_point(keys, order, key) <= i < order.len() ==> keys[#[trigger] order[i]]
                > key,
{
    lemma_insertion_point_of_part(keys, order, key, order.len());
    assert(order.take(order.len() as int) =~= order);
}

proof fn lemma_insertion_point_of_part(keys: Seq<u32>, order: Seq<int>, key: u32, n: nat)
    requires
        is_stable_order(keys, order),
        n <= order.len(),
    ensures
        ({
            let p = insertion_point(keys, order.take(n as int), key);
            &&& 0 <= p <= n
            &&& forall|i: int| 0 <= i < p ==> keys[#[trigger] order[i]] <= key
            &&& forall|i: int| p <= i < n ==> keys[#[trigger] order[i]] > key
        }),
    decreases n,
{
    if n > 0 {
        let part = order.take(n as int);
        assert(part.last() == order[n - 1]);
        if keys[order[n - 1]] <= key {
            assert forall|i: int| 0 <= i < n implies keys[#[trigger] order[i]] <= key by {
                if i < n - 1 {
                    assert(comes_before(keys, order[i], order[n - 1]));
                }
            }
        } else {
            lemma_insertion_point_of_part(keys, order, key, (n - 1) as nat);
            assert(part.drop_last() =~= order.take(n - 1));
        }
    }
}

/// A stable order of all entries but the last becomes one of all entries by putting in the last.
proof fn lemma_insert_last(keys: Seq<u32>, order: Seq<int>, at: int)
    requires
        keys.len() > 0,
        is_stable_order(keys.drop_last(), order),
        0 <= at <= order.len(),
        forall|i: int| 0 <= i < at ==> keys[#[trigger] order[i]] <= keys.last(),
        forall|i: int| at <= i < order.len() ==> keys[#[trigger] order[i]] > keys.last(),
    ensures
        is_stable_order(keys, order.insert(at, keys.len() - 1)),
{
    let last = keys.len() - 1;
    let new = order.insert(at, last);
    assert forall|i: int, j: int| 0 <= i < j < new.len() implies comes_before(
        keys,
        #[trigger] new[i],
        #[trigger] new[j],
    ) by {
        let oi = if i < at { i } else { i - 1 };
        let oj = if j < at { j } else { j - 1 };
        if i != at && j != at {
            assert(new[i] == order[oi] && new[j] == order[oj]);
            assert(comes_before(keys.drop_last(), order[oi], order[oj]));
        } else if i == at {
            assert(new[j] == order[oj]);
        } else {
            assert(new[i] == order[oi]);
        }
    }
}

/// Entries can be put in the order of their keys.
pub proof fn lemma_order_exists(keys: Seq<u32>)
    ensures
        is_stable_order(keys, stable_order(keys)),
    decreases keys.len(),
{
    if keys.len() == 0 {
        assert(is_stable_order(keys, Seq::empty()));
    } else {
        let before = keys.drop_last();
        lemma_order_exists(before);
        let order = stable_order(before);
        lemma_insertion_point(before, order, keys.last());
        let at = insertion_point(before, order, keys.last());
        assert forall|i: int| 0 <= i < order.len() implies keys[#[trigger] order[i]]
            == before[order[i]] by {}
        lemma_insert_last(keys, order, at);
        assert(is_stable_order(keys, order.insert(at, keys.len() - 1)));
    }
}

/// What is arranged is what was there: every item of the arranged list is an item of the list, and
/// every item of the list is in the arranged one.
pub proof fn lemma_arranged_items<A>(items: Seq<A>, keys: Seq<u32>)
    requires
        items.len() == keys.len(),
    ensures
        arranged(items, keys).len() == items.len(),
        forall|i: int|
            0 <= i < keys.len() ==> 0 <= #[trigger] stable_order(keys)[i] < items.len()
                && arranged(items, keys)[i] == items[stable_order(keys)[i]],
        forall|item: A| #[trigger] arranged(items, keys).contains(item) <==> items.contains(item),
{
    lemma_order_exists(keys);
    let order = stable_order(keys);
    assert forall|item: A| items.contains(item) implies #[trigger] arranged(items, keys).contains(
        item,
    ) by {
        let k = choose|k: int| 0 <= k < items.len() && items[k] == item;
        lemma_order_is_onto(keys, order, k);
        let i = choose|i: int| 0 <= i < order.len() && order[i] == k;
        assert(arranged(items, keys)[i] == item);
    }
}

spec fn as_ints(indices: Seq<usize>) -> Seq<int> {
    Seq::new(indices.len(), |i: int| indices[i] as int)
}

/// Puts the items in the order of their keys. Items with the same key stay as they are.
pub fn sort_by_keys<A>(items: &mut Vec<A>, keys: &Vec<u32>)
    requires
        old(items)@.len() == keys@.len(),
    ensures
        final(items)@ == arranged(old(items)@, keys@),
{
    let ghost all = items@;
    let mut order: Vec<usize> = Vec::new();
    let mut n: usize = 0;
    assert(is_stable_order(keys@.take(0), as_ints(order@)));
    while n < keys.len()
        invariant
            n <= keys.len(),
            all.len() == keys.len(),
            all == old(items)@,
            is_stable_order(keys@.take(n as int), as_ints(order@)),
            order.len() == n,
            items@.len() == all.len(),
            forall|i: int| 0 <= i < n ==> #[trigger] items@[i] == all[as_ints(order@)[i]],
            forall|i: int| n <= i < all.len() ==> #[trigger] items@[i] == all[i],
        decreases keys.len() - n,
    {
        let ghost ints = as_ints(order@);
        let ghost before = keys@.take(n as int);
        let ghost through = keys@.take(n + 1);
        let ghost sorted = items@;
        let mut at: usize = n;
        proof {
            assert forall|i: int| 0 <= i < n implies 0 <= #[trigger] order@[i] < n by {
                assert(ints[i] == order@[i]);
            }
        }
        while at > 0 && keys[order[at - 1]] > keys[n]
            invariant
                at <= n < keys.len(),
                order.len() == n,
                ints == as_ints(order@),
                before == keys@.take(n as int),
                is_stable_order(before, ints),
                forall|i: int| 0 <= i < n ==> 0 <= #[trigger] order@[i] < n,
                forall|i: int|
                    at <= i < n ==> before[#[trigger] ints[i]] > keys@[n as int],
            decreases at,
        {
            assert(ints[at - 1] == order@[at - 1]);
            at = at - 1;
        }
        proof {
            assert(through.drop_last() =~= before);
            assert forall|i: int| 0 <= i < at implies through[#[trigger] ints[i]]
                <= through.last() by {
                assert(ints[at - 1] == order@[at - 1]);
                if i < at - 1 {
                    assert(comes_before(before, ints[i], ints[at - 1]));
                }
            }
            assert forall|i: int| at <= i < n implies through[#[trigger] ints[i]]
                > through.last() by {
                assert(before[ints[i]] > keys@[n as int]);
            }
            lemma_insert_last(through, ints, at as int);
        }
        order.insert(at, n);
        let item = items.remove(n);
        items.insert(at, item);
        proof {
            let now = as_ints(order@);
            assert(now =~= ints.insert(at as int, n as int));
            assert forall|i: int| 0 <= i < n + 1 implies #[trigger] items@[i] == all[now[i]] by {
                if i < at {
                    assert(items@[i] == sorted[i]);
                } else if i > at {
                    assert(items@[i] == sorted[i - 1]);
                }
            }
            assert forall|i: int| n + 1 <= i < all.len() implies #[trigger] items@[i] == all[i] by {
                assert(items@[i] == sorted[i]);
            }
        }
        n = n + 1;
    }
    proof {
        assert(keys@.take(n as int) =~= keys@);
        lemma_order_exists(keys@);
        lemma_order_is_unique(keys@, stable_order(keys@), as_ints(order@));
        assert(items@ =~= arranged(all, keys@));
    }
}

} // verus!

//! Stable ordering of items by integer keys.
use vstd::prelude::*;

verus! {

/// `x` put into `order` behind every index whose key is not above its own.
pub open spec fn insert_by_key(order: Seq<int>, keys: Seq<int>, x: int) -> Seq<int>
    decreases order.len(),
{
    if order.len() == 0 || keys[order.last()] <= keys[x] {
        order.push(x)
    } else {
        insert_by_key(order.drop_last(), keys, x).push(order.last())
    }
}

/// The first `n` indices ordered by ascending key, equal keys in index order.
pub open spec fn ordered_prefix(keys: Seq<int>, n: nat) -> Seq<int>
    decreases n,
{
    if n == 0 {
        Seq::empty()
    } else {
        insert_by_key(ordered_prefix(keys, (n - 1) as nat), keys, n - 1)
    }
}

/// The indices of `keys` ordered by ascending key, equal keys in index order.
pub open spec fn stable_order(keys: Seq<int>) -> Seq<int> {
    ordered_prefix(keys, keys.len())
}

/// Whether index `a` stands before index `b` in the stable order by `keys`.
pub open spec fn precedes(keys: Seq<int>, a: int, b: int) -> bool {
    keys[a] < keys[b] || (keys[a] == keys[b] && a < b)
}

/// What makes `order` the stable order of the indices below `n`: each of them once, and each
/// before every one that it precedes.
pub open spec fn is_stable_order(order: Seq<int>, keys: Seq<int>, n: nat) -> bool {
    &&& order.len() == n
    &&& forall|i: int| 0 <= i < n ==> 0 <= #[trigger] order[i] < n
    &&& forall|x: int| 0 <= x < n ==> #[trigger] order.contains(x)
    &&& forall|i: int, j: int| 0 <= i < j < n ==> precedes(keys, #[trigger] order[i], #[trigger] order[j])
}

proof fn lemma_insert(order: Seq<int>, keys: Seq<int>, x: int)
    requires
        forall|i: int, j: int|
            0 <= i < j < order.len() ==> precedes(keys, #[trigger] order[i], #[trigger] order[j]),
        forall|i: int| 0 <= i < order.len() ==> #[trigger] order[i] < x,
    ensures
        insert_by_key(order, keys, x).len() == order.len() + 1,
        insert_by_key(order, keys, x).contains(x),
        forall|y: int| order.contains(y) ==> #[trigger] insert_by_key(order, keys, x).contains(y),
        forall|i: int|
            0 <= i < order.len() + 1 ==> (#[trigger] insert_by_key(order, keys, x)[i] == x
                || order.contains(insert_by_key(order, keys, x)[i])),
        forall|i: int, j: int|
            0 <= i < j < order.len() + 1 ==> precedes(
                keys,
                #[trigger] insert_by_key(order, keys, x)[i],
                #[trigger] insert_by_key(order, keys, x)[j],
            ),
    decreases order.len(),
{
    let r = insert_by_key(order, keys, x);
    if order.len() == 0 || keys[order.last()] <= keys[x] {
        assert(r[order.len() as int] == x);
        assert forall|y: int| order.contains(y) implies #[trigger] r.contains(y) by {
            let k = choose|k: int| 0 <= k < order.len() && order[k] == y;
            assert(r[k] == y);
        }
    } else {
        let front = order.drop_last();
        let s = insert_by_key(front, keys, x);
        lemma_insert(front, keys, x);
        assert(r == s.push(order.last()));
        let k0 = choose|k: int| 0 <= k < s.len() && s[k] == x;
        assert(r[k0] == x);
        assert forall|y: int| order.contains(y) implies #[trigger] r.contains(y) by {
            let k = choose|k: int| 0 <= k < order.len() && order[k] == y;
            if k == order.len() - 1 {
                assert(r[s.len() as int] == y);
            } else {
                assert(front[k] == y);
                assert(s.contains(y));
                let m = choose|m: int| 0 <= m < s.len() && s[m] == y;
                assert(r[m] == y);
            }
        }
        assert forall|i: int| 0 <= i < order.len() + 1 implies (#[trigger] r[i] == x
            || order.contains(r[i])) by {
            if i == s.len() {
                assert(order[order.len() - 1] == r[i]);
            } else {
                assert(r[i] == s[i]);
                if s[i] != x {
                    let m = choose|m: int| 0 <= m < front.len() && front[m] == s[i];
                    assert(order[m] == s[i]);
                }
            }
        }
        assert forall|i: int, j: int| 0 <= i < j < order.len() + 1 implies precedes(
            keys,
            #[trigger] r[i],
            #[trigger] r[j],
        ) by {
            if j == s.len() {
                assert(r[i] == s[i]);
                if s[i] != x {
                    let m = choose|m: int| 0 <= m < front.len() && front[m] == s[i];
                    assert(order[m] == s[i]);
                    assert(precedes(keys, order[m], order[order.len() - 1]));
                }
            } else {
                assert(r[i] == s[i] && r[j] == s[j]);
            }
        }
    }
}

proof fn lemma_ordered_prefix(keys: Seq<int>, n: nat)
    requires
        n <= keys.len(),
    ensures
        is_stable_order(ordered_prefix(keys, n), keys, n),
    decreases n,
{
    if n > 0 {
        let m = (n - 1) as nat;
        let front = ordered_prefix(keys, m);
        lemma_ordered_prefix(keys, m);
        assert forall|i: int| 0 <= i < front.len() implies #[trigger] front[i] < m by {}
        lemma_insert(front, keys, m as int);
        let r = ordered_prefix(keys, n);
        assert forall|i: int| 0 <= i < n implies 0 <= #[trigger] r[i] < n by {
            if r[i] != m {
                let k = choose|k: int| 0 <= k < front.len() && front[k] == r[i];
                assert(0 <= front[k] < m);
            }
        }
        assert forall|x: int| 0 <= x < n implies #[trigger] r.contains(x) by {
            if x < m {
                assert(front.contains(x));
            }
        }
    }
}

/// The stable order holds every index once, ascending by key, and keeps the index order of
/// equal keys.
pub proof fn law_stable_order(keys: Seq<int>)
    ensures
        is_stable_order(stable_order(keys), keys, keys.len()),
        stable_order(keys).len() == keys.len(),
        forall|x: int| 0 <= x < keys.len() ==> #[trigger] stable_order(keys).contains(x),
        forall|i: int, j: int|
            0 <= i < j < keys.len() ==> {
                let (a, b) = (#[trigger] stable_order(keys)[i], #[trigger] stable_order(keys)[j]);
                &&& 0 <= a < keys.len() && 0 <= b < keys.len()
                &&& keys[a] < keys[b] || (keys[a] == keys[b] && a < b)
            },
{
    lemma_ordered_prefix(keys, keys.len());
}

/// The values of machine integers.
pub open spec fn key_values(keys: Seq<i128>) -> Seq<int> {
    Seq::new(keys.len(), |i: int| keys[i] as int)
}

/// The values of indices.
pub open spec fn index_values(s: Seq<usize>) -> Seq<int> {
    Seq::new(s.len(), |i: int| s[i] as int)
}

/// Orders indices by ascending key, keeping the index order of equal keys.
pub fn order_by_keys(keys: &[i128]) -> (r: Vec<usize>)
    ensures
        index_values(r@) == stable_order(key_values(keys@)),
        is_stable_order(index_values(r@), key_values(keys@), keys@.len()),
{
    let ghost ks = key_values(keys@);
    let mut out: Vec<usize> = Vec::new();
    let mut n: usize = 0;
    assert(index_values(out@) =~= Seq::<int>::empty());
    while n < keys.len()
        invariant
            n <= keys@.len(),
            ks == key_values(keys@),
            index_values(out@) == ordered_prefix(ks, n as nat),
            out@.len() == n,
            forall|i: int| 0 <= i < n ==> #[trigger] out@[i] < n,
        decreases keys@.len() - n,
    {
        let ghost before = index_values(out@);
        let mut p: usize = out.len();
        let ghost mut tail: Seq<int> = Seq::empty();
        assert(before.take(p as int) =~= before);
        assert(insert_by_key(before, ks, n as int) + tail =~= insert_by_key(before, ks, n as int));
        while p > 0 && keys[out[p - 1]] > keys[n]
            invariant
                p <= out@.len(),
                n < keys@.len(),
                out@.len() == n,
                ks == key_values(keys@),
                before == index_values(out@),
                forall|i: int| 0 <= i < n ==> #[trigger] out@[i] < n,
                tail == before.skip(p as int),
                insert_by_key(before.take(p as int), ks, n as int) + tail == insert_by_key(
                    before,
                    ks,
                    n as int,
                ),
            decreases p,
        {
            proof {
                let cur = before.take(p as int);
                assert(cur.last() == before[p - 1]);
                assert(cur.drop_last() =~= before.take(p - 1));
                assert(ks[cur.last()] > ks[n as int]);
                let shorter = insert_by_key(before.take(p - 1), ks, n as int);
                assert(insert_by_key(cur, ks, n as int) == shorter.push(before[p - 1]));
                assert(shorter.push(before[p - 1]) + tail =~= shorter + before.skip(p - 1));
                tail = before.skip(p - 1);
            }
            p = p - 1;
        }
        proof {
            let cur = before.take(p as int);
            if p > 0 {
                assert(cur.last() == before[p - 1]);
                assert(ks[cur.last()] <= ks[n as int]);
            }
            assert(insert_by_key(cur, ks, n as int) == cur.push(n as int));
        }
        out.insert(p, n);
        assert(index_values(out@) =~= before.take(p as int).push(n as int) + before.skip(p as int));
        n = n + 1;
    }
    proof {
        law_stable_order(ks);
    }
    out
}

/// The items in the given order.
pub open spec fn arranged<A>(items: Seq<A>, order: Seq<int>) -> Seq<A> {
    Seq::new(order.len(), |i: int| items[order[i]])
}

/// The parts one after another.
pub open spec fn concatenated<A>(parts: Seq<Seq<A>>) -> Seq<A>
    decreases parts.len(),
{
    if parts.len() == 0 {
        Seq::empty()
    } else {
        concatenated(parts.drop_last()) + parts.last()
    }
}

/// The sum of `f` over the items.
pub open spec fn total<A>(items: Seq<A>, f: spec_fn(A) -> nat) -> nat
    decreases items.len(),
{
    if items.len() == 0 {
        0
    } else {
        total(items.drop_last(), f) + f(items.last())
    }
}

proof fn lemma_arranged_insert<A>(items: Seq<A>, order: Seq<int>, keys: Seq<int>, x: int)
    ensures
        arranged(items, insert_by_key(order, keys, x)).to_multiset() == arranged(
            items,
            order,
        ).to_multiset().insert(items[x]),
    decreases order.len(),
{
    broadcast use vstd::seq_lib::group_to_multiset_ensures;

    if order.len() == 0 || keys[order.last()] <= keys[x] {
        assert(arranged(items, order.push(x)) =~= arranged(items, order).push(items[x]));
    } else {
        let front = order.drop_last();
        let last = items[order.last()];
        let s = insert_by_key(front, keys, x);
        lemma_arranged_insert(items, front, keys, x);
        assert(arranged(items, s.push(order.last())) =~= arranged(items, s).push(last));
        assert(arranged(items, order) =~= arranged(items, front).push(last));
        assert(arranged(items, s.push(order.last())).to_multiset() =~= arranged(
            items,
            order,
        ).to_multiset().insert(items[x]));
    }
}

proof fn lemma_arranged_prefix<A>(items: Seq<A>, keys: Seq<int>, n: nat)
    requires
        n <= items.len(),
    ensures
        arranged(items, ordered_prefix(keys, n)).to_multiset() == items.take(n as int).to_multiset(),
    decreases n,
{
    broadcast use vstd::seq_lib::group_to_multiset_ensures;

    if n == 0 {
        assert(arranged(items, ordered_prefix(keys, n)) =~= items.take(0));
    } else {
        let m = (n - 1) as nat;
        lemma_arranged_prefix(items, keys, m);
        lemma_arranged_insert(items, ordered_prefix(keys, m), keys, m as int);
        assert(items.take(n as int) =~= items.take(m as int).push(items[m as int]));
    }
}

/// Ordering items loses none and doubles none.
pub proof fn law_arranging_keeps_items<A>(items: Seq<A>, keys: Seq<int>)
    requires
        keys.len() == items.len(),
    ensures
        arranged(items, stable_order(keys)).to_multiset() == items.to_multiset(),
{
    lemma_arranged_prefix(items, keys, keys.len());
    assert(items.take(keys.len() as int) =~= items);
}

pub proof fn lemma_total_remove<A>(items: Seq<A>, f: spec_fn(A) -> nat, k: int)
    requires
        0 <= k < items.len(),
    ensures
        total(items, f) == total(items.remove(k), f) + f(items[k]),
    decreases items.len(),
{
    if k == items.len() - 1 {
        assert(items.remove(k) =~= items.drop_last());
    } else {
        lemma_total_remove(items.drop_last(), f, k);
        assert(items.remove(k).drop_last() =~= items.drop_last().remove(k));
    }
}

/// A sum does not depend on the order of the items.
pub proof fn lemma_total_same<A>(a: Seq<A>, b: Seq<A>, f: spec_fn(A) -> nat)
    requires
        a.to_multiset() == b.to_multiset(),
    ensures
        total(a, f) == total(b, f),
    decreases a.len(),
{
    broadcast use vstd::seq_lib::group_to_multiset_ensures;

    assert(a.to_multiset().len() == a.len() && b.to_multiset().len() == b.len());
    if a.len() > 0 {
        let x = a.last();
        assert(a[a.len() - 1] == x);
        assert(a.contains(x));
        assert(a.to_multiset().count(x) > 0);
        assert(b.contains(x));
        let k = choose|k: int| 0 <= k < b.len() && b[k] == x;
        lemma_total_remove(b, f, k);
        assert(a.remove(a.len() - 1) =~= a.drop_last());
        assert(a.drop_last().to_multiset() =~= b.remove(k).to_multiset());
        lemma_total_same(a.drop_last(), b.remove(k), f);
    }
}

pub proof fn lemma_total_add<A>(a: Seq<A>, b: Seq<A>, f: spec_fn(A) -> nat)
    ensures
        total(a + b, f) == total(a, f) + total(b, f),
    decreases b.len(),
{
    if b.len() == 0 {
        assert(a + b =~= a);
    } else {
        lemma_total_add(a, b.drop_last(), f);
        assert((a + b).drop_last() =~= a + b.drop_last());
    }
}

/// What is put together comes in order, and nothing else comes: two lists of parts one after the
/// other, and one part as it is.
pub proof fn law_putting_together<A>(a: Seq<Seq<A>>, b: Seq<Seq<A>>, part: Seq<A>)
    ensures
        concatenated(a + b) == concatenated(a) + concatenated(b),
        concatenated(seq![part]) == part,
        concatenated(Seq::<Seq<A>>::empty()) == Seq::<A>::empty(),
    decreases b.len(),
{
    if b.len() == 0 {
        assert(a + b =~= a);
        assert(concatenated(a) + concatenated(b) =~= concatenated(a));
    } else {
        law_putting_together(a, b.drop_last(), part);
        assert((a + b).drop_last() =~= a + b.drop_last());
        assert(concatenated(a + b) =~= concatenated(a) + concatenated(b));
    }
    assert(seq![part].drop_last() =~= Seq::<Seq<A>>::empty());
    assert(concatenated(seq![part].drop_last()) + part =~= part);
}

/// A sum counts each item once: the sums of two lists add up, and one item counts what it counts.
pub proof fn law_summing<A>(a: Seq<A>, b: Seq<A>, x: A, f: spec_fn(A) -> nat)
    ensures
        total(a + b, f) == total(a, f) + total(b, f),
        total(seq![x], f) == f(x),
        total(Seq::<A>::empty(), f) == 0,
{
    lemma_total_add(a, b, f);
    assert(seq![x].drop_last() =~= Seq::<A>::empty());
    assert(total(seq![x].drop_last(), f) == 0);
}

/// Keys and places are seen as the numbers that they are.
pub proof fn law_numbers_are_seen(keys: Seq<i128>, places: Seq<usize>, i: int)
    ensures
        key_values(keys).len() == keys.len(),
        0 <= i < keys.len() ==> key_values(keys)[i] == keys[i],
        index_values(places).len() == places.len(),
        0 <= i < places.len() ==> index_values(places)[i] == places[i],
{
}

/// What already stands in order stays as it stands.
pub proof fn law_what_is_in_order_stays(keys: Seq<int>)
    requires
        forall|a: int, b: int| 0 <= a < b < keys.len() ==> keys[a] <= keys[b],
    ensures
        stable_order(keys).len() == keys.len(),
        forall|i: int| 0 <= i < keys.len() ==> #[trigger] stable_order(keys)[i] == i,
{
    lemma_prefix_stays(keys, keys.len());
}

proof fn lemma_prefix_stays(keys: Seq<int>, n: nat)
    requires
        n <= keys.len(),
        forall|a: int, b: int| 0 <= a < b < keys.len() ==> keys[a] <= keys[b],
    ensures
        ordered_prefix(keys, n) == Seq::new(n, |i: int| i),
    decreases n,
{
    if n > 0 {
        lemma_prefix_stays(keys, (n - 1) as nat);
        assert(ordered_prefix(keys, n) =~= Seq::new(n, |i: int| i));
    } else {
        assert(ordered_prefix(keys, n) =~= Seq::new(n, |i: int| i));
    }
}

/// Items arranged by some order stand where the order has their places.
pub proof fn law_arranging<A>(items: Seq<A>, order: Seq<int>, i: int)
    requires
        0 <= i < order.len(),
    ensures
        arranged(items, order).len() == order.len(),
        arranged(items, order)[i] == items[order[i]],
{
}

/// Items in the stable order of their keys.
pub open spec fn ordered<A>(items: Seq<A>, key: spec_fn(A) -> int) -> Seq<A> {
    arranged(items, stable_order(Seq::new(items.len(), |i: int| key(items[i]))))
}

/// One item more goes behind every item whose key is not above its own, and before all others,
/// which keep their order.
pub proof fn law_next_item<A>(items: Seq<A>, item: A, key: spec_fn(A) -> int) -> (p: int)
    ensures
        0 <= p <= items.len(),
        ordered(items, key).len() == items.len(),
        ordered(items.push(item), key) == ordered(items, key).insert(p, item),
        forall|i: int| 0 <= i < p ==> key(#[trigger] ordered(items, key)[i]) <= key(item),
        forall|i: int|
            p <= i < items.len() ==> key(#[trigger] ordered(items, key)[i]) > key(item),
{
    let n = items.len() as int;
    let all = items.push(item);
    let keys = Seq::new(items.len(), |i: int| key(items[i]));
    let more = Seq::new(all.len(), |i: int| key(all[i]));
    assert(forall|i: int| 0 <= i < n ==> keys[i] == more[i]);
    lemma_same_prefix(keys, more, items.len());
    lemma_ordered_prefix(keys, items.len());
    let order = stable_order(keys);
    assert forall|i: int, j: int| 0 <= i < j < order.len() implies more[#[trigger] order[i]]
        <= more[#[trigger] order[j]] by {
        assert(precedes(keys, order[i], order[j]));
        assert(0 <= order[i] < n && 0 <= order[j] < n);
    }
    let p = lemma_place(order, more, n);
    assert(stable_order(more) =~= order.insert(p, n));
    let before = ordered(items, key);
    assert forall|i: int| 0 <= i < n implies key(#[trigger] before[i]) == more[order[i]] by {
        assert(0 <= order[i] < n);
    }
    let after = ordered(all, key);
    let longer = order.insert(p, n);
    assert forall|i: int| 0 <= i < n + 1 implies after[i] == before.insert(p, item)[i] by {
        assert(after[i] == all[longer[i]]);
        if i < p {
            assert(longer[i] == order[i]);
            assert(0 <= order[i] < n);
        } else if i > p {
            assert(longer[i] == order[i - 1]);
            assert(0 <= order[i - 1] < n);
        }
    }
    assert(after =~= before.insert(p, item));
    p
}

proof fn lemma_same_insert(order: Seq<int>, keys: Seq<int>, more: Seq<int>, x: int)
    requires
        forall|i: int| 0 <= i < order.len() ==> keys[#[trigger] order[i]] == more[order[i]],
        keys[x] == more[x],
    ensures
        insert_by_key(order, keys, x) == insert_by_key(order, more, x),
    decreases order.len(),
{
    if order.len() > 0 {
        assert(order.last() == order[order.len() - 1]);
        lemma_same_insert(order.drop_last(), keys, more, x);
    }
}

proof fn lemma_same_prefix(keys: Seq<int>, more: Seq<int>, n: nat)
    requires
        n <= keys.len() <= more.len(),
        forall|i: int| 0 <= i < keys.len() ==> keys[i] == more[i],
    ensures
        ordered_prefix(keys, n) == ordered_prefix(more, n),
    decreases n,
{
    if n > 0 {
        let m = (n - 1) as nat;
        lemma_same_prefix(keys, more, m);
        lemma_ordered_prefix(keys, m);
        let order = ordered_prefix(keys, m);
        assert forall|i: int| 0 <= i < order.len() implies keys[#[trigger] order[i]]
            == more[order[i]] by {
            assert(0 <= order[i] < m);
        }
        lemma_same_insert(order, keys, more, m as int);
    }
}

proof fn lemma_place(order: Seq<int>, keys: Seq<int>, x: int) -> (p: int)
    requires
        forall|i: int, j: int|
            0 <= i < j < order.len() ==> keys[#[trigger] order[i]] <= keys[#[trigger] order[j]],
    ensures
        0 <= p <= order.len(),
        insert_by_key(order, keys, x) == order.insert(p, x),
        forall|i: int| 0 <= i < p ==> keys[#[trigger] order[i]] <= keys[x],
        forall|i: int| p <= i < order.len() ==> keys[#[trigger] order[i]] > keys[x],
    decreases order.len(),
{
    if order.len() == 0 || keys[order.last()] <= keys[x] {
        let p = order.len() as int;
        assert(order.insert(p, x) =~= order.push(x));
        if order.len() > 0 {
            assert(order.last() == order[order.len() - 1]);
        }
        p
    } else {
        let front = order.drop_last();
        assert forall|i: int, j: int| 0 <= i < j < front.len() implies keys[#[trigger] front[i]]
            <= keys[#[trigger] front[j]] by {
            assert(front[i] == order[i] && front[j] == order[j]);
        }
        let p = lemma_place(front, keys, x);
        assert(front.insert(p, x).push(order.last()) =~= order.insert(p, x));
        assert forall|i: int| 0 <= i < p implies keys[#[trigger] order[i]] <= keys[x] by {
            assert(front[i] == order[i]);
        }
        assert forall|i: int| p <= i < order.len() implies keys[#[trigger] order[i]] > keys[x] by {
            if i < front.len() {
                assert(front[i] == order[i]);
            }
        }
        p
    }
}

} // verus!

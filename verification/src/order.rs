//! The stable order of a sequence by integer keys, as a sequence of positions.

use vstd::prelude::*;
use vstd::seq_lib::*;

verus! {

/// Whether position `p` comes before position `q` in the stable order: by key, and among
/// equal keys by position.
pub open spec fn before(keys: Seq<int>, p: int, q: int) -> bool {
    keys[p] < keys[q] || (keys[p] == keys[q] && p < q)
}

/// `order` lists every position of `keys` once, by increasing key and, among equal keys, by
/// increasing position.
pub open spec fn is_stable_order(keys: Seq<int>, order: Seq<int>) -> bool {
    &&& order.len() == keys.len()
    &&& forall|i: int| 0 <= i < order.len() ==> 0 <= #[trigger] order[i] < keys.len()
    &&& forall|i: int, j: int|
        0 <= i < j < order.len() ==> before(keys, #[trigger] order[i], #[trigger] order[j])
}

/// The positions of `keys` in stable order: by key, and among equal keys by position.
pub open spec fn stable_order(keys: Seq<int>) -> Seq<int> {
    choose|order: Seq<int>| is_stable_order(keys, order)
}

/// The items of `s` taken in the given order of positions.
pub open spec fn reorder<A>(s: Seq<A>, order: Seq<int>) -> Seq<A> {
    Seq::new(s.len(), |i: int| s[order[i]])
}

/// `order` lists the positions `from..keys.len()`, each before the next.
spec fn is_stable_order_from(keys: Seq<int>, order: Seq<int>, from: int) -> bool {
    &&& order.len() == keys.len() - from
    &&& forall|i: int| 0 <= i < order.len() ==> from <= #[trigger] order[i] < keys.len()
    &&& forall|i: int, j: int|
        0 <= i < j < order.len() ==> before(keys, #[trigger] order[i], #[trigger] order[j])
}

/// The first position at or after `from` whose entry of `order` has a key that is not below
/// `key`; the length of `order` where there is none.
spec fn skip_less(keys: Seq<int>, order: Seq<int>, key: int, from: int) -> int
    decreases order.len() - from,
{
    if 0 <= from < order.len() && keys[order[from]] < key {
        skip_less(keys, order, key, from + 1)
    } else {
        from
    }
}

/// The positions `k..keys.len()` in stable order, built from the last position down: each
/// position is put in before the first later position whose key is not below its own.
spec fn order_from(keys: Seq<int>, k: int) -> Seq<int>
    decreases keys.len() - k,
{
    if k < 0 || k >= keys.len() {
        Seq::empty()
    } else {
        let rest = order_from(keys, k + 1);
        rest.insert(skip_less(keys, rest, keys[k], 0), k)
    }
}

proof fn lemma_skip_less(keys: Seq<int>, order: Seq<int>, key: int, from: int)
    requires
        0 <= from <= order.len(),
    ensures
        from <= skip_less(keys, order, key, from) <= order.len(),
        forall|i: int|
            from <= i < skip_less(keys, order, key, from) ==> keys[#[trigger] order[i]] < key,
        skip_less(keys, order, key, from) < order.len() ==> keys[order[skip_less(
            keys,
            order,
            key,
            from,
        )]] >= key,
    decreases order.len() - from,
{
    if from < order.len() && keys[order[from]] < key {
        lemma_skip_less(keys, order, key, from + 1);
    }
}

proof fn lemma_order_from(keys: Seq<int>, k: int)
    requires
        0 <= k <= keys.len(),
    ensures
        is_stable_order_from(keys, order_from(keys, k), k),
    decreases keys.len() - k,
{
    if k < keys.len() {
        let rest = order_from(keys, k + 1);
        lemma_order_from(keys, k + 1);
        let p = skip_less(keys, rest, keys[k], 0);
        lemma_skip_less(keys, rest, keys[k], 0);
        let order = rest.insert(p, k);
        assert forall|i: int, j: int| 0 <= i < j < order.len() implies before(
            keys,
            #[trigger] order[i],
            #[trigger] order[j],
        ) by {
            // rest is in order, k comes before every position of rest, and the keys that
            // are below the key of k are those of rest before p
            assert(i < p ==> order[i] == rest[i]);
            assert(j > p ==> order[j] == rest[j - 1]);
        }
        assert forall|i: int| 0 <= i < order.len() implies k <= #[trigger] order[i]
            < keys.len() by {
            assert(i < p ==> order[i] == rest[i]);
            assert(i > p ==> order[i] == rest[i - 1]);
        }
    }
}

/// The stable order lists every position once, by increasing key and, among equal keys, by
/// increasing position.
pub proof fn lemma_stable_order(keys: Seq<int>)
    ensures
        is_stable_order(keys, stable_order(keys)),
{
    lemma_order_from(keys, 0);
    assert(is_stable_order(keys, order_from(keys, 0)));
}

/// Only one order of the positions is stable.
pub proof fn lemma_stable_order_unique(keys: Seq<int>, a: Seq<int>, b: Seq<int>)
    requires
        is_stable_order(keys, a),
        is_stable_order(keys, b),
    ensures
        a == b,
{
    lemma_lists_all(keys, a);
    lemma_lists_all(keys, b);
    lemma_same_order(keys, a, b, 0);
}

/// A stable order mentions every position.
pub proof fn lemma_lists_all(keys: Seq<int>, order: Seq<int>)
    requires
        is_stable_order(keys, order),
    ensures
        forall|k: int| 0 <= k < keys.len() ==> #[trigger] order.contains(k),
{
    let n = keys.len() as int;
    assert(order.no_duplicates()) by {
        assert forall|i: int, j: int|
            0 <= i < order.len() && 0 <= j < order.len() && i != j implies order[i]
            != order[j] by {
            assert(i < j ==> before(keys, order[i], order[j]));
            assert(j < i ==> before(keys, order[j], order[i]));
        }
    }
    let range = vstd::set_lib::set_int_range(0, n);
    vstd::set_lib::lemma_int_range(0, n);
    order.unique_seq_to_set();
    let got = order.to_set();
    assert(got.subset_of(range)) by {
        assert forall|k: int| got.contains(k) implies range.contains(k) by {
            let i = choose|i: int| 0 <= i < order.len() && order[i] == k;
        }
    }
    vstd::set_lib::lemma_subset_equality(got, range);
    assert forall|k: int| 0 <= k < n implies #[trigger] order.contains(k) by {
        assert(got.contains(k));
    }
}

/// Two stable orders that agree before position `i` agree throughout.
proof fn lemma_same_order(keys: Seq<int>, a: Seq<int>, b: Seq<int>, i: int)
    requires
        is_stable_order(keys, a),
        is_stable_order(keys, b),
        forall|k: int| 0 <= k < keys.len() ==> #[trigger] a.contains(k),
        forall|k: int| 0 <= k < keys.len() ==> #[trigger] b.contains(k),
        0 <= i <= keys.len(),
        forall|x: int| 0 <= x < i ==> a[x] == b[x],
    ensures
        forall|x: int| 0 <= x < keys.len() ==> a[x] == b[x],
    decreases keys.len() - i,
{
    if i < keys.len() {
        // a[i] stands in b at some y and b[i] in a at some x; were they not both i, the two
        // orders would disagree on which of a[i] and b[i] comes first
        assert(b.contains(a[i]));
        assert(a.contains(b[i]));
        let y = choose|y: int| 0 <= y < b.len() && b[y] == a[i];
        let x = choose|x: int| 0 <= x < a.len() && a[x] == b[i];
        assert(y >= i && x >= i);
        assert(y > i && x > i ==> before(keys, b[i], b[y]) && before(keys, a[i], a[x]));
        lemma_same_order(keys, a, b, i + 1);
    }
}

/// Taking the items of `s` in the order of positions `k..` gives the items of `s` from `k`
/// on, each as often as it occurs there.
proof fn lemma_order_from_permutes<A>(s: Seq<A>, keys: Seq<int>, k: int)
    requires
        s.len() == keys.len(),
        0 <= k <= keys.len(),
    ensures
        order_from(keys, k).map_values(|p: int| s[p]).to_multiset() == s.subrange(
            k,
            s.len() as int,
        ).to_multiset(),
    decreases keys.len() - k,
{
    broadcast use group_to_multiset_ensures;

    let pick = |p: int| s[p];
    let n = s.len() as int;
    lemma_order_from(keys, k);
    if k < keys.len() {
        let rest = order_from(keys, k + 1);
        lemma_order_from(keys, k + 1);
        lemma_order_from_permutes(s, keys, k + 1);
        let p = skip_less(keys, rest, keys[k], 0);
        lemma_skip_less(keys, rest, keys[k], 0);
        let order = rest.insert(p, k);
        let taken = order.map_values(pick);
        let before = rest.map_values(pick);
        assert(taken.remove(p) =~= before);
        let tail = s.subrange(k, n);
        assert(tail.remove(0) =~= s.subrange(k + 1, n));
        assert(tail.to_multiset() =~= s.subrange(k + 1, n).to_multiset().insert(s[k]));
    }
}

/// Reordering by the stable order keeps every item, each as often as it occurs.
pub proof fn lemma_reorder_permutes<A>(s: Seq<A>, keys: Seq<int>)
    requires
        s.len() == keys.len(),
    ensures
        reorder(s, stable_order(keys)).to_multiset() == s.to_multiset(),
{
    lemma_order_from_permutes(s, keys, 0);
    lemma_order_from(keys, 0);
    lemma_stable_order(keys);
    lemma_stable_order_unique(keys, order_from(keys, 0), stable_order(keys));
    assert(stable_order(keys).map_values(|p: int| s[p]) =~= reorder(s, stable_order(keys)));
    assert(s.subrange(0, s.len() as int) =~= s);
}

/// An item with the key that it is ordered by.
pub struct Keyed<A> {
    pub key: i128,
    pub item: A,
}

/// The keys of the items, in their order.
pub open spec fn keys_of<A>(items: Seq<Keyed<A>>) -> Seq<int> {
    Seq::new(items.len(), |i: int| items[i].key as int)
}

/// The items in reverse.
pub fn reversed<A>(items: Vec<A>) -> (out: Vec<A>)
    ensures
        out.len() == items.len(),
        forall|i: int| 0 <= i < out.len() ==> out[i] == items[items.len() - 1 - i],
{
    let ghost items0 = items@;
    let mut items = items;
    let mut out: Vec<A> = Vec::new();
    while items.len() > 0
        invariant
            items@ == items0.subrange(0, items.len() as int),
            items.len() <= items0.len(),
            out.len() == items0.len() - items.len(),
            forall|i: int| 0 <= i < out.len() ==> out[i] == items0[items0.len() - 1 - i],
        decreases items.len(),
    {
        let last = items.pop().unwrap();
        out.push(last);
    }
    out
}

/// Merges two runs, each in stable order, of the two halves of `whole` into the stable
/// order of `whole`. Where keys are equal the left run goes first.
fn merge<A>(left: Vec<Keyed<A>>, right: Vec<Keyed<A>>, Ghost(whole): Ghost<Seq<Keyed<A>>>) -> (out:
    Vec<Keyed<A>>)
    requires
        whole.len() == left.len() + right.len(),
        left@ == reorder(
            whole.subrange(0, left.len() as int),
            stable_order(keys_of(whole.subrange(0, left.len() as int))),
        ),
        right@ == reorder(
            whole.subrange(left.len() as int, whole.len() as int),
            stable_order(keys_of(whole.subrange(left.len() as int, whole.len() as int))),
        ),
    ensures
        out@ == reorder(whole, stable_order(keys_of(whole))),
{
    let ghost keys = keys_of(whole);
    let ghost n = whole.len() as int;
    let ghost mid = left.len() as int;
    let ghost lo = stable_order(keys_of(whole.subrange(0, mid)));
    let ghost ro = stable_order(keys_of(whole.subrange(mid, n)));
    let ghost left0 = left@;
    let ghost right0 = right@;
    proof {
        // the two runs are in order by the keys of their halves, which are the keys of the
        // whole at the same positions, those of the right half moved up by mid
        lemma_stable_order(keys_of(whole.subrange(0, mid)));
        lemma_stable_order(keys_of(whole.subrange(mid, n)));
    }
    let mut left = left;
    let mut right = right;
    let mut rev: Vec<Keyed<A>> = Vec::new();
    let ghost mut rev_order: Seq<int> = Seq::empty();
    while left.len() > 0 || right.len() > 0
        invariant
            n == whole.len(),
            keys == keys_of(whole),
            0 <= mid <= n,
            left0.len() == mid,
            right0.len() == n - mid,
            lo.len() == mid,
            ro.len() == n - mid,
            forall|i: int| 0 <= i < mid ==> 0 <= #[trigger] lo[i] < mid && left0[i] == whole[lo[i]],
            forall|j: int|
                0 <= j < n - mid ==> 0 <= #[trigger] ro[j] < n - mid && right0[j] == whole[mid
                    + ro[j]],
            forall|i: int, j: int|
                0 <= i < j < mid ==> before(keys, #[trigger] lo[i], #[trigger] lo[j]),
            forall|i: int, j: int|
                0 <= i < j < n - mid ==> before(
                    keys,
                    mid + #[trigger] ro[i],
                    mid + #[trigger] ro[j],
                ),
            left.len() <= mid,
            right.len() <= n - mid,
            left@ == left0.subrange(0, left.len() as int),
            right@ == right0.subrange(0, right.len() as int),
            rev.len() == rev_order.len(),
            rev.len() == (mid - left.len()) + (n - mid - right.len()),
            forall|k: int|
                0 <= k < rev.len() ==> 0 <= #[trigger] rev_order[k] < n && rev[k]
                    == whole[rev_order[k]],
            forall|i: int, j: int|
                0 <= i < j < rev.len() ==> before(
                    keys,
                    #[trigger] rev_order[j],
                    #[trigger] rev_order[i],
                ),
            forall|k: int, i: int|
                0 <= k < rev.len() && 0 <= i < left.len() ==> before(
                    keys,
                    #[trigger] lo[i],
                    #[trigger] rev_order[k],
                ),
            forall|k: int, j: int|
                0 <= k < rev.len() && 0 <= j < right.len() ==> before(
                    keys,
                    mid + #[trigger] ro[j],
                    #[trigger] rev_order[k],
                ),
        decreases left.len() + right.len(),
    {
        let from_right = if left.len() == 0 {
            true
        } else if right.len() == 0 {
            false
        } else {
            right[right.len() - 1].key >= left[left.len() - 1].key
        };
        if from_right {
            let ghost j = right.len() - 1;
            let ghost e = mid + ro[j];
            let taken = right.pop().unwrap();
            proof {
                // the last of the right run has a key no less than the last of the left
                // run, and stands after all of the left run: nothing that is left comes
                // after it
                let next = rev_order.push(e);
                assert forall|k: int, i: int|
                    0 <= k < next.len() && 0 <= i < left.len() implies before(
                    keys,
                    #[trigger] lo[i],
                    #[trigger] next[k],
                ) by {
                    let top = left.len() - 1;
                    assert(k == rev_order.len() && i < top ==> before(keys, lo[i], lo[top]));
                }
                rev_order = next;
            }
            rev.push(taken);
        } else {
            let ghost i = left.len() - 1;
            let ghost e = lo[i];
            let taken = left.pop().unwrap();
            proof {
                // the last of the left run has a key greater than the last of the right
                // run: nothing that is left comes after it
                let next = rev_order.push(e);
                assert forall|k: int, jj: int|
                    0 <= k < next.len() && 0 <= jj < right.len() implies before(
                    keys,
                    mid + #[trigger] ro[jj],
                    #[trigger] next[k],
                ) by {
                    let top = right.len() - 1;
                    assert(k == rev_order.len() && jj < top ==> before(
                        keys,
                        mid + ro[jj],
                        mid + ro[top],
                    ));
                }
                rev_order = next;
            }
            rev.push(taken);
        }
    }
    let out = reversed(rev);
    proof {
        // turned round, the order in which the items were taken is stable, and only one
        // order is
        let order = Seq::new(n as nat, |i: int| rev_order[n - 1 - i]);
        lemma_stable_order(keys);
        lemma_stable_order_unique(keys, order, stable_order(keys));
    }
    out
}

/// Sorts the items by key. Items with equal keys keep their order.
pub fn stable_sort<A>(items: Vec<Keyed<A>>) -> (sorted: Vec<Keyed<A>>)
    ensures
        sorted@ == reorder(items@, stable_order(keys_of(items@))),
    decreases items.len(),
{
    let ghost whole = items@;
    let len = items.len();
    if len <= 1 {
        proof {
            lemma_stable_order(keys_of(whole));
        }
        items
    } else {
        let mut left = items;
        let right = left.split_off(len / 2);
        let left = stable_sort(left);
        let right = stable_sort(right);
        merge(left, right, Ghost(whole))
    }
}

} // verus!

//! A stable order of positions by their keys.
use vstd::prelude::*;
use vstd::relations::injective_on;
use vstd::seq_lib::to_multiset_build;
use vstd::set_lib::lemma_int_range;
use vstd::set_lib::lemma_map_size;
use vstd::set_lib::lemma_subset_equality;
use vstd::set_lib::set_int_range;

verus! {

/// Values that come below or above each other. Those of which neither comes below the
/// other count as equal.
pub trait Order: Sized {
    /// This value comes below the other.
    spec fn below(self, other: Self) -> bool;

    /// No value comes below itself.
    proof fn below_irreflexive(a: Self)
        ensures
            !a.below(a),
    ;

    /// A value is below whatever the values above it are below.
    proof fn below_transitive(a: Self, b: Self, c: Self)
        ensures
            a.below(b) && b.below(c) ==> a.below(c),
    ;

    /// What lies between two values is above the one or below the other.
    proof fn below_connected(a: Self, b: Self, c: Self)
        ensures
            a.below(c) ==> a.below(b) || b.below(c),
    ;
}

/// A key that positions are ordered by.
pub trait SortKey: Sized {
    /// What the key is compared as.
    type Model: Order;

    /// The value that the key stands for.
    spec fn model(&self) -> Self::Model;

    /// Whether this key comes below the other.
    fn is_below(&self, other: &Self) -> (r: bool)
        ensures
            r == self.model().below(other.model()),
    ;
}

impl Order for i64 {
    open spec fn below(self, other: Self) -> bool {
        self < other
    }

    proof fn below_irreflexive(a: Self) {
    }

    proof fn below_transitive(a: Self, b: Self, c: Self) {
    }

    proof fn below_connected(a: Self, b: Self, c: Self) {
    }
}

impl SortKey for i64 {
    type Model = i64;

    open spec fn model(&self) -> i64 {
        *self
    }

    fn is_below(&self, other: &Self) -> (r: bool) {
        *self < *other
    }
}

/// The values that the keys stand for.
pub open spec fn models<K: SortKey>(keys: Seq<K>) -> Seq<K::Model> {
    keys.map_values(|k: K| k.model())
}

/// Position `a` comes before position `b`: its key is lower, or the keys are equal and
/// it stood first.
pub open spec fn before<O: Order>(keys: Seq<O>, a: usize, b: usize) -> bool {
    keys[a as int].below(keys[b as int]) || (!keys[b as int].below(keys[a as int]) && a < b)
}

/// `order` lists positions of `keys` from the first to the last.
pub open spec fn ascending<O: Order>(keys: Seq<O>, order: Seq<usize>) -> bool {
    forall|i: int, j: int| 0 <= i < j < order.len() ==> before(keys, #[trigger] order[i], #[trigger] order[j])
}

/// `order` lists every position of `keys` once, by key and then by position.
pub open spec fn is_order<O: Order>(keys: Seq<O>, order: Seq<usize>) -> bool {
    &&& order.len() == keys.len()
    &&& forall|i: int| 0 <= i < order.len() ==> (#[trigger] order[i]) < keys.len()
    &&& forall|k: usize| k < keys.len() ==> #[trigger] order.contains(k)
    &&& ascending(keys, order)
}

/// The order of `keys`, of which there is just one.
pub open spec fn order_of<O: Order>(keys: Seq<O>) -> Seq<usize> {
    choose|order: Seq<usize>| is_order(keys, order)
}

/// `order` is the part of the order that covers the positions from `lo` to `hi`.
spec fn covers<O: Order>(keys: Seq<O>, order: Seq<usize>, lo: int, hi: int) -> bool {
    &&& order.len() == hi - lo
    &&& forall|i: int| 0 <= i < order.len() ==> lo <= #[trigger] order[i] < hi
    &&& forall|k: usize| lo <= k < hi ==> #[trigger] order.contains(k)
    &&& ascending(keys, order)
}

/// What comes before a position comes before all that come after it.
proof fn lemma_before_transitive<O: Order>(keys: Seq<O>, a: usize, b: usize, c: usize)
    requires
        before(keys, a, b),
        before(keys, b, c),
    ensures
        before(keys, a, c),
{
    let x = keys[a as int];
    let y = keys[b as int];
    let z = keys[c as int];
    O::below_transitive(x, y, z);
    O::below_connected(x, z, y);
    O::below_connected(y, x, z);
    O::below_connected(z, y, x);
}

/// Two positions never come before each other.
proof fn lemma_before_asymmetric<O: Order>(keys: Seq<O>, a: usize, b: usize)
    requires
        before(keys, a, b),
    ensures
        !before(keys, b, a),
{
    let x = keys[a as int];
    let y = keys[b as int];
    O::below_irreflexive(x);
    O::below_transitive(x, y, x);
}

/// Merges two neighbouring parts.
fn merge<K: SortKey>(
    keys: &Vec<K>,
    left: &Vec<usize>,
    right: &Vec<usize>,
    lo: usize,
    mid: usize,
    hi: usize,
) -> (out: Vec<usize>)
    requires
        lo <= mid <= hi <= keys.len(),
        covers(models(keys@), left@, lo as int, mid as int),
        covers(models(keys@), right@, mid as int, hi as int),
    ensures
        covers(models(keys@), out@, lo as int, hi as int),
{
    let mut out: Vec<usize> = Vec::new();
    let mut i: usize = 0;
    let mut j: usize = 0;
    while i < left.len() || j < right.len()
        invariant
            lo <= mid <= hi <= keys.len(),
            covers(models(keys@), left@, lo as int, mid as int),
            covers(models(keys@), right@, mid as int, hi as int),
            i <= left@.len(),
            j <= right@.len(),
            out@.len() == i + j,
            ascending(models(keys@), out@),
            forall|k: int| 0 <= k < out@.len() ==> lo <= #[trigger] out@[k] < hi,
            forall|k: int, l: int|
                0 <= k < out@.len() && i <= l < left@.len() ==> before(models(keys@), #[trigger] out@[k], #[trigger] left@[l]),
            forall|k: int, l: int|
                0 <= k < out@.len() && j <= l < right@.len() ==> before(models(keys@), #[trigger] out@[k], #[trigger] right@[l]),
            forall|l: int| 0 <= l < i ==> out@.contains(#[trigger] left@[l]),
            forall|l: int| 0 <= l < j ==> out@.contains(#[trigger] right@[l]),
        decreases left@.len() - i + right@.len() - j,
    {
        let ghost was = out@;
        let take_left: bool = if i == left.len() {
            false
        } else if j == right.len() {
            true
        } else {
            !keys[right[j]].is_below(&keys[left[i]])
        };
        let next: usize = if take_left {
            left[i]
        } else {
            right[j]
        };
        out.push(next);
        proof {
            assert forall|l: int| 0 <= l < i implies out@.contains(#[trigger] left@[l]) by {
                let p = choose|p: int| 0 <= p < was.len() && was[p] == left@[l];
                assert(out@[p] == left@[l]);
            }
            assert forall|l: int| 0 <= l < j implies out@.contains(#[trigger] right@[l]) by {
                let p = choose|p: int| 0 <= p < was.len() && was[p] == right@[l];
                assert(out@[p] == right@[l]);
            }
            assert(out@[was.len() as int] == next);
            if i < left@.len() {
                assert(lo <= left@[i as int] < mid);
            }
            if j < right@.len() {
                assert(mid <= right@[j as int] < hi);
            }
            if take_left {
                assert forall|l: int| j <= l < right@.len() implies before(models(keys@), next, #[trigger] right@[l]) by {
                    assert(mid <= right@[l] < hi);
                    assert(before(models(keys@), next, right@[j as int]));
                    if l > j {
                        assert(before(models(keys@), right@[j as int], right@[l]));
                        lemma_before_transitive(models(keys@), next, right@[j as int], right@[l]);
                    }
                }
            } else {
                assert forall|l: int| i <= l < left@.len() implies before(models(keys@), next, #[trigger] left@[l]) by {
                    assert(before(models(keys@), next, left@[i as int]));
                    if l > i {
                        assert(before(models(keys@), left@[i as int], left@[l]));
                        lemma_before_transitive(models(keys@), next, left@[i as int], left@[l]);
                    }
                }
            }
        }
        if take_left {
            i += 1;
        } else {
            j += 1;
        }
    }
    assert forall|k: usize| lo <= k < hi implies #[trigger] out@.contains(k) by {
        if k < mid {
            assert(left@.contains(k));
            let l = choose|l: int| 0 <= l < left@.len() && left@[l] == k;
            assert(out@.contains(left@[l]));
        } else {
            assert(right@.contains(k));
            let l = choose|l: int| 0 <= l < right@.len() && right@[l] == k;
            assert(out@.contains(right@[l]));
        }
    }
    out
}

/// Orders the positions from `lo` to `hi`.
fn order_range<K: SortKey>(keys: &Vec<K>, lo: usize, hi: usize) -> (out: Vec<usize>)
    requires
        lo <= hi <= keys.len(),
    ensures
        covers(models(keys@), out@, lo as int, hi as int),
    decreases hi - lo,
{
    if hi - lo <= 1 {
        let mut out: Vec<usize> = Vec::new();
        if lo < hi {
            out.push(lo);
            assert(out@[0] == lo);
        }
        out
    } else {
        let mid: usize = lo + (hi - lo) / 2;
        let left = order_range(keys, lo, mid);
        let right = order_range(keys, mid, hi);
        merge(keys, &left, &right, lo, mid, hi)
    }
}

/// Lists the positions of `keys` by key, equal keys in their given order.
pub fn order_by_key<K: SortKey>(keys: &Vec<K>) -> (order: Vec<usize>)
    ensures
        is_order(models(keys@), order@),
        order@ == order_of(models(keys@)),
{
    let order = order_range(keys, 0, keys.len());
    proof {
        assert(is_order(models(keys@), order@));
        order_is_unique(models(keys@), order@, order_of(models(keys@)));
    }
    order
}

/// There is only one order of given keys.
pub proof fn order_is_unique<O: Order>(keys: Seq<O>, a: Seq<usize>, b: Seq<usize>)
    requires
        is_order(keys, a),
        is_order(keys, b),
    ensures
        a == b,
{
    assert forall|i: int| 0 <= i < a.len() implies a[i] == b[i] by {
        lemma_same_at(keys, a, b, i);
    }
    assert(a =~= b);
}

proof fn lemma_same_at<O: Order>(keys: Seq<O>, a: Seq<usize>, b: Seq<usize>, i: int)
    requires
        is_order(keys, a),
        is_order(keys, b),
        0 <= i < a.len(),
    ensures
        a[i] == b[i],
    decreases i,
{
    if a[i] != b[i] {
        assert(b.contains(a[i]));
        let j = choose|j: int| 0 <= j < b.len() && b[j] == a[i];
        assert(a.contains(b[i]));
        let k = choose|k: int| 0 <= k < a.len() && a[k] == b[i];
        if j < i {
            lemma_same_at(keys, a, b, j);
            assert(before(keys, a[j], a[i]));
            lemma_before_asymmetric(keys, a[j], a[i]);
        } else if k < i {
            lemma_same_at(keys, a, b, k);
            assert(before(keys, b[k], b[i]));
            lemma_before_asymmetric(keys, b[k], b[i]);
        } else {
            assert(before(keys, b[i], b[j]));
            assert(before(keys, a[i], a[k]));
            lemma_before_asymmetric(keys, b[i], b[j]);
        }
    }
}

/// There is an order of any keys.
pub proof fn order_exists<O: Order>(keys: Seq<O>)
    requires
        keys.len() <= usize::MAX,
    ensures
        exists|order: Seq<usize>| is_order(keys, order),
    decreases keys.len(),
{
    if keys.len() == 0 {
        assert(is_order(keys, Seq::<usize>::empty()));
    } else {
        let shorter = keys.drop_last();
        order_exists(shorter);
        let order = choose|order: Seq<usize>| is_order(shorter, order);
        let last = (keys.len() - 1) as usize;
        let p = insertion_place(keys, order, last, 0);
        lemma_insertion_place(keys, order, last, 0);
        let grown = order.insert(p, last);
        assert forall|i: int| 0 <= i < grown.len() implies (#[trigger] grown[i]) < keys.len() by {
            if i < p {
                assert(grown[i] == order[i]);
            } else if i > p {
                assert(grown[i] == order[i - 1]);
            }
        }
        assert forall|k: usize| k < keys.len() implies #[trigger] grown.contains(k) by {
            if k < last {
                assert(order.contains(k));
                let j = choose|j: int| 0 <= j < order.len() && order[j] == k;
                if j < p {
                    assert(grown[j] == k);
                } else {
                    assert(grown[j + 1] == k);
                }
            } else {
                assert(grown[p] == k);
            }
        }
        assert forall|i: int, j: int| 0 <= i < j < grown.len() implies before(
            keys,
            #[trigger] grown[i],
            #[trigger] grown[j],
        ) by {
            let a = if i < p {
                i
            } else {
                i - 1
            };
            let b = if j < p {
                j
            } else {
                j - 1
            };
            if i != p && j != p {
                assert(order[a] < shorter.len() && order[b] < shorter.len());
                assert(before(shorter, order[a], order[b]));
            } else if i == p {
                assert(order[b] < shorter.len());
                assert(order[p] < shorter.len());
                assert(before(keys, last, order[p]));
                if b > p {
                    assert(before(shorter, order[p], order[b]));
                    lemma_before_transitive(keys, last, order[p], order[b]);
                }
            } else {
                assert(order[a] < shorter.len());
            }
        }
        assert(is_order(keys, grown));
    }
}

/// The first place from `from` on at which `last` comes below what stands there.
spec fn insertion_place<O: Order>(keys: Seq<O>, order: Seq<usize>, last: usize, from: int) -> int
    decreases order.len() - from,
{
    if from >= order.len() || keys[last as int].below(keys[order[from] as int]) {
        from
    } else {
        insertion_place(keys, order, last, from + 1)
    }
}

proof fn lemma_insertion_place<O: Order>(keys: Seq<O>, order: Seq<usize>, last: usize, from: int)
    requires
        0 <= from <= order.len(),
    ensures
        ({
            let p = insertion_place(keys, order, last, from);
            &&& from <= p <= order.len()
            &&& forall|i: int| from <= i < p ==> !keys[last as int].below(keys[(#[trigger] order[i]) as int])
            &&& p < order.len() ==> keys[last as int].below(keys[order[p] as int])
        }),
    decreases order.len() - from,
{
    if !(from >= order.len() || keys[last as int].below(keys[order[from] as int])) {
        lemma_insertion_place(keys, order, last, from + 1);
    }
}

/// An order lists no position twice.
pub proof fn order_lists_once<O: Order>(keys: Seq<O>, order: Seq<usize>, i: int, j: int)
    requires
        is_order(keys, order),
        0 <= i < order.len(),
        0 <= j < order.len(),
        i != j,
    ensures
        order[i] != order[j],
{
    let (a, b) = if i < j {
        (i, j)
    } else {
        (j, i)
    };
    assert(before(keys, order[a], order[b]));
    lemma_before_asymmetric(keys, order[a], order[b]);
}

/// Every place of `order` names another item.
pub open spec fn is_arrangement(n: int, order: Seq<usize>) -> bool {
    &&& order.len() == n
    &&& forall|i: int| 0 <= i < n ==> (#[trigger] order[i]) < n
    &&& forall|i: int, j: int| 0 <= i < j < n ==> (#[trigger] order[i]) != (#[trigger] order[j])
}

/// The items in the order given.
pub open spec fn arranged<T>(items: Seq<T>, order: Seq<usize>) -> Seq<T> {
    Seq::new(items.len(), |i: int| items[order[i] as int])
}

/// Puts the items into the order given.
pub fn arrange<T>(items: Vec<T>, order: &Vec<usize>) -> (out: Vec<T>)
    requires
        is_arrangement(items@.len() as int, order@),
    ensures
        out@ == arranged(items@, order@),
{
    let n: usize = items.len();
    let ghost all = items@;
    let mut left = items;
    let mut slots: Vec<Option<T>> = Vec::new();
    let mut p: usize = 0;
    while p < n
        invariant
            p <= n,
            n == all.len(),
            left@ == all.take(n - p),
            slots@.len() == p,
            forall|k: int| 0 <= k < p ==> (#[trigger] slots@[k]) == Some(all[n - 1 - k]),
        decreases n - p,
    {
        let top = left.pop();
        slots.push(top);
        assert(left@ =~= all.take(n - p - 1));
        p += 1;
    }
    let mut out: Vec<T> = Vec::new();
    let mut i: usize = 0;
    while i < n
        invariant
            i <= n,
            n == all.len(),
            is_arrangement(n as int, order@),
            slots@.len() == n,
            forall|j: int| i <= j < n ==> (#[trigger] slots@[n - 1 - order@[j]]) == Some(all[order@[j] as int]),
            out@ == arranged(all, order@).take(i as int),
        decreases n - i,
    {
        let at: usize = n - 1 - order[i];
        assert(slots@[n - 1 - order@[i as int]] == Some(all[order@[i as int] as int]));
        let ghost was = slots@;
        let slot = &mut slots[at];
        let item = slot.take();
        if let Some(x) = item {
            out.push(x);
        }
        assert(out@ =~= arranged(all, order@).take(i + 1));
        assert forall|j: int| i + 1 <= j < n implies (#[trigger] slots@[n - 1 - order@[j]]) == Some(
            all[order@[j] as int],
        ) by {
            assert(order@[i as int] != order@[j]);
            assert(was[n - 1 - order@[j]] == Some(all[order@[j] as int]));
        }
        i += 1;
    }
    assert(out@ =~= arranged(all, order@));
    out
}

/// An order is an arrangement.
pub proof fn order_is_arrangement<O: Order>(keys: Seq<O>, order: Seq<usize>)
    requires
        is_order(keys, order),
    ensures
        is_arrangement(keys.len() as int, order),
{
    assert forall|i: int, j: int| 0 <= i < j < keys.len() implies (#[trigger] order[i]) != (#[trigger] order[j]) by {
        order_lists_once(keys, order, i, j);
    }
}

/// As many items are picked as there are places whose item is picked.
pub proof fn picking_counts_places<T>(items: Seq<T>, pick: spec_fn(T) -> bool)
    ensures
        Set::new(|i: int| 0 <= i < items.len() && pick(items[i])).finite(),
        Set::new(|i: int| 0 <= i < items.len() && pick(items[i])).len() == items.filter(pick).len(),
    decreases items.len(),
{
    reveal(Seq::filter);
    let places = Set::new(|i: int| 0 <= i < items.len() && pick(items[i]));
    if items.len() == 0 {
        assert(places =~= Set::empty());
    } else {
        let n = items.len() - 1;
        let shorter = items.drop_last();
        picking_counts_places(shorter, pick);
        let fewer = Set::new(|i: int| 0 <= i < shorter.len() && pick(shorter[i]));
        if pick(items.last()) {
            assert(places =~= fewer.insert(n));
        } else {
            assert(places =~= fewer);
        }
    }
}

/// Every place is named by an arrangement.
proof fn lemma_arrangement_names_all(n: int, order: Seq<usize>, at: int)
    requires
        is_arrangement(n, order),
        0 <= at < n,
    ensures
        exists|i: int| 0 <= i < n && #[trigger] order[i] == at,
{
    let name = |i: int| order[i] as int;
    let all = set_int_range(0, n);
    let named = all.map(name);
    lemma_int_range(0, n);
    assert(injective_on(name, all));
    lemma_map_size(all, named, name);
    assert(named.subset_of(all));
    lemma_subset_equality(named, all);
    assert(named.contains(at));
    let i = choose|i: int| all.contains(i) && name(i) == at;
    assert(0 <= i < n && order[i] == at);
}

/// Arranging items neither adds nor drops any: of the arranged items as many are picked as of
/// the given ones, whatever they are picked by.
pub proof fn arranging_keeps_picks<T>(items: Seq<T>, order: Seq<usize>, pick: spec_fn(T) -> bool)
    requires
        is_arrangement(items.len() as int, order),
    ensures
        arranged(items, order).filter(pick).len() == items.filter(pick).len(),
{
    let out = arranged(items, order);
    let name = |i: int| order[i] as int;
    let from = Set::new(|i: int| 0 <= i < out.len() && pick(out[i]));
    let to = Set::new(|i: int| 0 <= i < items.len() && pick(items[i]));
    picking_counts_places(out, pick);
    picking_counts_places(items, pick);
    assert(injective_on(name, from));
    assert forall|at: int| to.contains(at) implies #[trigger] from.map(name).contains(at) by {
        lemma_arrangement_names_all(items.len() as int, order, at);
        let i = choose|i: int| 0 <= i < items.len() && #[trigger] order[i] == at;
        assert(from.contains(i) && name(i) == at);
    }
    assert(from.map(name) =~= to);
    lemma_map_size(from, to, name);
}

proof fn lemma_copies_counted<T>(items: Seq<T>, x: T)
    ensures
        items.to_multiset().count(x) == items.filter(|y: T| y == x).len(),
    decreases items.len(),
{
    reveal(Seq::filter);
    if items.len() == 0 {
        items.to_multiset_ensures();
    } else {
        lemma_copies_counted(items.drop_last(), x);
        to_multiset_build(items.drop_last(), items.last());
        assert(items.drop_last().push(items.last()) =~= items);
    }
}

/// Arranging items keeps each as often as it was given.
pub proof fn arranging_keeps_items<T>(items: Seq<T>, order: Seq<usize>)
    requires
        is_arrangement(items.len() as int, order),
    ensures
        arranged(items, order).to_multiset() == items.to_multiset(),
{
    let out = arranged(items, order);
    assert forall|x: T| out.to_multiset().count(x) == #[trigger] items.to_multiset().count(x) by {
        lemma_copies_counted(out, x);
        lemma_copies_counted(items, x);
        arranging_keeps_picks(items, order, |y: T| y == x);
    }
    assert(out.to_multiset() =~= items.to_multiset());
}

/// In an order of numbers the smaller comes first, and of equal ones the one given first.
pub proof fn order_of_numbers(keys: Seq<i64>, order: Seq<usize>, i: int, j: int)
    requires
        is_order(keys, order),
        0 <= i < j < keys.len(),
    ensures
        order.len() == keys.len(),
        order[i] < keys.len(),
        order[j] < keys.len(),
        keys[order[i] as int] < keys[order[j] as int] || (keys[order[i] as int] == keys[order[j] as int] && order[i]
            < order[j]),
{
    assert(before(keys, order[i], order[j]));
}

} // verus!

//! Stable sorting: the order in which a stable sort places the items of a list,
//! for any key whose order is a strict weak order.
use vstd::prelude::*;

verus! {

/// An item ordered by a strict weak order (std's `sort_by` with a comparator
/// that is consistent with such an order).
pub trait SortKey: Sized {
    /// `self` sorts strictly before `other`.
    spec fn key_lt(self, other: Self) -> bool;

    proof fn lemma_irreflexive(a: Self)
        ensures
            !a.key_lt(a),
    ;

    proof fn lemma_transitive(a: Self, b: Self, c: Self)
        requires
            a.key_lt(b),
            b.key_lt(c),
        ensures
            a.key_lt(c),
    ;

    /// Items that are unordered with respect to each other form classes.
    proof fn lemma_tie_transitive(a: Self, b: Self, c: Self)
        requires
            !a.key_lt(b) && !b.key_lt(a),
            !b.key_lt(c) && !c.key_lt(b),
        ensures
            !a.key_lt(c) && !c.key_lt(a),
    ;

    fn sorts_before(&self, other: &Self) -> (r: bool)
        ensures
            r == self.key_lt(*other),
    ;
}

/// In a stable sort of `keys`, the item at `i` comes before the item at `j`.
pub open spec fn stable_before<K: SortKey>(keys: Seq<K>, i: int, j: int) -> bool {
    keys[i].key_lt(keys[j]) || (!keys[j].key_lt(keys[i]) && i < j)
}

/// `order` lists each position of `keys` exactly once, in stable sorted order.
pub open spec fn is_stable_order<K: SortKey>(keys: Seq<K>, order: Seq<usize>) -> bool {
    &&& order.len() == keys.len()
    &&& forall|a: int| 0 <= a < order.len() ==> (#[trigger] order[a]) < keys.len()
    &&& forall|a: int, b: int| 0 <= a < b < order.len() ==> order[a] != order[b]
    &&& forall|a: int, b: int|
        0 <= a < b < order.len() ==> stable_before(keys, #[trigger] order[a] as int, #[trigger] order[b] as int)
}

proof fn lemma_before_transitive<K: SortKey>(keys: Seq<K>, i: int, j: int, k: int)
    requires
        0 <= i < keys.len(),
        0 <= j < keys.len(),
        0 <= k < keys.len(),
        stable_before(keys, i, j),
        stable_before(keys, j, k),
    ensures
        stable_before(keys, i, k),
{
    let a = keys[i];
    let b = keys[j];
    let c = keys[k];
    if a.key_lt(b) && b.key_lt(c) {
        K::lemma_transitive(a, b, c);
    } else if a.key_lt(b) {
        // b and c tie
        if !a.key_lt(c) {
            if c.key_lt(a) {
                K::lemma_transitive(c, a, b);
            } else {
                K::lemma_tie_transitive(b, c, a);
            }
        }
    } else if b.key_lt(c) {
        // a and b tie
        if !a.key_lt(c) {
            if c.key_lt(a) {
                K::lemma_transitive(b, c, a);
            } else {
                K::lemma_tie_transitive(c, a, b);
            }
        }
    } else {
        K::lemma_tie_transitive(a, b, c);
    }
}

/// The positions of `keys` in the order a stable sort places them.
pub fn stable_order<K: SortKey>(keys: &Vec<K>) -> (order: Vec<usize>)
    ensures
        is_stable_order(keys@, order@),
{
    let mut order: Vec<usize> = Vec::new();
    let mut i: usize = 0;
    while i < keys.len()
        invariant
            0 <= i <= keys.len(),
            order@.len() == i,
            forall|a: int| 0 <= a < order@.len() ==> (#[trigger] order@[a]) < i,
            forall|a: int, b: int| 0 <= a < b < order@.len() ==> order@[a] != order@[b],
            forall|a: int, b: int|
                0 <= a < b < order@.len() ==> stable_before(
                    keys@,
                    #[trigger] order@[a] as int,
                    #[trigger] order@[b] as int,
                ),
        decreases keys.len() - i,
    {
        let mut pos: usize = 0;
        while pos < order.len() && !keys[i].sorts_before(&keys[order[pos]])
            invariant
                0 <= i < keys.len(),
                0 <= pos <= order@.len(),
                order@.len() == i,
                forall|a: int| 0 <= a < order@.len() ==> (#[trigger] order@[a]) < i,
                forall|a: int| 0 <= a < pos ==> stable_before(keys@, #[trigger] order@[a] as int, i as int),
            decreases order@.len() - pos,
        {
            proof {
                let p = order@[pos as int] as int;
                assert(p < i);
                if !keys@[p].key_lt(keys@[i as int]) {
                    assert(!keys@[i as int].key_lt(keys@[p]));
                }
            }
            pos = pos + 1;
        }
        let ghost old_order = order@;
        proof {
            if pos < old_order.len() {
                assert(keys@[i as int].key_lt(keys@[old_order[pos as int] as int]));
                assert(stable_before(keys@, i as int, old_order[pos as int] as int));
            }
        }
        order.insert(pos, i);
        proof {
            assert(order@ == old_order.insert(pos as int, i));
            assert forall|a: int| 0 <= a < order@.len() implies (#[trigger] order@[a]) < i + 1 by {
                if a < pos {
                    assert(order@[a] == old_order[a]);
                } else if a > pos {
                    assert(order@[a] == old_order[a - 1]);
                }
            }
            assert forall|a: int, b: int| 0 <= a < b < order@.len() implies order@[a] != order@[b] by {
                if a < pos && b < pos {
                    assert(order@[a] == old_order[a] && order@[b] == old_order[b]);
                } else if a < pos && b == pos {
                    assert(order@[a] == old_order[a]);
                } else if a < pos && b > pos {
                    assert(order@[a] == old_order[a] && order@[b] == old_order[b - 1]);
                } else if a == pos {
                    assert(order@[b] == old_order[b - 1]);
                } else {
                    assert(order@[a] == old_order[a - 1] && order@[b] == old_order[b - 1]);
                }
            }
            assert forall|a: int, b: int| 0 <= a < b < order@.len() implies stable_before(
                keys@,
                #[trigger] order@[a] as int,
                #[trigger] order@[b] as int,
            ) by {
                if a < pos && b < pos {
                    assert(order@[a] == old_order[a] && order@[b] == old_order[b]);
                } else if a < pos && b == pos {
                    assert(order@[a] == old_order[a]);
                } else if a < pos && b > pos {
                    assert(order@[a] == old_order[a] && order@[b] == old_order[b - 1]);
                    let x = old_order[a] as int;
                    let y = old_order[b - 1] as int;
                    assert(stable_before(keys@, x, y));
                } else if a == pos {
                    assert(order@[b] == old_order[b - 1]);
                    let y = old_order[b - 1] as int;
                    if b - 1 > pos {
                        let z = old_order[pos as int] as int;
                        assert(stable_before(keys@, z, y));
                        lemma_before_transitive(keys@, i as int, z, y);
                    }
                } else {
                    assert(order@[a] == old_order[a - 1] && order@[b] == old_order[b - 1]);
                }
            }
        }
        i = i + 1;
    }
    order
}

/// A list of distinct positions below `n`, `n` long, names every position below `n`.
proof fn lemma_order_covers(order: Seq<usize>, n: int, x: int)
    requires
        order.len() == n,
        forall|a: int| 0 <= a < order.len() ==> (#[trigger] order[a]) < n,
        forall|a: int, b: int| 0 <= a < b < order.len() ==> order[a] != order[b],
        0 <= x < n,
    ensures
        exists|b: int| 0 <= b < n && order[b] == x,
{
    let s = order.map_values(|u: usize| u as int);
    assert forall|i: int, j: int| (0 <= i < s.len() && 0 <= j < s.len() && i != j) implies s[i] != s[j] by {
        if i < j {
            assert(order[i] != order[j]);
        } else {
            assert(order[j] != order[i]);
        }
    }
    assert(s.no_duplicates());
    s.unique_seq_to_set();
    vstd::set_lib::lemma_int_range(0, n);
    assert(s.to_set().subset_of(vstd::set_lib::set_int_range(0, n))) by {
        assert forall|v: int| s.to_set().contains(v) implies vstd::set_lib::set_int_range(0, n).contains(v) by {
            let i = choose|i: int| 0 <= i < s.len() && s[i] == v;
            assert(order[i] < n);
        }
    }
    vstd::set_lib::lemma_subset_equality(s.to_set(), vstd::set_lib::set_int_range(0, n));
    assert(vstd::set_lib::set_int_range(0, n).contains(x));
    assert(s.to_set().contains(x));
    let b = choose|b: int| 0 <= b < s.len() && s[b] == x;
    assert(order[b] == x);
}

proof fn lemma_before_asymmetric<K: SortKey>(keys: Seq<K>, x: int, y: int)
    requires
        x != y,
        stable_before(keys, x, y),
    ensures
        !stable_before(keys, y, x),
{
    if keys[x].key_lt(keys[y]) && keys[y].key_lt(keys[x]) {
        K::lemma_transitive(keys[x], keys[y], keys[x]);
        K::lemma_irreflexive(keys[x]);
    }
}

/// A stable sort has one outcome: two stable orders of the same keys are equal.
pub proof fn lemma_stable_order_unique<K: SortKey>(keys: Seq<K>, o1: Seq<usize>, o2: Seq<usize>)
    requires
        is_stable_order(keys, o1),
        is_stable_order(keys, o2),
    ensures
        o1 == o2,
{
    let n = keys.len() as int;
    assert forall|k: int| 0 <= k < n implies o1[k] == o2[k] by {
        lemma_stable_order_prefix(keys, o1, o2, k + 1);
    }
    assert(o1 =~= o2);
}

proof fn lemma_stable_order_prefix<K: SortKey>(keys: Seq<K>, o1: Seq<usize>, o2: Seq<usize>, m: int)
    requires
        is_stable_order(keys, o1),
        is_stable_order(keys, o2),
        0 <= m <= keys.len(),
    ensures
        forall|k: int| 0 <= k < m ==> o1[k] == o2[k],
    decreases m,
{
    if m > 0 {
        lemma_stable_order_prefix(keys, o1, o2, m - 1);
        let k = m - 1;
        let n = keys.len() as int;
        let x = o1[k] as int;
        let y = o2[k] as int;
        if x != y {
            lemma_order_covers(o1, n, y);
            let b = choose|b: int| 0 <= b < n && o1[b] == y;
            if b < k {
                assert(o2[b] == o1[b]);
                assert(o2[b] == o2[k]);
            }
            assert(b > k);
            assert(stable_before(keys, o1[k] as int, o1[b] as int));
            lemma_order_covers(o2, n, x);
            let c = choose|c: int| 0 <= c < n && o2[c] == x;
            if c < k {
                assert(o1[c] == o2[c]);
                assert(o1[c] == o1[k]);
            }
            assert(c > k);
            assert(stable_before(keys, o2[k] as int, o2[c] as int));
            lemma_before_asymmetric(keys, x, y);
        }
    }
}

} // verus!

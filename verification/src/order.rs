//! Stable sorting, as an order of indices.

use crate::util::Timestamp;
use vstd::prelude::*;

verus! {

/// Keys that can be sorted: a total preorder, and how to decide it.
pub trait Ranked: Sized {
    /// `self` may stand before `other`.
    spec fn at_most(self, other: Self) -> bool;

    /// Whether `self` may stand before `other`.
    fn is_at_most(&self, other: &Self) -> (r: bool)
        ensures
            r == self.at_most(*other),
    ;

    proof fn total(a: Self, b: Self)
        ensures
            a.at_most(b) || b.at_most(a),
    ;

    proof fn transitive(a: Self, b: Self, c: Self)
        requires
            a.at_most(b),
            b.at_most(c),
        ensures
            a.at_most(c),
    ;
}

impl Ranked for Timestamp {
    open spec fn at_most(self, other: Self) -> bool {
        self.ns() <= other.ns()
    }

    fn is_at_most(&self, other: &Self) -> (r: bool) {
        self.nanos() <= other.nanos()
    }

    proof fn total(a: Self, b: Self) {
    }

    proof fn transitive(a: Self, b: Self, c: Self) {
    }
}

/// `a` comes before `b` byte by byte, or is the start of it, or equals it.
pub open spec fn bytes_at_most(a: Seq<u8>, b: Seq<u8>) -> bool
    decreases a.len(),
{
    if a.len() == 0 {
        true
    } else if b.len() == 0 {
        false
    } else if a[0] != b[0] {
        a[0] < b[0]
    } else {
        bytes_at_most(a.skip(1), b.skip(1))
    }
}

proof fn lemma_bytes_total(a: Seq<u8>, b: Seq<u8>)
    ensures
        bytes_at_most(a, b) || bytes_at_most(b, a),
    decreases a.len(),
{
    if a.len() > 0 && b.len() > 0 && a[0] == b[0] {
        lemma_bytes_total(a.skip(1), b.skip(1));
    }
}

proof fn lemma_bytes_transitive(a: Seq<u8>, b: Seq<u8>, c: Seq<u8>)
    requires
        bytes_at_most(a, b),
        bytes_at_most(b, c),
    ensures
        bytes_at_most(a, c),
    decreases a.len(),
{
    if a.len() > 0 && b.len() > 0 && c.len() > 0 && a[0] == b[0] && b[0] == c[0] {
        lemma_bytes_transitive(a.skip(1), b.skip(1), c.skip(1));
    }
}

fn is_bytes_at_most(a: &[u8], b: &[u8]) -> (r: bool)
    ensures
        r == bytes_at_most(a@, b@),
{
    let mut i: usize = 0;
    assert(a@.skip(0) =~= a@);
    assert(b@.skip(0) =~= b@);
    while i < a.len() && i < b.len() && a[i] == b[i]
        invariant
            i <= a@.len(),
            i <= b@.len(),
            bytes_at_most(a@, b@) == bytes_at_most(a@.skip(i as int), b@.skip(i as int)),
        decreases a@.len() - i,
    {
        assert(a@.skip(i as int).skip(1) =~= a@.skip(i + 1));
        assert(b@.skip(i as int).skip(1) =~= b@.skip(i + 1));
        i = i + 1;
    }
    if i == a.len() {
        true
    } else if i == b.len() {
        false
    } else {
        a[i] < b[i]
    }
}

impl Ranked for Vec<u8> {
    open spec fn at_most(self, other: Self) -> bool {
        bytes_at_most(self@, other@)
    }

    fn is_at_most(&self, other: &Self) -> (r: bool) {
        is_bytes_at_most(self.as_slice(), other.as_slice())
    }

    proof fn total(a: Self, b: Self) {
        lemma_bytes_total(a@, b@);
    }

    proof fn transitive(a: Self, b: Self, c: Self) {
        lemma_bytes_transitive(a@, b@, c@);
    }
}

/// The key number `a` stands before the key number `b` in a stable sort: it is smaller, or
/// neither is and it came first.
pub open spec fn precedes<T: Ranked>(keys: Seq<T>, a: int, b: int) -> bool {
    keys[a].at_most(keys[b]) && (keys[b].at_most(keys[a]) ==> a < b)
}

/// `order` lists every index of `keys` once, the way a stable sort arranges the keys.
pub open spec fn stable_order<T: Ranked>(keys: Seq<T>, order: Seq<int>) -> bool {
    &&& order.len() == keys.len()
    &&& forall|i: int| 0 <= i < order.len() ==> 0 <= #[trigger] order[i] < keys.len()
    &&& forall|i: int, j: int|
        0 <= i < j < order.len() ==> precedes(keys, #[trigger] order[i], #[trigger] order[j])
}

/// The stable order of the keys.
pub open spec fn order_of<T: Ranked>(keys: Seq<T>) -> Seq<int> {
    choose|order: Seq<int>| stable_order(keys, order)
}

/// Indices as integers.
pub open spec fn indices(order: Seq<usize>) -> Seq<int> {
    order.map_values(|i: usize| i as int)
}

/// The part of [`stable_order`] that holds of a sorted beginning: the first `n` indices.
pub open spec fn sorted_prefix<T: Ranked>(keys: Seq<T>, order: Seq<usize>, n: int) -> bool {
    &&& order.len() == n
    &&& forall|i: int| 0 <= i < n ==> 0 <= #[trigger] order[i] < n
    &&& forall|i: int, j: int|
        0 <= i < j < n ==> precedes(keys, #[trigger] order[i] as int, #[trigger] order[j] as int)
}

/// The order in which a stable sort arranges the keys.
pub fn sorted_order<T: Ranked>(keys: &Vec<T>) -> (r: Vec<usize>)
    ensures
        stable_order(keys@, indices(r@)),
        indices(r@) == order_of(keys@),
{
    let mut order: Vec<usize> = Vec::new();
    let mut n: usize = 0;
    while n < keys.len()
        invariant
            n <= keys@.len(),
            sorted_prefix(keys@, order@, n as int),
        decreases keys@.len() - n,
    {
        let mut at: usize = n;
        while at > 0 && !keys[order[at - 1]].is_at_most(&keys[n])
            invariant
                at <= n < keys@.len(),
                sorted_prefix(keys@, order@, n as int),
                forall|k: int|
                    at <= k < n ==> !keys@[#[trigger] order@[k] as int].at_most(keys@[n as int]),
            decreases at,
        {
            at = at - 1;
        }
        let ghost before = order@;
        order.insert(at, n);
        proof {
            assert(order@ =~= before.insert(at as int, n));
            assert forall|i: int, j: int| 0 <= i < j < n + 1 implies precedes(
                keys@,
                #[trigger] order@[i] as int,
                #[trigger] order@[j] as int,
            ) by {
                let pi = if i < at {
                    i
                } else {
                    i - 1
                };
                let pj = if j < at {
                    j
                } else {
                    j - 1
                };
                if i == at {
                    let k = before[pj] as int;
                    assert(!keys@[k].at_most(keys@[n as int]));
                    T::total(keys@[k], keys@[n as int]);
                } else if j == at {
                    let k = before[pi] as int;
                    if i < at - 1 {
                        let l = before[at - 1] as int;
                        assert(precedes(keys@, before[i] as int, before[at - 1] as int));
                        T::transitive(keys@[k], keys@[l], keys@[n as int]);
                    }
                } else {
                    assert(precedes(keys@, before[pi] as int, before[pj] as int));
                }
            }
        }
        n = n + 1;
    }
    proof {
        let order_ints = indices(order@);
        assert forall|i: int, j: int| 0 <= i < j < order_ints.len() implies precedes(
            keys@,
            #[trigger] order_ints[i],
            #[trigger] order_ints[j],
        ) by {
            assert(precedes(keys@, order@[i] as int, order@[j] as int));
        }
        law_stable_order_is_unique(keys@, order_ints, order_of(keys@));
    }
    order
}

/// Bytes come before other bytes like words in a dictionary: where they first differ theirs is
/// the lesser, or they are the beginning of the others.
pub proof fn law_bytes_are_ordered_like_words(a: Seq<u8>, b: Seq<u8>)
    ensures
        bytes_at_most(a, b) <==> (a.len() <= b.len() && forall|k: int|
            0 <= k < a.len() ==> #[trigger] a[k] == b[k]) || exists|i: int|
            0 <= i < a.len() && 0 <= i < b.len() && #[trigger] a[i] < b[i] && forall|k: int|
                0 <= k < i ==> #[trigger] a[k] == b[k],
    decreases a.len(),
{
    if a.len() > 0 && b.len() > 0 && a[0] == b[0] {
        let x = a.skip(1);
        let y = b.skip(1);
        law_bytes_are_ordered_like_words(x, y);
        if x.len() <= y.len() && forall|k: int| 0 <= k < x.len() ==> #[trigger] x[k] == y[k] {
            assert forall|k: int| 0 <= k < a.len() implies #[trigger] a[k] == b[k] by {
                if k > 0 {
                    assert(x[k - 1] == y[k - 1]);
                }
            }
        } else if bytes_at_most(x, y) {
            let i = choose|i: int|
                0 <= i < x.len() && 0 <= i < y.len() && #[trigger] x[i] < y[i] && forall|k: int|
                    0 <= k < i ==> #[trigger] x[k] == y[k];
            assert(a[i + 1] < b[i + 1]);
            assert forall|k: int| 0 <= k < i + 1 implies #[trigger] a[k] == b[k] by {
                if k > 0 {
                    assert(x[k - 1] == y[k - 1]);
                }
            }
        }
        if a.len() <= b.len() && forall|k: int| 0 <= k < a.len() ==> #[trigger] a[k] == b[k] {
            assert forall|k: int| 0 <= k < x.len() implies #[trigger] x[k] == y[k] by {
                assert(a[k + 1] == b[k + 1]);
            }
        }
        if exists|i: int|
            0 <= i < a.len() && 0 <= i < b.len() && #[trigger] a[i] < b[i] && forall|k: int|
                0 <= k < i ==> #[trigger] a[k] == b[k] {
            let i = choose|i: int|
                0 <= i < a.len() && 0 <= i < b.len() && #[trigger] a[i] < b[i] && forall|k: int|
                    0 <= k < i ==> #[trigger] a[k] == b[k];
            assert(x[i - 1] < y[i - 1]);
            assert forall|k: int| 0 <= k < i - 1 implies #[trigger] x[k] == y[k] by {
                assert(a[k + 1] == b[k + 1]);
            }
        }
    } else if a.len() > 0 && b.len() > 0 {
        if a[0] < b[0] {
            assert(a[0] < b[0] && forall|k: int| 0 <= k < 0 ==> #[trigger] a[k] == b[k]);
        }
        assert(a[0] != b[0]);
    }
}

/// Byte strings are ranked by their bytes, and times by their nanoseconds.
pub proof fn law_ranks_are_what_they_seem(a: Vec<u8>, b: Vec<u8>, s: Timestamp, t: Timestamp)
    ensures
        a.at_most(b) <==> bytes_at_most(a@, b@),
        s.at_most(t) <==> s.secs * 1_000_000_000 + s.nsecs <= t.secs * 1_000_000_000 + t.nsecs,
{
}

/// The order of keys names each of them once, lesser ones first, and equal ones in the order in
/// which they came.
pub proof fn law_order_sorts<T: Ranked>(keys: Seq<T>)
    ensures
        order_of(keys).len() == keys.len(),
        forall|i: int|
            0 <= i < keys.len() ==> 0 <= #[trigger] order_of(keys)[i] < keys.len(),
        forall|i: int, j: int|
            0 <= i < j < keys.len() ==> keys[#[trigger] order_of(keys)[i]].at_most(
                keys[#[trigger] order_of(keys)[j]],
            ),
        forall|i: int, j: int|
            0 <= i < j < keys.len() && keys[#[trigger] order_of(keys)[j]].at_most(
                keys[#[trigger] order_of(keys)[i]],
            ) ==> order_of(keys)[i] < order_of(keys)[j],
        forall|i: int, j: int|
            0 <= i < j < keys.len() ==> #[trigger] order_of(keys)[i] != #[trigger] order_of(
                keys,
            )[j],
{
    let order = order_of(keys);
    law_stable_order_exists(keys);
    assert forall|i: int, j: int| 0 <= i < j < keys.len() implies precedes(
        keys,
        #[trigger] order[i],
        #[trigger] order[j],
    ) && order[i] != order[j] by {
        law_stable_order_has_no_duplicates(keys, order, i, j);
    }
}

/// A stable order names no index twice.
pub proof fn law_stable_order_has_no_duplicates<T: Ranked>(
    keys: Seq<T>,
    order: Seq<int>,
    i: int,
    j: int,
)
    requires
        stable_order(keys, order),
        0 <= i < j < order.len(),
    ensures
        order[i] != order[j],
{
    assert(precedes(keys, order[i], order[j]));
    T::total(keys[order[i]], keys[order[i]]);
}

/// A stable order names every index of the keys.
pub proof fn law_stable_order_is_complete<T: Ranked>(keys: Seq<T>, order: Seq<int>, index: int)
    requires
        stable_order(keys, order),
        0 <= index < keys.len(),
    ensures
        order.contains(index),
{
    assert(order.no_duplicates()) by {
        assert forall|i: int, j: int| 0 <= i < order.len() && 0 <= j < order.len() && i
            != j implies order[i] != order[j] by {
            if i < j {
                law_stable_order_has_no_duplicates(keys, order, i, j);
            } else {
                law_stable_order_has_no_duplicates(keys, order, j, i);
            }
        }
    }
    order.unique_seq_to_set();
    let all = vstd::set_lib::set_int_range(0, keys.len() as int);
    vstd::set_lib::lemma_int_range(0, keys.len() as int);
    assert(order.to_set().subset_of(all)) by {
        assert forall|x: int| order.to_set().contains(x) implies all.contains(x) by {
            let i = choose|i: int| 0 <= i < order.len() && order[i] == x;
            assert(0 <= order[i] < keys.len());
        }
    }
    vstd::set_lib::lemma_subset_equality(order.to_set(), all);
    assert(all.contains(index));
}

/// There is only one stable order of given keys.
pub proof fn law_stable_order_is_unique<T: Ranked>(keys: Seq<T>, a: Seq<int>, b: Seq<int>)
    requires
        stable_order(keys, a),
        stable_order(keys, b),
    ensures
        a == b,
{
    assert forall|k: int| 0 <= k < a.len() implies a[k] == b[k] by {
        lemma_same_at(keys, a, b, k);
    }
    assert(a =~= b);
}

proof fn lemma_same_at<T: Ranked>(keys: Seq<T>, a: Seq<int>, b: Seq<int>, k: int)
    requires
        stable_order(keys, a),
        stable_order(keys, b),
        0 <= k < a.len(),
    ensures
        a[k] == b[k],
    decreases k,
{
    assert forall|i: int| 0 <= i < k implies a[i] == b[i] by {
        lemma_same_at(keys, a, b, i);
    }
    if a[k] != b[k] {
        law_stable_order_is_complete(keys, b, a[k]);
        law_stable_order_is_complete(keys, a, b[k]);
        let i = choose|i: int| 0 <= i < b.len() && b[i] == a[k];
        let j = choose|j: int| 0 <= j < a.len() && a[j] == b[k];
        T::total(keys[a[k]], keys[a[k]]);
        T::total(keys[b[k]], keys[b[k]]);
        if i < k {
            assert(precedes(keys, a[i], a[k]));
        }
        if j < k {
            assert(precedes(keys, b[j], b[k]));
        }
        assert(precedes(keys, b[k], b[i]));
        assert(precedes(keys, a[k], a[j]));
    }
}

/// Keys can always be arranged in a stable order.
pub proof fn law_stable_order_exists<T: Ranked>(keys: Seq<T>)
    ensures
        stable_order(keys, order_of(keys)),
    decreases keys.len(),
{
    let n = keys.len() as int;
    if n == 0 {
        assert(stable_order(keys, seq![]));
    } else {
        let init = keys.drop_last();
        law_stable_order_exists(init);
        let before = order_of(init);
        let at = place_of(keys, before, n - 1, n - 1);
        lemma_place_of(keys, before, n - 1, n - 1);
        let order = before.insert(at, n - 1);
        assert forall|i: int, j: int| 0 <= i < j < n implies precedes(
            keys,
            #[trigger] order[i],
            #[trigger] order[j],
        ) by {
            if i == at {
                T::total(keys[before[j - 1]], keys[n - 1]);
            } else if j == at {
                if i < at - 1 {
                    assert(precedes(init, before[i], before[at - 1]));
                    T::transitive(keys[before[i]], keys[before[at - 1]], keys[n - 1]);
                }
            } else {
                let pi = if i < at {
                    i
                } else {
                    i - 1
                };
                let pj = if j < at {
                    j
                } else {
                    j - 1
                };
                assert(precedes(init, before[pi], before[pj]));
            }
        }
        assert(stable_order(keys, order));
    }
}

/// How keys are arranged rests on how they compare, and on nothing else.
pub proof fn law_order_rests_on_comparison<T: Ranked>(a: Seq<T>, b: Seq<T>)
    requires
        a.len() == b.len(),
        forall|i: int, j: int|
            0 <= i < a.len() && 0 <= j < a.len() ==> #[trigger] a[i].at_most(a[j])
                == b[i].at_most(b[j]),
    ensures
        order_of(a) == order_of(b),
{
    let order = order_of(a);
    law_stable_order_exists(a);
    law_stable_order_exists(b);
    assert forall|i: int, j: int| 0 <= i < j < order.len() implies precedes(
        b,
        #[trigger] order[i],
        #[trigger] order[j],
    ) by {
        assert(precedes(a, order[i], order[j]));
    }
    law_stable_order_is_unique(b, order, order_of(b));
}

/// Where the key number `n` goes among the keys that `before` arranges, `at` at the latest.
spec fn place_of<T: Ranked>(keys: Seq<T>, before: Seq<int>, n: int, at: int) -> int
    decreases at,
{
    if at <= 0 || keys[before[at - 1]].at_most(keys[n]) {
        at
    } else {
        place_of(keys, before, n, at - 1)
    }
}

proof fn lemma_place_of<T: Ranked>(keys: Seq<T>, before: Seq<int>, n: int, at: int)
    requires
        0 <= at <= before.len(),
    ensures
        0 <= place_of(keys, before, n, at) <= at,
        forall|k: int|
            place_of(keys, before, n, at) <= k < at ==> !keys[#[trigger] before[k]].at_most(keys[n]),
        place_of(keys, before, n, at) > 0 ==> keys[before[place_of(keys, before, n, at)
            - 1]].at_most(keys[n]),
    decreases at,
{
    if at > 0 && !keys[before[at - 1]].at_most(keys[n]) {
        lemma_place_of(keys, before, n, at - 1);
    }
}

} // verus!

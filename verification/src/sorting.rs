//! Stable ordering of items by a key, as `sort_by` with a comparator does.
use vstd::prelude::*;

verus! {

/// A key with a total preorder: `goes_before_or_ties(a, b)` holds when `a`
/// may stand before `b` in sorted order.
pub trait SortKey: Sized {
    spec fn goes_before_or_ties(self, other: Self) -> bool;

    proof fn lemma_total(a: Self, b: Self)
        ensures
            a.goes_before_or_ties(b) || b.goes_before_or_ties(a),
    ;

    proof fn lemma_transitive(a: Self, b: Self, c: Self)
        requires
            a.goes_before_or_ties(b),
            b.goes_before_or_ties(c),
        ensures
            a.goes_before_or_ties(c),
    ;

    fn before_or_ties(&self, other: &Self) -> (r: bool)
        ensures
            r == self.goes_before_or_ties(*other),
    ;
}

/// `p` lists each of `0..n` exactly once.
pub open spec fn is_permutation(p: Seq<int>, n: int) -> bool {
    &&& p.len() == n
    &&& forall|k: int| 0 <= k < p.len() ==> 0 <= #[trigger] p[k] < n
    &&& forall|k: int, l: int| 0 <= k < p.len() && 0 <= l < p.len() && k != l ==> p[k] != p[l]
}

/// Taking the keys in the order `p` gives a sorted sequence in which keys
/// that tie keep their original relative order (a stable sort).
pub open spec fn stably_sorted<K: SortKey>(keys: Seq<K>, p: Seq<int>) -> bool {
    forall|k: int, l: int|
        #![trigger p[k], p[l]]
        0 <= k < l < p.len() ==> keys[p[k]].goes_before_or_ties(keys[p[l]]) && (keys[p[l]].goes_before_or_ties(
            keys[p[k]],
        ) ==> p[k] < p[l])
}

/// A `usize` sequence read as integers.
pub open spec fn as_ints(s: Seq<usize>) -> Seq<int> {
    s.map_values(|x: usize| x as int)
}

/// The items of `s` taken in the order `p`.
pub open spec fn arrange<T>(s: Seq<T>, p: Seq<int>) -> Seq<T> {
    p.map_values(|k: int| s[k])
}

/// The first position at which `key` may be inserted after every key that
/// goes before it or ties with it.
fn insertion_point<K: SortKey>(keys: &Vec<K>, order: &Vec<usize>, key_index: usize) -> (pos: usize)
    requires
        key_index < keys.len(),
        forall|k: int| 0 <= k < order.len() ==> (#[trigger] order@[k]) < keys.len(),
    ensures
        pos <= order.len(),
        forall|k: int|
            0 <= k < pos ==> (#[trigger] keys@[order@[k] as int]).goes_before_or_ties(
                keys@[key_index as int],
            ),
        pos < order.len() ==> !keys@[order@[pos as int] as int].goes_before_or_ties(
            keys@[key_index as int],
        ),
{
    let mut pos: usize = 0;
    let mut stop = false;
    while pos < order.len() && !stop
        invariant
            pos <= order.len(),
            key_index < keys.len(),
            forall|k: int| 0 <= k < order.len() ==> (#[trigger] order@[k]) < keys.len(),
            forall|k: int|
                0 <= k < pos ==> (#[trigger] keys@[order@[k] as int]).goes_before_or_ties(
                    keys@[key_index as int],
                ),
            stop ==> pos < order.len() && !keys@[order@[pos as int] as int].goes_before_or_ties(
                keys@[key_index as int],
            ),
        decreases order.len() - pos + (if stop { 0int } else { 1int }),
    {
        if keys[order[pos]].before_or_ties(&keys[key_index]) {
            pos = pos + 1;
        } else {
            stop = true;
        }
    }
    pos
}

proof fn lemma_insert_keeps_order<K: SortKey>(keys: Seq<K>, p: Seq<int>, pos: int, x: int)
    requires
        0 <= pos <= p.len(),
        0 <= x < keys.len(),
        forall|k: int| 0 <= k < p.len() ==> 0 <= #[trigger] p[k] < x,
        stably_sorted(keys, p),
        forall|k: int| 0 <= k < pos ==> (#[trigger] keys[p[k]]).goes_before_or_ties(keys[x]),
        pos < p.len() ==> !keys[p[pos]].goes_before_or_ties(keys[x]),
    ensures
        stably_sorted(keys, p.insert(pos, x)),
{
    let q = p.insert(pos, x);
    assert forall|k: int, l: int| 0 <= k < l < q.len() implies keys[q[k]].goes_before_or_ties(
        keys[q[l]],
    ) && (keys[q[l]].goes_before_or_ties(keys[q[k]]) ==> q[k] < q[l]) by {
        if k == pos {
            // q[l] == p[l - 1], which must not go before or tie with keys[x]
            let e = p[l - 1];
            assert(q[l] == e);
            if keys[e].goes_before_or_ties(keys[x]) {
                if l - 1 > pos {
                    assert(keys[p[pos]].goes_before_or_ties(keys[p[l - 1]]));
                    K::lemma_transitive(keys[p[pos]], keys[e], keys[x]);
                }
                assert(false);
            }
            K::lemma_total(keys[x], keys[e]);
        } else if l == pos {
            assert(q[k] == p[k]);
            assert(keys[p[k]].goes_before_or_ties(keys[x]));
        } else {
            let k0 = if k < pos {
                k
            } else {
                k - 1
            };
            let l0 = if l < pos {
                l
            } else {
                l - 1
            };
            assert(q[k] == p[k0]);
            assert(q[l] == p[l0]);
            assert(k0 < l0);
        }
    }
}

/// The order in which a stable sort by `keys` puts the items.
pub fn stable_sort_order<K: SortKey>(keys: &Vec<K>) -> (order: Vec<usize>)
    ensures
        is_permutation(as_ints(order@), keys.len() as int),
        stably_sorted(keys@, as_ints(order@)),
{
    let n = keys.len();
    let mut order: Vec<usize> = Vec::new();
    let mut i: usize = 0;
    while i < n
        invariant
            i <= n,
            n == keys.len(),
            is_permutation(as_ints(order@), i as int),
            stably_sorted(keys@, as_ints(order@)),
        decreases n - i,
    {
        proof {
            assert forall|k: int| 0 <= k < order.len() implies (#[trigger] order@[k]) < keys.len() by {
                assert(as_ints(order@)[k] == order@[k] as int);
            }
        }
        let pos = insertion_point(keys, &order, i);
        let ghost before = as_ints(order@);
        proof {
            assert forall|k: int| 0 <= k < pos implies (#[trigger] keys@[before[k]]).goes_before_or_ties(
                keys@[i as int],
            ) by {
                assert(before[k] == order@[k] as int);
            }
            if pos < order.len() {
                assert(before[pos as int] == order@[pos as int] as int);
            }
            lemma_insert_keeps_order(keys@, before, pos as int, i as int);
        }
        order.insert(pos, i);
        proof {
            assert(as_ints(order@) =~= before.insert(pos as int, i as int));
        }
        i = i + 1;
    }
    order
}

/// A sequence of distinct indices below `n` that lists every index below
/// `n` is a permutation of `0..n`.
pub proof fn lemma_cover_is_permutation(s: Seq<int>, n: int)
    requires
        n >= 0,
        forall|k: int| 0 <= k < s.len() ==> 0 <= #[trigger] s[k] < n,
        forall|k: int, l: int| 0 <= k < s.len() && 0 <= l < s.len() && k != l ==> s[k] != s[l],
        forall|x: int| 0 <= x < n ==> #[trigger] s.contains(x),
    ensures
        is_permutation(s, n),
{
    lemma_distinct_len_bound(s, n);
    // each index has a position, and distinct indices have distinct positions
    let pos = Seq::new(n as nat, |x: int| choose|k: int| 0 <= k < s.len() && s[k] == x);
    assert forall|x: int| 0 <= x < n implies 0 <= #[trigger] pos[x] < s.len() && s[pos[x]] == x by {
        assert(s.contains(x));
    }
    assert forall|x: int, y: int| 0 <= x < pos.len() && 0 <= y < pos.len() && x != y implies pos[x]
        != pos[y] by {
        assert(s[pos[x]] == x && s[pos[y]] == y);
    }
    lemma_distinct_len_bound(pos, s.len() as int);
}

/// Distinct values below `m` number at most `m`.
pub proof fn lemma_distinct_len_bound(q: Seq<int>, m: int)
    requires
        m >= 0,
        forall|k: int| 0 <= k < q.len() ==> 0 <= #[trigger] q[k] < m,
        forall|k: int, l: int| 0 <= k < q.len() && 0 <= l < q.len() && k != l ==> q[k] != q[l],
    ensures
        q.len() <= m,
    decreases q.len(),
{
    if q.len() > 0 {
        assert(0 <= q[0] < m);
        let top = m - 1;
        if exists|j: int| 0 <= j < q.len() && q[j] == top {
            let j = choose|j: int| 0 <= j < q.len() && q[j] == top;
            let r = q.remove(j);
            assert forall|k: int| 0 <= k < r.len() implies 0 <= #[trigger] r[k] < top by {
                let k0 = if k < j {
                    k
                } else {
                    k + 1
                };
                assert(r[k] == q[k0]);
            }
            assert forall|k: int, l: int|
                0 <= k < r.len() && 0 <= l < r.len() && k != l implies r[k] != r[l] by {
                let k0 = if k < j {
                    k
                } else {
                    k + 1
                };
                let l0 = if l < j {
                    l
                } else {
                    l + 1
                };
                assert(r[k] == q[k0] && r[l] == q[l0]);
            }
            lemma_distinct_len_bound(r, top);
        } else {
            let r = q.drop_last();
            assert forall|k: int| 0 <= k < r.len() implies 0 <= #[trigger] r[k] < top by {
                assert(r[k] == q[k]);
            }
            lemma_distinct_len_bound(r, top);
        }
    }
}

} // verus!

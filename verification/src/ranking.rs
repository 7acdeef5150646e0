//! A deterministic ordering of sequence elements: the elements are arranged
//! by repeatedly extracting the first minimal element under a strict order,
//! so equal-keyed elements keep a fixed, documented relative position
//! instead of depending on incidental container iteration.

use vstd::prelude::*;
use vstd::multiset::Multiset;
use vstd::seq_lib::group_to_multiset_ensures;

verus! {

/// `before` is a strict total order on the integers.
pub open spec fn strict_order(before: spec_fn(int, int) -> bool) -> bool {
    &&& forall|i: int| !(#[trigger] before(i, i))
    &&& forall|i: int, j: int, k: int|
        #[trigger] before(i, j) && #[trigger] before(j, k) ==> before(i, k)
    &&& forall|i: int, j: int| i != j ==> #[trigger] before(i, j) || #[trigger] before(j, i)
}

/// The position (not the value) of the first element of `rem[0..n)` that no
/// other element of the range strictly precedes.
pub open spec fn pick_pos(before: spec_fn(int, int) -> bool, rem: Seq<int>, n: int) -> int
    decreases n,
{
    if n <= 1 {
        0
    } else {
        let b = pick_pos(before, rem, n - 1);
        if before(rem[n - 1], rem[b]) {
            n - 1
        } else {
            b
        }
    }
}

/// The elements of `rem` arranged by repeatedly extracting the element at
/// `pick_pos`.
pub open spec fn sel_order(before: spec_fn(int, int) -> bool, rem: Seq<int>) -> Seq<int>
    decreases rem.len(),
    via sel_order_decreases
{
    if rem.len() == 0 {
        Seq::empty()
    } else {
        let bp = pick_pos(before, rem, rem.len() as int);
        seq![rem[bp]] + sel_order(before, rem.remove(bp))
    }
}

#[via_fn]
proof fn sel_order_decreases(before: spec_fn(int, int) -> bool, rem: Seq<int>) {
    if rem.len() > 0 {
        lemma_pick_pos_in_range(before, rem, rem.len() as int);
    }
}

proof fn lemma_pick_pos_in_range(before: spec_fn(int, int) -> bool, rem: Seq<int>, n: int)
    requires
        1 <= n <= rem.len(),
    ensures
        0 <= pick_pos(before, rem, n) < n,
    decreases n,
{
    if n > 1 {
        lemma_pick_pos_in_range(before, rem, n - 1);
    }
}

/// The picked element is in range and no element of the scanned range
/// strictly precedes it.
pub proof fn lemma_pick_pos(before: spec_fn(int, int) -> bool, rem: Seq<int>, n: int)
    requires
        strict_order(before),
        1 <= n <= rem.len(),
    ensures
        0 <= pick_pos(before, rem, n) < n,
        forall|t: int| 0 <= t < n ==> !before(#[trigger] rem[t], rem[pick_pos(before, rem, n)]),
    decreases n,
{
    if n > 1 {
        lemma_pick_pos(before, rem, n - 1);
        let b = pick_pos(before, rem, n - 1);
        let m = pick_pos(before, rem, n);
        if before(rem[n - 1], rem[b]) {
            assert forall|t: int| 0 <= t < n implies !before(rem[t], rem[m]) by {
                if t < n - 1 && before(rem[t], rem[n - 1]) {
                    assert(before(rem[t], rem[b]));
                }
            }
        }
    }
}

/// The selection order is a permutation: same length, same multiset of
/// elements.
pub proof fn lemma_sel_order_permutes(before: spec_fn(int, int) -> bool, rem: Seq<int>)
    requires
        strict_order(before),
    ensures
        sel_order(before, rem).len() == rem.len(),
        sel_order(before, rem).to_multiset() == rem.to_multiset(),
    decreases rem.len(),
{
    broadcast use group_to_multiset_ensures;

    if rem.len() > 0 {
        lemma_pick_pos(before, rem, rem.len() as int);
        let bp = pick_pos(before, rem, rem.len() as int);
        let rest = rem.remove(bp);
        lemma_sel_order_permutes(before, rest);
        vstd::seq_lib::lemma_multiset_commutative(seq![rem[bp]], sel_order(before, rest));
        assert(seq![rem[bp]] =~= Seq::<int>::empty().push(rem[bp]));
        assert(seq![rem[bp]].to_multiset() =~= Multiset::<int>::empty().insert(rem[bp]));
        assert(rest.to_multiset() =~= rem.to_multiset().remove(rem[bp]));
        assert(rem.to_multiset().contains(rem[bp]));
        assert(sel_order(before, rem).to_multiset() =~= rem.to_multiset());
    }
}

/// Every element of the selection order is an element of the input.
pub proof fn lemma_sel_order_membership(before: spec_fn(int, int) -> bool, rem: Seq<int>, t: int)
    requires
        strict_order(before),
        0 <= t < sel_order(before, rem).len(),
    ensures
        rem.contains(sel_order(before, rem)[t]),
{
    broadcast use group_to_multiset_ensures;

    lemma_sel_order_permutes(before, rem);
    let x = sel_order(before, rem)[t];
    assert(sel_order(before, rem).contains(x));
    assert(sel_order(before, rem).to_multiset().contains(x));
}

/// On an input without duplicates the selection order is strictly sorted:
/// each element strictly precedes all later ones.
pub proof fn lemma_sel_order_sorted(before: spec_fn(int, int) -> bool, rem: Seq<int>)
    requires
        strict_order(before),
        rem.no_duplicates(),
    ensures
        forall|a: int, b: int|
            0 <= a < b < sel_order(before, rem).len() ==> before(
                #[trigger] sel_order(before, rem)[a],
                #[trigger] sel_order(before, rem)[b],
            ),
    decreases rem.len(),
{
    broadcast use group_to_multiset_ensures;

    if rem.len() > 0 {
        lemma_pick_pos(before, rem, rem.len() as int);
        let bp = pick_pos(before, rem, rem.len() as int);
        let m = rem[bp];
        let rest = rem.remove(bp);
        assert(rest.no_duplicates()) by {
            assert forall|a: int, b: int|
                0 <= a < rest.len() && 0 <= b < rest.len() && a != b implies rest[a] != rest[b] by {
                assert(rest[a] == if a < bp {
                    rem[a]
                } else {
                    rem[a + 1]
                });
                assert(rest[b] == if b < bp {
                    rem[b]
                } else {
                    rem[b + 1]
                });
            }
        }
        lemma_sel_order_sorted(before, rest);
        lemma_sel_order_permutes(before, rest);
        let s = sel_order(before, rem);
        assert forall|a: int, b: int| 0 <= a < b < s.len() implies before(s[a], s[b]) by {
            if a == 0 {
                let y = s[b];
                assert(y == sel_order(before, rest)[b - 1]);
                lemma_sel_order_membership(before, rest, b - 1);
                let u = choose|u: int| 0 <= u < rest.len() && rest[u] == y;
                assert(rest[u] == if u < bp {
                    rem[u]
                } else {
                    rem[u + 1]
                });
                let v = if u < bp {
                    u
                } else {
                    u + 1
                };
                assert(rem[v] == y);
                assert(!before(y, m));
                assert(y != m) by {
                    assert(rem[bp] == m);
                    assert(v != bp);
                }
                assert(before(m, y));
            } else {
                assert(s[a] == sel_order(before, rest)[a - 1]);
                assert(s[b] == sel_order(before, rest)[b - 1]);
            }
        }
    }
}

} // verus!

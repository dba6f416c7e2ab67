//! Cycle-walking: adapting the Feistel bijection on a power-of-two domain
//! to a smaller target range `[0, n)`.
//!
//! Re-applying the permutation to an out-of-range value must eventually
//! reach an in-range one: iterating a bijection from a point below `n`
//! returns to that point, so the walk can never circle forever among
//! out-of-range values.  On `[0, n)` the walked map is itself a bijection.

use vstd::prelude::*;

use crate::feistel::domain_size;
use crate::feistel::in_domain;
use crate::feistel::lemma_permute_in_domain;
use crate::feistel::lemma_unpermute_permute;
use crate::feistel::spec_permute;
use crate::feistel::valid_bit_len;

verus! {

use vstd::relations::injective_on;
use vstd::set_lib::set_int_range;
use vstd::set_lib::lemma_int_range;
use vstd::set_lib::lemma_len_subset;
use vstd::set_lib::lemma_map_size;
use vstd::set_lib::lemma_subset_equality;

/// The `k`-fold application of the keyed permutation to `x`.
pub open spec fn iterate(keys: Seq<u64>, b: u64, k: nat, x: u64) -> u64
    decreases k,
{
    if k == 0 {
        x
    } else {
        spec_permute(keys, b, iterate(keys, b, (k - 1) as nat, x))
    }
}

/// After `k` applications (at least one) the walk from `x` lands below `n`
/// for the first time.
pub open spec fn is_first_hit(keys: Seq<u64>, b: u64, n: u64, x: u64, k: nat) -> bool {
    &&& k >= 1
    &&& iterate(keys, b, k, x) < n
    &&& forall|j: nat| 1 <= j < k ==> #[trigger] iterate(keys, b, j, x) >= n
}

/// Whether the walk from `x` ever lands below `n`.
pub open spec fn walk_hits(keys: Seq<u64>, b: u64, n: u64, x: u64) -> bool {
    exists|k: nat| is_first_hit(keys, b, n, x, k)
}

/// The in-range value on which the walk from `x` settles.
pub open spec fn walk_result(keys: Seq<u64>, b: u64, n: u64, x: u64) -> u64 {
    iterate(keys, b, choose|k: nat| is_first_hit(keys, b, n, x, k), x)
}

/// Whether some start below `n` walks to `v`.
pub open spec fn walk_reaches(keys: Seq<u64>, b: u64, n: u64, v: u64) -> bool {
    exists|x: u64| x < n && #[trigger] walk_result(keys, b, n, x) == v
}

/// Iterating the permutation never leaves the domain.
proof fn lemma_iterate_in_domain(keys: Seq<u64>, b: u64, k: nat, x: u64)
    requires
        valid_bit_len(b),
        in_domain(b, x),
    ensures
        in_domain(b, iterate(keys, b, k, x)),
    decreases k,
{
    if k > 0 {
        lemma_iterate_in_domain(keys, b, (k - 1) as nat, x);
        lemma_permute_in_domain(keys, b, iterate(keys, b, (k - 1) as nat, x));
    }
}

/// Iteration counts add up.
proof fn lemma_iterate_add(keys: Seq<u64>, b: u64, i: nat, j: nat, x: u64)
    ensures
        iterate(keys, b, (i + j) as nat, x) == iterate(keys, b, i, iterate(keys, b, j, x)),
    decreases i,
{
    if i > 0 {
        lemma_iterate_add(keys, b, (i - 1) as nat, j, x);
    }
}

/// Equal `i`-fold iterates of in-domain points force the points equal.
proof fn lemma_iterate_cancel(keys: Seq<u64>, b: u64, i: nat, x: u64, y: u64)
    requires
        valid_bit_len(b),
        in_domain(b, x),
        in_domain(b, y),
        iterate(keys, b, i, x) == iterate(keys, b, i, y),
    ensures
        x == y,
    decreases i,
{
    if i > 0 {
        let px = iterate(keys, b, (i - 1) as nat, x);
        let py = iterate(keys, b, (i - 1) as nat, y);
        lemma_iterate_in_domain(keys, b, (i - 1) as nat, x);
        lemma_iterate_in_domain(keys, b, (i - 1) as nat, y);
        lemma_unpermute_permute(keys, b, px);
        lemma_unpermute_permute(keys, b, py);
        lemma_iterate_cancel(keys, b, (i - 1) as nat, x, y);
    }
}

/// Iterating a bijection from an in-domain point returns to it within
/// `domain_size(b)` steps.
proof fn lemma_orbit_returns(keys: Seq<u64>, b: u64, x: u64)
    requires
        valid_bit_len(b),
        in_domain(b, x),
    ensures
        exists|k: nat|
            1 <= k <= domain_size(b) && #[trigger] iterate(keys, b, k, x) == x,
{
    let d = domain_size(b);
    let f = |i: int| iterate(keys, b, (if i >= 0 { i } else { 0 }) as nat, x) as int;
    if exists|i: nat, j: nat|
        i < j <= d && #[trigger] iterate(keys, b, i, x) == #[trigger] iterate(keys, b, j, x) {
        let (i, j) = choose|i: nat, j: nat|
            i < j <= d && #[trigger] iterate(keys, b, i, x) == #[trigger] iterate(
                keys,
                b,
                j,
                x,
            );
        let k = (j - i) as nat;
        lemma_iterate_add(keys, b, i, k, x);
        lemma_iterate_in_domain(keys, b, k, x);
        lemma_iterate_cancel(keys, b, i, iterate(keys, b, k, x), x);
        assert(iterate(keys, b, k, x) == x);
    } else {
        let s = set_int_range(0, d + 1);
        lemma_int_range(0, d + 1);
        assert(injective_on(f, s)) by {
            assert forall|a1: int, a2: int|
                s.contains(a1) && s.contains(a2) && #[trigger] f(a1) == #[trigger] f(a2)
                implies a1 == a2 by {
                if a1 < a2 {
                    assert(iterate(keys, b, a1 as nat, x) == iterate(keys, b, a2 as nat, x));
                    assert(false);
                } else if a2 < a1 {
                    assert(iterate(keys, b, a2 as nat, x) == iterate(keys, b, a1 as nat, x));
                    assert(false);
                }
            }
        }
        let img = s.map(f);
        lemma_map_size(s, img, f);
        lemma_int_range(0, d);
        assert(img.subset_of(set_int_range(0, d))) by {
            assert forall|v: int| img.contains(v) implies 0 <= v < d by {
                let a = choose|a: int| s.contains(a) && v == f(a);
                lemma_iterate_in_domain(keys, b, a as nat, x);
            }
        }
        lemma_len_subset(img, set_int_range(0, d));
        assert(false);
    }
}

/// Below some hit there is always a first hit.
proof fn lemma_first_hit_below(keys: Seq<u64>, b: u64, n: u64, x: u64, k: nat)
    requires
        k >= 1,
        iterate(keys, b, k, x) < n,
    ensures
        walk_hits(keys, b, n, x),
    decreases k,
{
    if forall|j: nat| 1 <= j < k ==> #[trigger] iterate(keys, b, j, x) >= n {
        assert(is_first_hit(keys, b, n, x, k));
    } else {
        let j = choose|j: nat| 1 <= j < k && #[trigger] iterate(keys, b, j, x) < n;
        lemma_first_hit_below(keys, b, n, x, j);
    }
}

/// A walk started below `n` always lands below `n` again.
pub proof fn lemma_walk_hits(keys: Seq<u64>, b: u64, n: u64, x: u64)
    requires
        valid_bit_len(b),
        n <= domain_size(b),
        x < n,
    ensures
        walk_hits(keys, b, n, x),
{
    lemma_orbit_returns(keys, b, x);
    let k = choose|k: nat| 1 <= k <= domain_size(b) && #[trigger] iterate(keys, b, k, x) == x;
    lemma_first_hit_below(keys, b, n, x, k);
}

/// There is only one first hit.
proof fn lemma_first_hit_unique(keys: Seq<u64>, b: u64, n: u64, x: u64, k1: nat, k2: nat)
    requires
        is_first_hit(keys, b, n, x, k1),
        is_first_hit(keys, b, n, x, k2),
    ensures
        k1 == k2,
{
    if k1 < k2 {
        assert(iterate(keys, b, k1, x) >= n);
    } else if k2 < k1 {
        assert(iterate(keys, b, k2, x) >= n);
    }
}

/// The walk's result is the iterate at its first hit, and lies below `n`.
pub proof fn lemma_walk_result(keys: Seq<u64>, b: u64, n: u64, x: u64, k: nat)
    requires
        is_first_hit(keys, b, n, x, k),
    ensures
        walk_result(keys, b, n, x) == iterate(keys, b, k, x),
        walk_result(keys, b, n, x) < n,
{
    let kc = choose|kc: nat| is_first_hit(keys, b, n, x, kc);
    lemma_first_hit_unique(keys, b, n, x, k, kc);
}

/// Distinct starting points below `n` walk to distinct results.
proof fn lemma_walk_injective(keys: Seq<u64>, b: u64, n: u64, x1: u64, x2: u64)
    requires
        valid_bit_len(b),
        n <= domain_size(b),
        x1 < n,
        x2 < n,
        walk_result(keys, b, n, x1) == walk_result(keys, b, n, x2),
    ensures
        x1 == x2,
{
    lemma_walk_hits(keys, b, n, x1);
    lemma_walk_hits(keys, b, n, x2);
    let k1 = choose|k: nat| is_first_hit(keys, b, n, x1, k);
    let k2 = choose|k: nat| is_first_hit(keys, b, n, x2, k);
    lemma_walk_result(keys, b, n, x1, k1);
    lemma_walk_result(keys, b, n, x2, k2);
    if k1 <= k2 {
        lemma_walk_to_earlier_start(keys, b, n, x1, x2, k1, k2);
    } else {
        lemma_walk_to_earlier_start(keys, b, n, x2, x1, k2, k1);
    }
}

/// Helper for injectivity: if the first hits coincide and `k1 <= k2`, the
/// starts coincide.
proof fn lemma_walk_to_earlier_start(
    keys: Seq<u64>,
    b: u64,
    n: u64,
    x1: u64,
    x2: u64,
    k1: nat,
    k2: nat,
)
    requires
        valid_bit_len(b),
        n <= domain_size(b),
        x1 < n,
        x2 < n,
        is_first_hit(keys, b, n, x1, k1),
        is_first_hit(keys, b, n, x2, k2),
        k1 <= k2,
        iterate(keys, b, k1, x1) == iterate(keys, b, k2, x2),
    ensures
        x1 == x2,
{
    let d = (k2 - k1) as nat;
    lemma_iterate_add(keys, b, k1, d, x2);
    lemma_iterate_in_domain(keys, b, d, x2);
    lemma_iterate_cancel(keys, b, k1, x1, iterate(keys, b, d, x2));
    if d != 0 {
        assert(iterate(keys, b, d, x2) >= n);
        assert(false);
    }
}

/// On a target range `[0, n)` inside the domain, the walked permutation is
/// a bijection: every start below `n` settles below `n`, no two starts
/// share a result, and every value below `n` is some start's result.
pub proof fn lemma_walk_bijective(keys: Seq<u64>, b: u64, n: u64)
    requires
        valid_bit_len(b),
        1 <= n,
        n <= domain_size(b),
    ensures
        forall|x: u64| x < n ==> #[trigger] walk_hits(keys, b, n, x),
        forall|x: u64| x < n ==> #[trigger] walk_result(keys, b, n, x) < n,
        forall|x1: u64, x2: u64|
            x1 < n && x2 < n && #[trigger] walk_result(keys, b, n, x1) == #[trigger] walk_result(
                keys,
                b,
                n,
                x2,
            ) ==> x1 == x2,
        forall|v: u64| v < n ==> #[trigger] walk_reaches(keys, b, n, v),
{
    assert forall|x: u64| x < n implies #[trigger] walk_hits(keys, b, n, x) by {
        lemma_walk_hits(keys, b, n, x);
    }
    assert forall|x: u64| x < n implies #[trigger] walk_result(keys, b, n, x) < n by {
        lemma_walk_hits(keys, b, n, x);
        let k = choose|k: nat| is_first_hit(keys, b, n, x, k);
        lemma_walk_result(keys, b, n, x, k);
    }
    assert forall|x1: u64, x2: u64|
        x1 < n && x2 < n && #[trigger] walk_result(keys, b, n, x1) == #[trigger] walk_result(
            keys,
            b,
            n,
            x2,
        ) implies x1 == x2 by {
        lemma_walk_injective(keys, b, n, x1, x2);
    }
    let g = |i: int| walk_result(keys, b, n, (if i >= 0 { i } else { 0 }) as u64) as int;
    let s = set_int_range(0, n as int);
    lemma_int_range(0, n as int);
    assert(injective_on(g, s)) by {
        assert forall|a1: int, a2: int|
            s.contains(a1) && s.contains(a2) && #[trigger] g(a1) == #[trigger] g(a2)
            implies a1 == a2 by {
            lemma_walk_injective(keys, b, n, a1 as u64, a2 as u64);
        }
    }
    let img = s.map(g);
    lemma_map_size(s, img, g);
    assert(img.subset_of(set_int_range(0, n as int))) by {
        assert forall|v: int| img.contains(v) implies 0 <= v < n as int by {
            let a = choose|a: int| s.contains(a) && v == g(a);
            assert(walk_result(keys, b, n, a as u64) < n);
        }
    }
    lemma_subset_equality(img, set_int_range(0, n as int));
    assert forall|v: u64| v < n implies #[trigger] walk_reaches(keys, b, n, v) by {
        assert(set_int_range(0, n as int).contains(v as int));
        assert(img.contains(v as int));
        let a = choose|a: int| s.contains(a) && v as int == g(a);
        assert((a as u64) < n && walk_result(keys, b, n, a as u64) == v);
    }
}

} // verus!

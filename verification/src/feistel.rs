//! A balanced Feistel network over an even bit-width domain.
//!
//! The network turns a keyed, non-invertible round function into a keyed
//! bijection on `[0, 2^bit_len)`.  Invertibility comes from the Feistel
//! structure alone, so the permutation is a bijection for *every* choice of
//! round keys.

use vstd::prelude::*;

use crate::WordleError;
use core::hash::Hasher;

verus! {

use vstd::arithmetic::power2::*;
use vstd::bits::lemma_u64_shl_is_mul;
use vstd::bits::lemma_u64_pow2_no_overflow;

/// What `wyhash::WyHash` returns for eight little-endian bytes hashed under
/// a 64-bit seed.  The hash is a pure function of seed and bytes.
pub uninterp spec fn wy_round(key: u64, value: u64) -> u64;

/// Relies on `wyhash::WyHash` (`with_seed`, `write`, `finish`): the 64-bit
/// hash of the eight little-endian bytes of `value` under seed `key` depends
/// on `key` and `value` alone.
#[verifier::external_body]
fn wy_hash64(key: u64, value: u64) -> (r: u64)
    ensures
        r == wy_round(key, value),
{
    let mut hasher = wyhash::WyHash::with_seed(key);
    hasher.write(&value.to_le_bytes());
    hasher.finish()
}

/// A usable bit width: even, at least 2, at most 64.
pub open spec fn valid_bit_len(b: u64) -> bool {
    2 <= b && b <= 64 && b % 2 == 0
}

/// The mask selecting the lower half of a `b`-bit value.
pub open spec fn half_mask(b: u64) -> u64 {
    ((1u64 << (b / 2)) - 1) as u64
}

/// The number of values in a `b`-bit domain.
pub open spec fn domain_size(b: u64) -> int {
    if b == 64 {
        0x1_0000_0000_0000_0000
    } else {
        (1u64 << b) as int
    }
}

/// Whether `x` lies in the `b`-bit domain.
pub open spec fn in_domain(b: u64, x: u64) -> bool {
    (x as int) < domain_size(b)
}

/// One Feistel round applied to the state `(upper, lower)`.
pub open spec fn feistel_step(key: u64, st: (u64, u64), mask: u64) -> (u64, u64) {
    (st.1, st.0 ^ (wy_round(key, st.1) & mask))
}

/// The inverse of one Feistel round.
pub open spec fn feistel_unstep(key: u64, st: (u64, u64), mask: u64) -> (u64, u64) {
    (st.1 ^ (wy_round(key, st.0) & mask), st.0)
}

/// The state after applying rounds `j`, `j + 1`, ... of `keys`, in order.
pub open spec fn feistel_rounds_from(keys: Seq<u64>, j: nat, st: (u64, u64), mask: u64) -> (
    u64,
    u64,
)
    decreases keys.len() - j,
{
    if j >= keys.len() {
        st
    } else {
        feistel_rounds_from(keys, (j + 1) as nat, feistel_step(keys[j as int], st, mask), mask)
    }
}

/// The state before rounds `j`, `j + 1`, ... of `keys` were applied.
pub open spec fn feistel_unrounds_from(keys: Seq<u64>, j: nat, st: (u64, u64), mask: u64) -> (
    u64,
    u64,
)
    decreases keys.len() - j,
{
    if j >= keys.len() {
        st
    } else {
        feistel_unstep(
            keys[j as int],
            feistel_unrounds_from(keys, (j + 1) as nat, st, mask),
            mask,
        )
    }
}

/// The permutation computed by a network with round keys `keys` over a
/// `b`-bit domain: split, run every round, and join with the halves swapped.
pub open spec fn spec_permute(keys: Seq<u64>, b: u64, x: u64) -> u64 {
    let st = feistel_rounds_from(
        keys,
        0,
        (x >> (b / 2), x & half_mask(b)),
        half_mask(b),
    );
    (st.1 << (b / 2)) | st.0
}

/// The inverse permutation: split with the halves swapped, undo every round,
/// and join.
pub open spec fn spec_unpermute(keys: Seq<u64>, b: u64, y: u64) -> u64 {
    let st = feistel_unrounds_from(
        keys,
        0,
        (y & half_mask(b), y >> (b / 2)),
        half_mask(b),
    );
    (st.0 << (b / 2)) | st.1
}

/// The number of binary digits of `x`.
pub open spec fn bit_length(x: u64) -> nat
    decreases x,
{
    if x == 0 {
        0nat
    } else {
        (1 + bit_length(x / 2)) as nat
    }
}

/// The smallest even usable bit width whose domain holds at least `n`
/// values, for `n >= 1`: the bit length of `n - 1` (at least 1), rounded up
/// to the next even number.
pub open spec fn min_even_width(n: u64) -> u64 {
    let raw = if n <= 1 {
        1nat
    } else {
        bit_length((n - 1) as u64)
    };
    if raw % 2 == 1 {
        (raw + 1) as u64
    } else {
        raw as u64
    }
}

/// A value is below two to its bit length.
proof fn lemma_bit_length_pow2(x: u64)
    ensures
        (x as int) < pow2(bit_length(x)),
    decreases x,
{
    if x == 0 {
        lemma2_to64();
    } else {
        lemma_bit_length_pow2(x / 2);
        let p = pow2(bit_length(x / 2));
        lemma_pow2_unfold(bit_length(x));
        assert((x as int) < 2 * p) by (nonlinear_arith)
            requires
                ((x / 2) as int) < p,
                x >= 1;
    }
}

/// A value below `2^k` has bit length at most `k`.
proof fn lemma_bit_length_le(x: u64, k: nat)
    requires
        (x as int) < pow2(k),
    ensures
        bit_length(x) <= k,
    decreases x,
{
    if x != 0 {
        lemma_pow2_pos(k);
        lemma2_to64();
        if k == 0 {
            assert(pow2(0) == 1);
        }
        lemma_pow2_unfold(k);
        assert(((x / 2) as int) < pow2((k - 1) as nat)) by (nonlinear_arith)
            requires
                (x as int) < 2 * pow2((k - 1) as nat),
                pow2((k - 1) as nat) >= 1,
        ;
        lemma_bit_length_le(x / 2, (k - 1) as nat);
    }
}

/// A positive value reaches two to its bit length less one.
proof fn lemma_bit_length_min(x: u64)
    requires
        x >= 1,
    ensures
        pow2((bit_length(x) - 1) as nat) <= x as int,
    decreases x,
{
    if x / 2 == 0 {
        lemma2_to64();
        assert(bit_length(0u64) == 0);
        assert(bit_length(x) == 1);
    } else {
        lemma_bit_length_min(x / 2);
        assert(bit_length(x / 2) >= 1);
        lemma_pow2_unfold(bit_length(x / 2));
        assert(bit_length(x) - 1 == bit_length(x / 2));
        assert(2 * pow2((bit_length(x / 2) - 1) as nat) <= x as int) by (nonlinear_arith)
            requires
                pow2((bit_length(x / 2) - 1) as nat) <= ((x / 2) as int),
                x >= 1;
    }
}

/// The size of a `b`-bit domain is two to the `b`.
proof fn lemma_domain_size_pow2(b: u64)
    requires
        b <= 64,
    ensures
        domain_size(b) == pow2(b as nat),
{
    if b == 64 {
        lemma2_to64_rest();
    } else {
        lemma_u64_pow2_no_overflow(b as nat);
        lemma_u64_shl_is_mul(1u64, b);
    }
}

/// The smallest-even-width formula is sound and minimal: it yields a usable
/// width whose domain covers `n`, and no smaller usable width does.
pub proof fn lemma_min_even_width(n: u64)
    requires
        n >= 1,
    ensures
        valid_bit_len(min_even_width(n)),
        domain_size(min_even_width(n)) >= n,
        forall|b2: u64|
            valid_bit_len(b2) && domain_size(b2) >= n ==> min_even_width(n) <= b2,
{
    let w = min_even_width(n);
    let raw = if n <= 1 {
        1nat
    } else {
        bit_length((n - 1) as u64)
    };
    lemma2_to64();
    lemma2_to64_rest();
    if n > 1 {
        let x = (n - 1) as u64;
        lemma_bit_length_le(x, 64);
        lemma_bit_length_pow2(x);
        lemma_bit_length_min(x);
    }
    assert(valid_bit_len(w));
    lemma_domain_size_pow2(w);
    if w as nat > raw {
        lemma_pow2_strictly_increases(raw, w as nat);
    }
    assert(domain_size(w) >= n);
    assert forall|b2: u64| valid_bit_len(b2) && domain_size(b2) >= n implies w <= b2 by {
        lemma_domain_size_pow2(b2);
        if n > 1 {
            let x = (n - 1) as u64;
            if (b2 as nat) < bit_length(x) {
                lemma_bit_length_min(x);
                if (b2 as nat) < (bit_length(x) - 1) as nat {
                    lemma_pow2_strictly_increases(b2 as nat, (bit_length(x) - 1) as nat);
                }
                assert(pow2(b2 as nat) <= x as int);
                assert(false);
            }
        }
    }
}

proof fn bv_xor_cancel(a: u64, c: u64)
    by (bit_vector)
    ensures
        (a ^ c) ^ c == a,
{
}

proof fn bv_xor_mask_closed(x: u64, f: u64, h: u64)
    by (bit_vector)
    requires
        h < 64,
        x <= (1u64 << h) - 1,
    ensures
        (x ^ (f & (((1u64 << h) - 1) as u64))) <= (1u64 << h) - 1,
{
}

proof fn bv_and_le(x: u64, m: u64)
    by (bit_vector)
    ensures
        x & m <= m,
{
}

proof fn bv_upper_half(x: u64, h: u64)
    by (bit_vector)
    requires
        1 <= h,
        h <= 31,
        x < (1u64 << (2 * h)),
    ensures
        x >> h <= (1u64 << h) - 1,
{
}

proof fn bv_upper_half_64(x: u64)
    by (bit_vector)
    ensures
        x >> 32 <= (1u64 << 32) - 1,
{
}

proof fn bv_join_in_domain(hi: u64, lo: u64, h: u64)
    by (bit_vector)
    requires
        1 <= h,
        h <= 31,
        hi <= (1u64 << h) - 1,
        lo <= (1u64 << h) - 1,
    ensures
        ((hi << h) | lo) < (1u64 << (2 * h)),
{
}

proof fn bv_split_join(u: u64, l: u64, h: u64)
    by (bit_vector)
    requires
        1 <= h,
        h <= 32,
        u <= (1u64 << h) - 1,
        l <= (1u64 << h) - 1,
    ensures
        ((l << h) | u) >> h == l,
        ((l << h) | u) & (((1u64 << h) - 1) as u64) == u,
{
}

proof fn bv_join_split(x: u64, h: u64)
    by (bit_vector)
    requires
        h < 64,
    ensures
        ((x >> h) << h) | (x & (((1u64 << h) - 1) as u64)) == x,
{
}

/// Under a usable bit width the lower-half mask is the familiar
/// all-low-ones value, and the half width is between 1 and 32.
proof fn lemma_half_mask(b: u64)
    requires
        valid_bit_len(b),
    ensures
        half_mask(b) == (1u64 << (b / 2)) - 1,
        1 <= b / 2 && b / 2 <= 32,
{
    let h = b / 2;
    assert(1u64 << h >= 1) by (bit_vector)
        requires
            h < 64u64,
    ;
}

/// Undoing one round after doing it, or doing one after undoing it, is the
/// identity on states.
proof fn lemma_step_unstep(key: u64, st: (u64, u64), mask: u64)
    ensures
        feistel_unstep(key, feistel_step(key, st, mask), mask) == st,
        feistel_step(key, feistel_unstep(key, st, mask), mask) == st,
{
    bv_xor_cancel(st.0, wy_round(key, st.1) & mask);
    bv_xor_cancel(st.1, wy_round(key, st.0) & mask);
}

/// Undoing rounds `j..` after doing them is the identity on states.
proof fn lemma_unrounds_rounds(keys: Seq<u64>, j: nat, st: (u64, u64), mask: u64)
    ensures
        feistel_unrounds_from(keys, j, feistel_rounds_from(keys, j, st, mask), mask) == st,
    decreases keys.len() - j,
{
    if j < keys.len() {
        let s1 = feistel_step(keys[j as int], st, mask);
        lemma_unrounds_rounds(keys, (j + 1) as nat, s1, mask);
        lemma_step_unstep(keys[j as int], st, mask);
    }
}

/// Doing rounds `j..` after undoing them is the identity on states.
proof fn lemma_rounds_unrounds(keys: Seq<u64>, j: nat, st: (u64, u64), mask: u64)
    ensures
        feistel_rounds_from(keys, j, feistel_unrounds_from(keys, j, st, mask), mask) == st,
    decreases keys.len() - j,
{
    if j < keys.len() {
        let p = feistel_unrounds_from(keys, (j + 1) as nat, st, mask);
        lemma_rounds_unrounds(keys, (j + 1) as nat, st, mask);
        lemma_step_unstep(keys[j as int], p, mask);
    }
}

/// Rounds keep both halves below the lower-half mask.
proof fn lemma_rounds_bounds(keys: Seq<u64>, j: nat, st: (u64, u64), h: u64)
    requires
        1 <= h,
        h <= 32,
        st.0 <= (1u64 << h) - 1,
        st.1 <= (1u64 << h) - 1,
    ensures
        feistel_rounds_from(keys, j, st, ((1u64 << h) - 1) as u64).0 <= (1u64 << h) - 1,
        feistel_rounds_from(keys, j, st, ((1u64 << h) - 1) as u64).1 <= (1u64 << h) - 1,
    decreases keys.len() - j,
{
    if j < keys.len() {
        let m = ((1u64 << h) - 1) as u64;
        bv_xor_mask_closed(st.0, wy_round(keys[j as int], st.1), h);
        lemma_rounds_bounds(keys, (j + 1) as nat, feistel_step(keys[j as int], st, m), h);
    }
}

/// Undoing rounds keeps both halves below the lower-half mask.
proof fn lemma_unrounds_bounds(keys: Seq<u64>, j: nat, st: (u64, u64), h: u64)
    requires
        1 <= h,
        h <= 32,
        st.0 <= (1u64 << h) - 1,
        st.1 <= (1u64 << h) - 1,
    ensures
        feistel_unrounds_from(keys, j, st, ((1u64 << h) - 1) as u64).0 <= (1u64 << h) - 1,
        feistel_unrounds_from(keys, j, st, ((1u64 << h) - 1) as u64).1 <= (1u64 << h) - 1,
    decreases keys.len() - j,
{
    if j < keys.len() {
        let m = ((1u64 << h) - 1) as u64;
        let p = feistel_unrounds_from(keys, (j + 1) as nat, st, m);
        lemma_unrounds_bounds(keys, (j + 1) as nat, st, h);
        bv_xor_mask_closed(p.1, wy_round(keys[j as int], p.0), h);
    }
}

/// Splitting an in-domain value gives two halves below the mask.
proof fn lemma_split_bounds(b: u64, x: u64)
    requires
        valid_bit_len(b),
        in_domain(b, x),
    ensures
        x >> (b / 2) <= half_mask(b),
        x & half_mask(b) <= half_mask(b),
{
    let h = b / 2;
    lemma_half_mask(b);
    bv_and_le(x, half_mask(b));
    if b == 64 {
        bv_upper_half_64(x);
    } else {
        bv_upper_half(x, h);
    }
}

/// The permutation maps the domain into the domain.
pub proof fn lemma_permute_in_domain(keys: Seq<u64>, b: u64, x: u64)
    requires
        valid_bit_len(b),
        in_domain(b, x),
    ensures
        in_domain(b, spec_permute(keys, b, x)),
{
    let h = b / 2;
    lemma_half_mask(b);
    lemma_split_bounds(b, x);
    lemma_rounds_bounds(keys, 0, (x >> h, x & half_mask(b)), h);
    let st = feistel_rounds_from(keys, 0, (x >> h, x & half_mask(b)), half_mask(b));
    if b != 64 {
        bv_join_in_domain(st.1, st.0, h);
    }
}

/// Applying the inverse after the permutation recovers the input.
pub proof fn lemma_unpermute_permute(keys: Seq<u64>, b: u64, x: u64)
    requires
        valid_bit_len(b),
        in_domain(b, x),
    ensures
        spec_unpermute(keys, b, spec_permute(keys, b, x)) == x,
{
    let h = b / 2;
    let m = half_mask(b);
    lemma_half_mask(b);
    lemma_split_bounds(b, x);
    let st0 = (x >> h, x & m);
    lemma_rounds_bounds(keys, 0, st0, h);
    let st = feistel_rounds_from(keys, 0, st0, m);
    let y = spec_permute(keys, b, x);
    bv_split_join(st.0, st.1, h);
    assert((y & m, y >> h) == st);
    lemma_unrounds_rounds(keys, 0, st0, m);
    bv_join_split(x, h);
}

/// Applying the permutation after the inverse recovers the input, and the
/// inverse stays inside the domain.
pub proof fn lemma_permute_unpermute(keys: Seq<u64>, b: u64, y: u64)
    requires
        valid_bit_len(b),
        in_domain(b, y),
    ensures
        in_domain(b, spec_unpermute(keys, b, y)),
        spec_permute(keys, b, spec_unpermute(keys, b, y)) == y,
{
    let h = b / 2;
    let m = half_mask(b);
    lemma_half_mask(b);
    lemma_split_bounds(b, y);
    let st0 = (y & m, y >> h);
    lemma_unrounds_bounds(keys, 0, st0, h);
    let q = feistel_unrounds_from(keys, 0, st0, m);
    let x = spec_unpermute(keys, b, y);
    if b != 64 {
        bv_join_in_domain(q.0, q.1, h);
    }
    bv_split_join(q.1, q.0, h);
    assert((x >> h, x & m) == q);
    lemma_rounds_unrounds(keys, 0, st0, m);
    bv_join_split(y, h);
}

/// For every choice of round keys, the permutation is a bijection on the
/// `2^b`-value domain: it stays inside the domain, never sends two distinct
/// values to the same place, and reaches every value of the domain.
pub proof fn lemma_permute_bijective(keys: Seq<u64>, b: u64)
    requires
        valid_bit_len(b),
    ensures
        forall|x: u64| in_domain(b, x) ==> in_domain(b, #[trigger] spec_permute(keys, b, x)),
        forall|x: u64, y: u64|
            in_domain(b, x) && in_domain(b, y) && #[trigger] spec_permute(keys, b, x)
                == #[trigger] spec_permute(keys, b, y) ==> x == y,
        forall|y: u64|
            in_domain(b, y) ==> in_domain(b, #[trigger] spec_unpermute(keys, b, y))
                && spec_permute(keys, b, spec_unpermute(keys, b, y)) == y,
{
    assert forall|x: u64| in_domain(b, x) implies in_domain(
        b,
        #[trigger] spec_permute(keys, b, x),
    ) by {
        lemma_permute_in_domain(keys, b, x);
    }
    assert forall|x: u64, y: u64|
        in_domain(b, x) && in_domain(b, y) && #[trigger] spec_permute(keys, b, x)
            == #[trigger] spec_permute(keys, b, y) implies x == y by {
        lemma_unpermute_permute(keys, b, x);
        lemma_unpermute_permute(keys, b, y);
    }
    assert forall|y: u64| in_domain(b, y) implies in_domain(
        b,
        #[trigger] spec_unpermute(keys, b, y),
    ) && spec_permute(keys, b, spec_unpermute(keys, b, y)) == y by {
        lemma_permute_unpermute(keys, b, y);
    }
}

/// A keyed permutation engine: a balanced Feistel network whose round keys
/// may be replaced between calls to `permute`.
pub struct FeistelNetwork {
    keys: Vec<u64>,
    upper_shift: u8,
    lower_mask: u64,
}

impl FeistelNetwork {
    /// The bit width of the permuted domain.
    pub closed spec fn spec_bit_len(&self) -> u64 {
        (2 * (self.upper_shift as u64)) as u64
    }

    /// The round keys, in the order they are applied.
    pub closed spec fn spec_keys(&self) -> Seq<u64> {
        self.keys@
    }

    /// The cached shift and mask agree with the bit width, and the width is
    /// usable.
    pub closed spec fn wf(&self) -> bool {
        &&& valid_bit_len(self.spec_bit_len())
        &&& self.lower_mask == half_mask(self.spec_bit_len())
    }

    /// Creates a network permuting the smallest even-width power-of-two
    /// domain that covers `domain_len` values, with all eight round keys
    /// zero; key it with `rekey` before use.
    ///
    /// Rejects an empty domain.
    pub fn for_domain(domain_len: usize) -> (r: Result<FeistelNetwork, WordleError>)
        ensures
            r is Ok <==> domain_len > 0,
            r is Err ==> r == Result::<FeistelNetwork, WordleError>::Err(
                WordleError::InvalidDomain,
            ),
            r is Ok ==> {
                &&& r.unwrap().wf()
                &&& r.unwrap().spec_bit_len() == min_even_width(domain_len as u64)
                &&& domain_size(r.unwrap().spec_bit_len()) >= domain_len as u64
                &&& r.unwrap().spec_keys().len() == 8
                &&& forall|i: int| 0 <= i < 8 ==> r.unwrap().spec_keys()[i] == 0u64
            },
    {
        if domain_len == 0 {
            return Err(WordleError::InvalidDomain);
        }
        let n64: u64 = domain_len as u64;
        let x: u64 = n64 - 1;
        proof {
            lemma2_to64_rest();
            lemma_bit_length_le(x, 64);
            lemma_min_even_width(n64);
        }
        let mut bl: u8 = 0;
        let mut m: u64 = x;
        while m > 0
            invariant
                bit_length(x) == bl + bit_length(m),
                bit_length(x) <= 64,
            decreases m,
        {
            m = m / 2;
            bl = bl + 1;
        }
        let mut width: u8 = if bl == 0 {
            1
        } else {
            bl
        };
        if width % 2 == 1 {
            width = width + 1;
        }
        assert(width as u64 == min_even_width(n64));
        Self::new(width)
    }

    /// The bit width of the permuted domain: the permutation is a bijection
    /// on `[0, 2^bit_len())`.
    pub fn bit_len(&self) -> (r: u8)
        requires
            self.wf(),
        ensures
            r as u64 == self.spec_bit_len(),
    {
        self.upper_shift * 2
    }

    /// Creates a network permuting a domain of size `2^bit_len`, with all
    /// eight round keys zero; key it with `rekey` before use.
    ///
    /// Rejects a width that is zero, odd, or wider than 64 bits.
    pub fn new(bit_len: u8) -> (r: Result<FeistelNetwork, WordleError>)
        ensures
            r is Ok <==> (0 < bit_len && bit_len <= 64 && bit_len % 2 == 0),
            r is Err ==> r == Result::<FeistelNetwork, WordleError>::Err(
                WordleError::InvalidDomain,
            ),
            r is Ok ==> {
                &&& r.unwrap().wf()
                &&& r.unwrap().spec_bit_len() == bit_len as u64
                &&& r.unwrap().spec_keys().len() == 8
                &&& forall|i: int| 0 <= i < 8 ==> r.unwrap().spec_keys()[i] == 0u64
            },
    {
        if bit_len == 0 || bit_len > 64 || bit_len % 2 == 1 {
            return Err(WordleError::InvalidDomain);
        }
        let upper_shift: u8 = bit_len / 2;
        assert(1u64 << upper_shift >= 1) by (bit_vector)
            requires
                upper_shift < 64u8,
        ;
        let lower_mask: u64 = (1u64 << upper_shift) - 1;
        let mut keys: Vec<u64> = Vec::new();
        while keys.len() < 8
            invariant
                keys@.len() <= 8,
                forall|i: int| 0 <= i < keys@.len() ==> keys@[i] == 0u64,
            decreases 8 - keys@.len(),
        {
            keys.push(0);
        }
        assert(2 * ((bit_len / 2) as u64) == bit_len as u64);
        Ok(FeistelNetwork { keys, upper_shift, lower_mask })
    }

    /// Creates a network permuting a domain of size `2^bit_len` with the
    /// given round keys.
    ///
    /// Rejects a width that is zero, odd, or wider than 64 bits.
    pub fn with_keys(bit_len: u8, keys: Vec<u64>) -> (r: Result<FeistelNetwork, WordleError>)
        ensures
            r is Ok <==> (0 < bit_len && bit_len <= 64 && bit_len % 2 == 0),
            r is Err ==> r == Result::<FeistelNetwork, WordleError>::Err(
                WordleError::InvalidDomain,
            ),
            r is Ok ==> {
                &&& r.unwrap().wf()
                &&& r.unwrap().spec_bit_len() == bit_len as u64
                &&& r.unwrap().spec_keys() == keys@
            },
    {
        let mut network = match Self::new(bit_len) {
            Ok(network) => network,
            Err(e) => {
                return Err(e);
            },
        };
        network.rekey(keys);
        Ok(network)
    }

    /// Replaces every round key; the next call to `permute` uses the new
    /// keys.  The number of keys is the number of rounds.
    pub fn rekey(&mut self, keys: Vec<u64>)
        ensures
            final(self).spec_keys() == keys@,
            final(self).spec_bit_len() == old(self).spec_bit_len(),
            final(self).wf() == old(self).wf(),
    {
        self.keys = keys;
    }

    /// One keyed round function evaluation, truncated to the lower half.
    fn round(&self, lower: u64, key: u64) -> (r: u64)
        requires
            self.wf(),
        ensures
            r == wy_round(key, lower) & half_mask(self.spec_bit_len()),
    {
        wy_hash64(key, lower) & self.lower_mask
    }

    /// Applies the keyed permutation to `input`.
    ///
    /// For `input` inside the `2^bit_len` domain the result stays inside the
    /// domain and the map is a bijection (`lemma_permute_bijective`); an
    /// out-of-range `input` still yields a deterministic result.
    pub fn permute(&self, input: u64) -> (r: u64)
        requires
            self.wf(),
        ensures
            r == spec_permute(self.spec_keys(), self.spec_bit_len(), input),
            in_domain(self.spec_bit_len(), input) ==> in_domain(self.spec_bit_len(), r),
    {
        proof {
            assert(self.spec_bit_len() / 2 == self.upper_shift as u64);
            if in_domain(self.spec_bit_len(), input) {
                lemma_permute_in_domain(self.spec_keys(), self.spec_bit_len(), input);
            }
        }
        let mut upper = input >> self.upper_shift;
        let mut lower = input & self.lower_mask;
        let ghost st0 = (upper, lower);
        let n = self.keys.len();
        let mut i: usize = 0;
        while i < n
            invariant
                self.wf(),
                i <= n,
                n == self.spec_keys().len(),
                feistel_rounds_from(self.spec_keys(), i as nat, (upper, lower), self.lower_mask)
                    == feistel_rounds_from(self.spec_keys(), 0, st0, self.lower_mask),
            decreases n - i,
        {
            let f = self.round(lower, self.keys[i]);
            let new_lower = upper ^ f;
            upper = lower;
            lower = new_lower;
            i = i + 1;
        }
        (lower << self.upper_shift) | upper
    }
}

} // verus!

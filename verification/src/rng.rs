//! A seeded 64-bit generator and what the samplers draw from it: bounded
//! integers without modulo bias, permutations, and the raw draws behind the
//! random projection matrices.

use crate::error::{shape_error, shape_mismatch, verdict, PrimError};
use vstd::prelude::*;

verus! {

/// The odd constant that the generator's counter advances by.
pub const GAMMA: u64 = 0x9E37_79B9_7F4A_7C15;

/// The counter after one more draw.
pub open spec fn next_state(s: u64) -> u64 {
    s.wrapping_add(GAMMA)
}

/// The output mix of a counter value.
pub open spec fn mix(s: u64) -> u64 {
    let a = (s ^ (s >> 30)).wrapping_mul(0xBF58_476D_1CE4_E5B9);
    let b = (a ^ (a >> 27)).wrapping_mul(0x94D0_49BB_1331_11EB);
    b ^ (b >> 31)
}

/// The counter after `k` draws from a generator seeded with `seed`.
pub open spec fn state_after(seed: u64, k: nat) -> u64 {
    ((seed + k * GAMMA) % 0x1_0000_0000_0000_0000) as u64
}

/// The `i`-th output of a generator seeded with `seed`.
pub open spec fn stream(seed: u64, i: nat) -> u64 {
    mix(state_after(seed, i + 1))
}

/// The end of the last full block of `bound` outputs: the outputs from there on
/// are discarded, because they would favour the small residues.
pub open spec fn zone(bound: u64) -> int {
    u64::MAX - (u64::MAX % bound)
}

/// How many draws remain until the counter is back at zero.
pub open spec fn steps_to_zero(s: u64) -> nat {
    let m = ((0x1_0000_0000_0000_0000 - s) * 0xF1DE_83E1_9937_733D)
        % 0x1_0000_0000_0000_0000;
    if m == 0 {
        0x1_0000_0000_0000_0000
    } else {
        m as nat
    }
}

/// Each draw brings the counter one step closer to zero, until it is there.
pub proof fn lemma_steps_decrease(s: u64)
    ensures
        next_state(s) != 0 ==> steps_to_zero(next_state(s)) == steps_to_zero(s) - 1,
        steps_to_zero(s) >= 1,
{
    let big: int = 0x1_0000_0000_0000_0000;
    let inv: int = 0xF1DE_83E1_9937_733D;
    let over: int = 10771413168148108919;
    let t = next_state(s);
    let b: int = if s + GAMMA >= big {
        1
    } else {
        0
    };
    assert(t == s + GAMMA - big * b);
    assert(GAMMA * inv == 1 + big * over);
    let p = (big - s) * inv;
    let q = p / big;
    let m = p % big;
    vstd::arithmetic::div_mod::lemma_fundamental_div_mod(p, big);
    let p2 = (big - t) * inv;
    assert(p2 == p - 1 + big * (b * inv - over));
    if m >= 1 {
        vstd::arithmetic::div_mod::lemma_fundamental_div_mod_converse(
            p2,
            big,
            q + b * inv - over,
            m - 1,
        );
    } else {
        vstd::arithmetic::div_mod::lemma_fundamental_div_mod_converse(
            p2,
            big,
            q + b * inv - over - 1,
            big - 1,
        );
    }
    if t != 0 {
        let m2 = p2 % big;
        let q2 = p2 / big;
        vstd::arithmetic::div_mod::lemma_fundamental_div_mod(p2, big);
        if m2 == 0 {
            let k = q2 * GAMMA - (big - t) * over;
            assert(big - t == big * k);
            assert(false);
        }
    }
}

/// The counter value zero is mixed to zero.
pub proof fn lemma_mix_zero()
    ensures
        mix(0) == 0,
{
    assert(0u64 ^ (0u64 >> 30) == 0u64) by (bit_vector);
    assert(0u64 ^ (0u64 >> 27) == 0u64) by (bit_vector);
    assert(0u64 ^ (0u64 >> 31) == 0u64) by (bit_vector);
}

/// A discarded output leaves fewer draws to go, because the counter value zero
/// gives an output that is never discarded.
pub proof fn lemma_rejection_progress(s: u64, bound: u64)
    requires
        bound >= 1,
        mix(next_state(s)) >= zone(bound),
    ensures
        steps_to_zero(next_state(s)) < steps_to_zero(s),
{
    lemma_steps_decrease(s);
    lemma_mix_zero();
    vstd::arithmetic::div_mod::lemma_mod_bound(u64::MAX as int, bound as int);
    vstd::arithmetic::div_mod::lemma_mod_decreases(u64::MAX as nat, bound as nat);
    if bound > 1 {
        assert(u64::MAX % bound < u64::MAX);
    }
}

/// A bounded draw from counter `s`: the value, and the counter after it. The
/// first output below [`zone`] is reduced modulo `bound`; a bound of at most
/// one takes no draw.
pub open spec fn below(s: u64, bound: u64) -> (u64, u64)
    decreases steps_to_zero(s),
{
    if bound <= 1 {
        (0, s)
    } else {
        let t = next_state(s);
        if mix(t) < zone(bound) {
            (mix(t) % bound, t)
        } else {
            proof {
                lemma_rejection_progress(s, bound);
            }
            below(t, bound)
        }
    }
}

/// A bounded draw lies below its bound.
pub proof fn lemma_below_in_range(s: u64, bound: u64)
    requires
        bound >= 1,
    ensures
        below(s, bound).0 < bound,
    decreases steps_to_zero(s),
{
    if bound > 1 {
        let t = next_state(s);
        if mix(t) < zone(bound) {
        } else {
            lemma_rejection_progress(s, bound);
            lemma_below_in_range(t, bound);
        }
    }
}

/// No modulo bias: every residue `r` has the same number of kept outputs,
/// `zone / bound` of them. For each `k` below that number `k * bound + r` is
/// kept and reduces to `r`, and a kept output `v` that reduces to `r` is one of
/// these.
pub proof fn lemma_below_unbiased(bound: u64, r: int, k: int, v: int)
    requires
        bound >= 1,
        0 <= r < bound,
        0 <= k < zone(bound) / bound as int,
        0 <= v < zone(bound),
        v % bound as int == r,
    ensures
        k * bound + r < zone(bound),
        (k * bound + r) % bound as int == r,
        0 <= v / bound as int,
        v / (bound as int) < zone(bound) / bound as int,
        v == (v / bound as int) * bound + r,
{
    let b = bound as int;
    let z = zone(bound);
    let q = u64::MAX as int / b;
    vstd::arithmetic::div_mod::lemma_fundamental_div_mod(u64::MAX as int, b);
    assert(z == b * q);
    vstd::arithmetic::div_mod::lemma_fundamental_div_mod_converse(z, b, q, 0);
    vstd::arithmetic::div_mod::lemma_fundamental_div_mod(v, b);
    let w = v / b;
    assert(0 <= w < q && v == w * b + r) by (nonlinear_arith)
        requires
            v == b * w + r,
            0 <= r < b,
            0 <= v < b * q,
    ;
    assert(k * b + r < b * q) by (nonlinear_arith)
        requires
            0 <= k < q,
            0 <= r < b,
    ;
    vstd::arithmetic::div_mod::lemma_fundamental_div_mod_converse(k * b + r, b, k, r);
}

/// SplitMix64: a small deterministic generator. Its whole state is a counter,
/// so a run is fixed by its seed.
#[derive(Debug)]
pub struct SplitMix64 {
    state: u64,
}

impl View for SplitMix64 {
    type V = u64;

    closed spec fn view(&self) -> u64 {
        self.state
    }
}

impl SplitMix64 {
    /// A generator seeded with `seed`.
    pub fn new(seed: u64) -> (r: SplitMix64)
        ensures
            r@ == seed,
    {
        SplitMix64 { state: seed }
    }

    /// The next 64-bit output.
    pub fn next_u64(&mut self) -> (r: u64)
        ensures
            final(self)@ == next_state(old(self)@),
            r == mix(final(self)@),
    {
        self.state = self.state.wrapping_add(0x9E37_79B9_7F4A_7C15);
        let mut z: u64 = self.state;
        z = (z ^ (z >> 30)).wrapping_mul(0xBF58_476D_1CE4_E5B9);
        z = (z ^ (z >> 27)).wrapping_mul(0x94D0_49BB_1331_11EB);
        z ^ (z >> 31)
    }

    /// The numerator, over 2^53, of the next uniform value in `[0, 1)`.
    pub fn next_unit_numerator(&mut self) -> (r: u64)
        ensures
            final(self)@ == next_state(old(self)@),
            r == unit_numerator(mix(final(self)@)),
            r < 0x20_0000_0000_0000,
    {
        let v: u64 = self.next_u64();
        assert((v >> 11) < 0x20_0000_0000_0000u64) by (bit_vector);
        v >> 11
    }

    /// A uniform integer below `bound`, by rejection: outputs in the ragged
    /// last block are drawn again. A bound of zero gives zero.
    pub fn next_below(&mut self, bound: u64) -> (r: u64)
        ensures
            r == below(old(self)@, bound).0,
            final(self)@ == below(old(self)@, bound).1,
            bound >= 1 ==> r < bound,
            bound == 0 ==> r == 0,
    {
        if bound <= 1 {
            return 0;
        }
        proof {
            lemma_below_in_range(old(self)@, bound);
        }
        let tail: u64 = u64::MAX % bound;
        let limit: u64 = u64::MAX - tail;
        loop
            invariant
                bound > 1,
                limit == zone(bound),
                below(self@, bound) == below(old(self)@, bound),
                below(old(self)@, bound).0 < bound,
            decreases steps_to_zero(self@),
        {
            let ghost before = self@;
            let v: u64 = self.next_u64();
            if v < limit {
                return v % bound;
            }
            proof {
                lemma_rejection_progress(before, bound);
            }
        }
    }
}

/// The top 53 bits of an output.
pub open spec fn unit_numerator(v: u64) -> u64 {
    v >> 11
}

// ---------------------------------------------------------------------------
// Permutations
// ---------------------------------------------------------------------------

/// `0, 1, .., n - 1`.
pub open spec fn identity(n: nat) -> Seq<usize> {
    Seq::new(n, |i: int| i as usize)
}

/// A sequence with two of its entries exchanged.
pub open spec fn swapped<T>(s: Seq<T>, i: int, j: int) -> Seq<T> {
    s.update(i, s[j]).update(j, s[i])
}

/// The Fisher-Yates shuffle of the entries up to `i`, last entry first, with
/// one bounded draw per entry from counter `s`.
pub open spec fn fisher_yates(perm: Seq<usize>, i: nat, s: u64) -> Seq<usize>
    decreases i,
{
    if i == 0 {
        perm
    } else {
        let d = below(s, (i + 1) as u64);
        fisher_yates(swapped(perm, i as int, d.0 as int), (i - 1) as nat, d.1)
    }
}

/// The permutation of `0..n` that `seed` fixes.
pub open spec fn permutation_of(seed: u64, n: nat) -> Seq<usize> {
    if n < 2 {
        identity(n)
    } else {
        fisher_yates(identity(n), (n - 1) as nat, seed)
    }
}

/// Every index below `n` exactly once.
pub open spec fn is_permutation(p: Seq<usize>, n: nat) -> bool {
    &&& p.len() == n
    &&& p.no_duplicates()
    &&& forall|i: int| 0 <= i < n ==> #[trigger] p[i] < n
    &&& forall|v: usize| v < n ==> #[trigger] p.contains(v)
}

proof fn lemma_swap_keeps_permutation(p: Seq<usize>, n: nat, i: int, j: int)
    requires
        is_permutation(p, n),
        0 <= i < n,
        0 <= j < n,
    ensures
        is_permutation(swapped(p, i, j), n),
{
    let q = swapped(p, i, j);
    assert forall|v: usize| v < n implies #[trigger] q.contains(v) by {
        assert(p.contains(v));
        let k = choose|k: int| 0 <= k < p.len() && p[k] == v;
        if k == i {
            assert(q[j] == v);
        } else if k == j {
            assert(q[i] == v);
        } else {
            assert(q[k] == v);
        }
    }
}

proof fn lemma_fisher_yates_permutes(p: Seq<usize>, n: nat, i: nat, s: u64)
    requires
        is_permutation(p, n),
        i < n,
        n <= usize::MAX,
    ensures
        is_permutation(fisher_yates(p, i, s), n),
    decreases i,
{
    if i > 0 {
        let d = below(s, (i + 1) as u64);
        lemma_below_in_range(s, (i + 1) as u64);
        lemma_swap_keeps_permutation(p, n, i as int, d.0 as int);
        lemma_fisher_yates_permutes(swapped(p, i as int, d.0 as int), n, (i - 1) as nat, d.1);
    }
}

/// Whatever the seed, [`permutation`] returns every index below `n` exactly
/// once.
pub proof fn lemma_permutation_is_one(seed: u64, n: nat)
    requires
        n <= usize::MAX,
    ensures
        is_permutation(permutation_of(seed, n), n),
{
    let p = identity(n);
    assert forall|v: usize| v < n implies #[trigger] p.contains(v) by {
        assert(p[v as int] == v);
    }
    assert(is_permutation(p, n));
    if n >= 2 {
        lemma_fisher_yates_permutes(p, n, (n - 1) as nat, seed);
    }
}

/// `0, 1, .., n - 1` as a vector.
pub fn identity_vec(n: usize) -> (r: Vec<usize>)
    ensures
        r@ == identity(n as nat),
{
    let mut v: Vec<usize> = Vec::new();
    let mut i: usize = 0;
    while i < n
        invariant
            i <= n,
            v@ == identity(i as nat),
        decreases n - i,
    {
        v.push(i);
        i = i + 1;
        assert(v@ =~= identity(i as nat));
    }
    v
}

/// Exchanges two entries of a vector.
pub fn swap_entries<T: Copy>(v: &mut Vec<T>, i: usize, j: usize)
    requires
        i < old(v).len(),
        j < old(v).len(),
    ensures
        final(v)@ == swapped(old(v)@, i as int, j as int),
{
    let a: T = v[i];
    let b: T = v[j];
    v.set(i, b);
    v.set(j, a);
}

/// The unbiased permutation of `0..n` that `seed` fixes.
pub fn permutation(seed: u64, n: usize) -> (r: Vec<usize>)
    ensures
        r@ == permutation_of(seed, n as nat),
        is_permutation(r@, n as nat),
{
    proof {
        lemma_permutation_is_one(seed, n as nat);
    }
    let mut perm: Vec<usize> = identity_vec(n);
    if n < 2 {
        return perm;
    }
    let mut rng: SplitMix64 = SplitMix64::new(seed);
    let mut i: usize = n - 1;
    while i > 0
        invariant
            i < n,
            n == perm@.len(),
            fisher_yates(perm@, i as nat, rng@) == permutation_of(seed, n as nat),
        decreases i,
    {
        let j: usize = rng.next_below(i as u64 + 1) as usize;
        swap_entries(&mut perm, i, j);
        i = i - 1;
    }
    perm
}

// ---------------------------------------------------------------------------
// Random projection matrices
// ---------------------------------------------------------------------------

/// Why a projection matrix of this shape is refused: an axis is empty.
pub open spec fn projection_fault(n_components: usize, n_features: usize) -> Option<PrimError> {
    if n_components == 0 {
        Some(shape_error("n_components", n_components, n_features, 0))
    } else if n_features == 0 {
        Some(shape_error("n_features", n_components, n_features, 0))
    } else {
        None
    }
}

/// Refuses a projection matrix with an empty axis.
pub fn validate_shape(n_components: usize, n_features: usize) -> (r: Result<(), PrimError>)
    ensures
        r == verdict(projection_fault(n_components, n_features)),
{
    if n_components == 0 {
        return Err(shape_mismatch("n_components", n_components, n_features, 0));
    }
    if n_features == 0 {
        return Err(shape_mismatch("n_features", n_components, n_features, 0));
    }
    Ok(())
}

/// One draw moves the counter one step along its stream.
pub proof fn lemma_state_after_step(seed: u64, k: nat)
    ensures
        next_state(state_after(seed, k)) == state_after(seed, k + 1),
        state_after(seed, 0) == seed,
{
    let big: int = 0x1_0000_0000_0000_0000;
    let x = seed + k * GAMMA;
    assert(seed + (k + 1) * GAMMA == x + GAMMA) by (nonlinear_arith)
        requires
            x == seed + k * GAMMA,
    ;
    let a = state_after(seed, k) as int;
    assert(x >= 0) by (nonlinear_arith)
        requires
            x == seed + k * GAMMA,
            seed >= 0,
    ;
    vstd::arithmetic::div_mod::lemma_mod_bound(x, big);
    assert(a == x % big);
    vstd::arithmetic::div_mod::lemma_add_mod_noop_right(GAMMA as int, x, big);
    assert((GAMMA + a) % big == (GAMMA + x) % big);
    vstd::arithmetic::div_mod::lemma_small_mod(seed as nat, big as nat);
    assert(0 * GAMMA == 0);
    if a + GAMMA < big {
        vstd::arithmetic::div_mod::lemma_small_mod((a + GAMMA) as nat, big as nat);
    } else {
        vstd::arithmetic::div_mod::lemma_fundamental_div_mod_converse(
            a + GAMMA,
            big,
            1,
            a + GAMMA - big,
        );
    }
}

/// The uniform draws behind a Gaussian projection matrix: one pair of 53-bit
/// numerators for every two entries, in drawing order. Entry `2 * p` takes the
/// cosine and entry `2 * p + 1` the sine of pair `p`.
pub fn gaussian_matrix_draws(seed: u64, n_components: usize, n_features: usize) -> (r: Result<
    Vec<(u64, u64)>,
    PrimError,
>)
    requires
        n_components * n_features <= usize::MAX,
    ensures
        match projection_fault(n_components, n_features) {
            Some(e) => r == Err::<Vec<(u64, u64)>, PrimError>(e),
            None => r matches Ok(pairs) && pairs@.len() == crate::arith::ceil_div_int(
                n_components * n_features,
                2,
            ) && forall|p: int|
                0 <= p < pairs@.len() ==> #[trigger] pairs@[p] == (
                    unit_numerator(stream(seed, (2 * p) as nat)),
                    unit_numerator(stream(seed, (2 * p + 1) as nat)),
                ),
        },
{
    match validate_shape(n_components, n_features) {
        Err(e) => {
            return Err(e);
        },
        Ok(()) => {},
    }
    let count: usize = n_components * n_features;
    let n_pairs: usize = crate::arith::ceil_div(count, 2);
    let mut rng: SplitMix64 = SplitMix64::new(seed);
    let mut pairs: Vec<(u64, u64)> = Vec::new();
    let mut p: usize = 0;
    proof {
        lemma_state_after_step(seed, 0);
    }
    while p < n_pairs
        invariant
            p <= n_pairs,
            pairs@.len() == p,
            rng@ == state_after(seed, (2 * p) as nat),
            forall|q: int|
                0 <= q < p ==> #[trigger] pairs@[q] == (
                    unit_numerator(stream(seed, (2 * q) as nat)),
                    unit_numerator(stream(seed, (2 * q + 1) as nat)),
                ),
        decreases n_pairs - p,
    {
        proof {
            lemma_state_after_step(seed, (2 * p) as nat);
            lemma_state_after_step(seed, (2 * p + 1) as nat);
        }
        let first: u64 = rng.next_unit_numerator();
        let second: u64 = rng.next_unit_numerator();
        pairs.push((first, second));
        p = p + 1;
    }
    Ok(pairs)
}

/// An entry of a sparse projection matrix, before it is scaled.
#[derive(Debug, Clone, Copy, PartialEq, Eq, Structural)]
pub enum Sign {
    Plus,
    Minus,
    Zero,
}

/// Which entry a 53-bit draw gives: plus below the first threshold, minus below
/// the second, zero otherwise.
pub open spec fn sign_of(u: u64, half: u64, full: u64) -> Sign {
    if u < half {
        Sign::Plus
    } else if u < full {
        Sign::Minus
    } else {
        Sign::Zero
    }
}

/// Why a sparse projection matrix is refused.
pub open spec fn sparse_fault(
    n_components: usize,
    n_features: usize,
    density_in_range: bool,
) -> Option<PrimError> {
    match projection_fault(n_components, n_features) {
        Some(e) => Some(e),
        None => if density_in_range {
            None
        } else {
            Some(shape_error("density", 0, 1, 0))
        },
    }
}

/// The signs of a sparse projection matrix, row-major: one draw per entry,
/// compared with the numerators over 2^53 (rounded up) of half the density and
/// of the density. `density_in_range` says that the density is in `(0, 1]`.
pub fn sparse_achlioptas_signs(
    seed: u64,
    n_components: usize,
    n_features: usize,
    density_in_range: bool,
    half: u64,
    full: u64,
) -> (r: Result<Vec<Sign>, PrimError>)
    requires
        n_components * n_features <= usize::MAX,
    ensures
        match sparse_fault(n_components, n_features, density_in_range) {
            Some(e) => r == Err::<Vec<Sign>, PrimError>(e),
            None => r matches Ok(signs) && signs@.len() == n_components * n_features && forall|
                i: int,
            |
                0 <= i < signs@.len() ==> #[trigger] signs@[i] == sign_of(
                    unit_numerator(stream(seed, i as nat)),
                    half,
                    full,
                ),
        },
{
    match validate_shape(n_components, n_features) {
        Err(e) => {
            return Err(e);
        },
        Ok(()) => {},
    }
    if !density_in_range {
        return Err(shape_mismatch("density", 0, 1, 0));
    }
    let count: usize = n_components * n_features;
    let mut rng: SplitMix64 = SplitMix64::new(seed);
    let mut signs: Vec<Sign> = Vec::new();
    let mut i: usize = 0;
    proof {
        lemma_state_after_step(seed, 0);
    }
    while i < count
        invariant
            i <= count,
            signs@.len() == i,
            rng@ == state_after(seed, i as nat),
            forall|k: int|
                0 <= k < i ==> #[trigger] signs@[k] == sign_of(
                    unit_numerator(stream(seed, k as nat)),
                    half,
                    full,
                ),
        decreases count - i,
    {
        proof {
            lemma_state_after_step(seed, i as nat);
        }
        let u: u64 = rng.next_unit_numerator();
        let e: Sign = if u < half {
            Sign::Plus
        } else if u < full {
            Sign::Minus
        } else {
            Sign::Zero
        };
        signs.push(e);
        i = i + 1;
    }
    Ok(signs)
}

// ---------------------------------------------------------------------------
// What the draws amount to
// ---------------------------------------------------------------------------

/// Outputs are kept up to a whole number of blocks of `bound`, the largest that
/// the outputs have room for: less than one block is discarded.
pub proof fn lemma_zone_is_whole(bound: u64)
    requires
        bound >= 1,
    ensures
        zone(bound) % bound as int == 0,
        0 <= u64::MAX - zone(bound) < bound,
{
    vstd::arithmetic::div_mod::lemma_fundamental_div_mod(u64::MAX as int, bound as int);
    let q = u64::MAX as int / bound as int;
    assert(zone(bound) == bound * q);
    vstd::arithmetic::div_mod::lemma_mod_multiples_basic(q, bound as int);
    assert(q * bound == bound * q) by (nonlinear_arith);
}

/// A bounded draw is the first output that is kept, modulo the bound: `j` outputs
/// were discarded before it, and the counter stands behind it.
pub proof fn lemma_below_is_first_kept(s: u64, bound: u64) -> (j: nat)
    requires
        bound > 1,
    ensures
        stream(s, j) < zone(bound),
        below(s, bound).0 == stream(s, j) % bound,
        below(s, bound).1 == state_after(s, j + 1),
        forall|i: nat| i < j ==> #[trigger] stream(s, i) >= zone(bound),
    decreases steps_to_zero(s),
{
    lemma_below_step(s, bound);
    let t = next_state(s);
    if mix(t) < zone(bound) {
        0
    } else {
        lemma_rejection_progress(s, bound);
        let k = lemma_below_is_first_kept(t, bound);
        lemma_discarded_before(s, bound, k);
        k + 1
    }
}

proof fn lemma_below_step(s: u64, bound: u64)
    requires
        bound > 1,
    ensures
        stream(s, 0) == mix(next_state(s)),
        state_after(s, 1) == next_state(s),
        mix(next_state(s)) < zone(bound) ==> below(s, bound) == (
            (mix(next_state(s)) % bound) as u64,
            next_state(s),
        ),
        mix(next_state(s)) >= zone(bound) ==> below(s, bound) == below(next_state(s), bound),
{
    lemma_state_after_step(s, 0);
}

proof fn lemma_discarded_before(s: u64, bound: u64, k: nat)
    requires
        stream(s, 0) >= zone(bound),
        forall|i: nat| i < k ==> #[trigger] stream(next_state(s), i) >= zone(bound),
    ensures
        forall|i: nat| i < k + 1 ==> #[trigger] stream(s, i) >= zone(bound),
        stream(s, k + 1) == stream(next_state(s), k),
        state_after(s, k + 2) == state_after(next_state(s), k + 1),
{
    lemma_stream_shifts(s, k);
    lemma_stream_shifts(s, k + 1);
    assert forall|i: nat| i < k + 1 implies #[trigger] stream(s, i) >= zone(bound) by {
        if i > 0 {
            lemma_stream_shifts(s, (i - 1) as nat);
            assert(stream(next_state(s), (i - 1) as nat) >= zone(bound));
        }
    }
}

/// A generator that has made one draw goes on as one seeded with its counter:
/// its outputs are those of the stream from the second on.
pub proof fn lemma_stream_shifts(seed: u64, i: nat)
    ensures
        stream(seed, 0) == mix(next_state(seed)),
        stream(seed, i + 1) == stream(next_state(seed), i),
        state_after(next_state(seed), i) == state_after(seed, i + 1),
    decreases i,
{
    lemma_state_after_step(seed, 0);
    lemma_state_after_step(next_state(seed), 0);
    if i > 0 {
        lemma_stream_shifts(seed, (i - 1) as nat);
    }
    lemma_state_after_step(seed, i);
    lemma_state_after_step(seed, i + 1);
    lemma_state_after_step(next_state(seed), i);
    if i > 0 {
        lemma_state_after_step(next_state(seed), (i - 1) as nat);
    }
}

/// A uniform value has the leading 53 bits of an output: the output divided by
/// two to the eleventh.
pub proof fn lemma_unit_numerator(v: u64)
    ensures
        unit_numerator(v) == v / 2048,
        unit_numerator(v) < 0x20_0000_0000_0000,
{
    assert(v >> 11 == v / 2048) by (bit_vector);
}

/// A shuffle draws every entry among all that are left: the entry at place `i`
/// comes from a place drawn below `i + 1`, and what stands after it stays.
pub proof fn lemma_shuffle_draws_from_all_left(perm: Seq<usize>, i: nat, s: u64, j: int)
    requires
        1 <= i < perm.len() <= usize::MAX,
        i < j < perm.len(),
    ensures
        fisher_yates(perm, i, s)[i as int] == perm[below(s, (i + 1) as u64).0 as int],
        fisher_yates(perm, i, s)[j] == perm[j],
{
    let d = below(s, (i + 1) as u64);
    lemma_below_in_range(s, (i + 1) as u64);
    let next = swapped(perm, i as int, d.0 as int);
    lemma_shuffle_leaves_later(next, (i - 1) as nat, d.1, i as int);
    lemma_shuffle_leaves_later(next, (i - 1) as nat, d.1, j);
}

proof fn lemma_shuffle_leaves_later(perm: Seq<usize>, i: nat, s: u64, j: int)
    requires
        i < perm.len() <= usize::MAX,
        i < j < perm.len(),
    ensures
        fisher_yates(perm, i, s)[j] == perm[j],
        fisher_yates(perm, i, s).len() == perm.len(),
    decreases i,
{
    if i > 0 {
        let d = below(s, (i + 1) as u64);
        lemma_below_in_range(s, (i + 1) as u64);
        lemma_shuffle_leaves_later(swapped(perm, i as int, d.0 as int), (i - 1) as nat, d.1, j);
    }
}

/// The last entry of a permutation is a draw below `n`, any of which can come
/// out, and the others are shuffled in turn by the draws that follow.
pub proof fn lemma_permutation_last(seed: u64, n: nat)
    requires
        2 <= n <= usize::MAX,
    ensures
        permutation_of(seed, n).len() == n,
        permutation_of(seed, n)[n - 1] == below(seed, n as u64).0,
{
    let d = below(seed, n as u64);
    lemma_below_in_range(seed, n as u64);
    lemma_permutation_is_one(seed, n);
    let next = swapped(identity(n), n - 1, d.0 as int);
    if n >= 2 {
        lemma_shuffle_leaves_later(next, (n - 2) as nat, d.1, n - 1);
    }
}

/// Exchanging two entries moves each to the other's place and leaves the rest.
pub proof fn lemma_swapped<T>(s: Seq<T>, i: int, j: int, k: int)
    requires
        0 <= i < s.len(),
        0 <= j < s.len(),
        0 <= k < s.len(),
    ensures
        swapped(s, i, j).len() == s.len(),
        swapped(s, i, j)[i] == s[j],
        swapped(s, i, j)[j] == s[i],
        k != i && k != j ==> swapped(s, i, j)[k] == s[k],
{
}

/// A projection matrix is accepted exactly where it has components and features;
/// a sparse one needs a density in range too.
pub proof fn lemma_projection_accepted(n_components: usize, n_features: usize, in_range: bool)
    ensures
        projection_fault(n_components, n_features) is None <==> n_components >= 1 && n_features
            >= 1,
        sparse_fault(n_components, n_features, in_range) is None <==> n_components >= 1
            && n_features >= 1 && in_range,
{
}

/// Half of the kept draws of a sparse matrix are plus and half minus: plus takes
/// the draws below the half mark, minus those from there to the full mark, and
/// zero the rest.
pub proof fn lemma_signs(u: u64, half: u64, full: u64)
    requires
        half <= full,
    ensures
        sign_of(u, half, full) == Sign::Plus <==> u < half,
        sign_of(u, half, full) == Sign::Minus <==> half <= u < full,
        sign_of(u, half, full) == Sign::Zero <==> full <= u,
{
}

/// A refused projection matrix names the empty axis, the components first, and a sparse
/// one then its density.
pub proof fn lemma_projection_refusals(
    n_components: usize,
    n_features: usize,
    in_range: bool,
)
    ensures
        n_components == 0 ==> sparse_fault(n_components, n_features, in_range) == Some(
            PrimError::ShapeMismatch { operand: "n_components", rows: 0, cols: n_features, len: 0 },
        ),
        n_components != 0 && n_features == 0
            ==> sparse_fault(n_components, n_features, in_range) == Some(
            PrimError::ShapeMismatch { operand: "n_features", rows: n_components, cols: 0, len: 0 },
        ),
        n_components != 0 && n_features != 0 && !in_range
            ==> sparse_fault(n_components, n_features, in_range) == Some(
            PrimError::ShapeMismatch { operand: "density", rows: 0, cols: 1, len: 0 },
        ),
{
}

} // verus!

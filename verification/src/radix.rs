//! Least-significant-digit radix sort over order-preserving keys: the sort
//! behind the quantile bin edges.

use crate::float_order::{
    f32_from_total_key, f32_total_key, f64_from_total_key, f64_total_key, total_value32,
    total_value64, SIGN32, SIGN64,
};
use crate::seqs::{ascending, injective_into};
use vstd::prelude::*;

verus! {

/// The byte of a key above the digits that `base` covers.
pub open spec fn digit(k: u64, base: int) -> int {
    (k as int / base) % 256
}

/// How many keys have a byte below `b`.
pub open spec fn count_below(s: Seq<u64>, base: int, b: int) -> int
    decreases s.len(),
{
    if s.len() == 0 {
        0
    } else {
        count_below(s.drop_last(), base, b) + if digit(s.last(), base) < b {
            1int
        } else {
            0int
        }
    }
}

/// How many keys have the byte `b`.
pub open spec fn count_digit(s: Seq<u64>, base: int, b: int) -> int {
    count_below(s, base, b + 1) - count_below(s, base, b)
}

/// Ascending in the digits below `base`.
pub open spec fn ascending_mod(s: Seq<u64>, base: int) -> bool {
    forall|i: int, j: int|
        0 <= i <= j < s.len() ==> #[trigger] (s[i] as int % base) <= #[trigger] (s[j] as int
            % base)
}

/// Where a stable counting pass puts the key at position `j`.
pub open spec fn slot(s: Seq<u64>, base: int, j: int) -> int {
    count_below(s, base, digit(s[j], base)) + count_digit(s.take(j), base, digit(s[j], base))
}

proof fn lemma_count_bounds(s: Seq<u64>, base: int, b: int, c: int)
    requires
        b <= c,
        base > 0,
    ensures
        0 <= count_below(s, base, b) <= count_below(s, base, c) <= s.len(),
        b <= 0 ==> count_below(s, base, b) == 0,
        c >= 256 ==> count_below(s, base, c) == s.len(),
    decreases s.len(),
{
    if s.len() > 0 {
        lemma_count_bounds(s.drop_last(), base, b, c);
        vstd::arithmetic::div_mod::lemma_mod_bound(s.last() as int / base, 256);
    }
}

proof fn lemma_count_prefix(s: Seq<u64>, base: int, b: int, i: int, j: int)
    requires
        0 <= i <= j <= s.len(),
        base > 0,
    ensures
        count_digit(s.take(i), base, b) <= count_digit(s.take(j), base, b),
        i < j && digit(s[i], base) == b ==> count_digit(s.take(i), base, b) < count_digit(
            s.take(j),
            base,
            b,
        ),
        count_digit(s.take(j), base, b) <= count_digit(s, base, b),
    decreases s.len() - j + j - i,
{
    if i < j {
        assert(s.take(i + 1).drop_last() =~= s.take(i));
        assert(s.take(i + 1).last() == s[i]);
        lemma_count_prefix(s, base, b, i + 1, j);
    } else if j < s.len() {
        assert(s.take(j + 1).drop_last() =~= s.take(j));
        assert(s.take(j + 1).last() == s[j]);
        lemma_count_prefix(s, base, b, j + 1, j + 1);
    } else {
        assert(s.take(j) =~= s);
    }
}

/// Slots are in range, distinct, and ordered first by byte, then by position.
proof fn lemma_slots(s: Seq<u64>, base: int, i: int, j: int)
    requires
        0 <= i < s.len(),
        0 <= j < s.len(),
        base > 0,
    ensures
        0 <= slot(s, base, i) < s.len(),
        digit(s[i], base) < digit(s[j], base) ==> slot(s, base, i) < slot(s, base, j),
        digit(s[i], base) == digit(s[j], base) && i < j ==> slot(s, base, i) < slot(s, base, j),
{
    let a = digit(s[i], base);
    let b = digit(s[j], base);
    lemma_count_prefix(s, base, a, i, i + 1);
    lemma_count_prefix(s, base, a, i + 1, i + 1);
    lemma_count_bounds(s, base, a, a + 1);
    lemma_count_bounds(s.take(i), base, a, a + 1);
    lemma_count_bounds(s.take(j), base, b, b + 1);
    lemma_count_prefix(s, base, a, i, s.len() as int);
    assert(s.take(s.len() as int) =~= s);
    if a < b {
        lemma_count_bounds(s, base, a + 1, b);
    }
    if a == b && i < j {
        lemma_count_prefix(s, base, a, i, j);
    }
}

/// The positions that a pass writes to, in reading order.
spec fn slots(s: Seq<u64>, base: int) -> Seq<int> {
    Seq::new(s.len(), |j: int| slot(s, base, j))
}

proof fn lemma_slots_injective(s: Seq<u64>, base: int)
    requires
        base > 0,
    ensures
        injective_into(slots(s, base), s.len() as int),
{
    let f = slots(s, base);
    assert forall|i: int| 0 <= i < f.len() implies 0 <= #[trigger] f[i] < s.len() by {
        lemma_slots(s, base, i, i);
    }
    assert forall|i: int, j: int| 0 <= i < f.len() && 0 <= j < f.len() && i != j implies f[i]
        != f[j] by {
        lemma_slots(s, base, i, j);
        lemma_slots(s, base, j, i);
    }
}

/// A key below `256 * base` digits splits into its byte and its lower digits.
proof fn lemma_digit_split(k: u64, base: int)
    requires
        base > 0,
    ensures
        k as int % (256 * base) == digit(k, base) * base + k as int % base,
        0 <= k as int % base < base,
        0 <= digit(k, base) < 256,
{
    let x = k as int;
    vstd::arithmetic::div_mod::lemma_fundamental_div_mod(x, base);
    vstd::arithmetic::div_mod::lemma_fundamental_div_mod(x / base, 256);
    vstd::arithmetic::div_mod::lemma_mod_bound(x, base);
    vstd::arithmetic::div_mod::lemma_mod_bound(x / base, 256);
    let q = x / base;
    let r = x % base;
    let hi = q / 256;
    let d = q % 256;
    assert(x == (256 * base) * hi + (d * base + r)) by (nonlinear_arith)
        requires
            x == base * q + r,
            q == 256 * hi + d,
    ;
    assert(0 <= d * base + r < 256 * base) by (nonlinear_arith)
        requires
            0 <= d < 256,
            0 <= r < base,
    ;
    vstd::arithmetic::div_mod::lemma_fundamental_div_mod_converse(
        x,
        256 * base,
        hi,
        d * base + r,
    );
}

/// A stable scatter by the next byte extends the sorted digits by that byte.
proof fn lemma_pass_sorts(s: Seq<u64>, t: Seq<u64>, base: int)
    requires
        base > 0,
        s.len() == t.len(),
        ascending_mod(s, base),
        forall|j: int| 0 <= j < s.len() ==> t[#[trigger] slot(s, base, j)] == s[j],
    ensures
        ascending_mod(t, 256 * base),
        s.to_multiset() == t.to_multiset(),
{
    let f = slots(s, base);
    lemma_slots_injective(s, base);
    assert forall|j: int| 0 <= j < s.len() implies t[#[trigger] f[j]] == s[j] by {
        assert(f[j] == slot(s, base, j));
    }
    crate::seqs::lemma_scatter_keeps_items(s, t, f);
    assert forall|p: int, q: int| 0 <= p <= q < t.len() implies #[trigger] (t[p] as int % (256
        * base)) <= #[trigger] (t[q] as int % (256 * base)) by {
        crate::seqs::lemma_injective_is_onto(f, p);
        crate::seqs::lemma_injective_is_onto(f, q);
        let i = choose|i: int| 0 <= i < f.len() && #[trigger] f[i] == p;
        let j = choose|j: int| 0 <= j < f.len() && #[trigger] f[j] == q;
        lemma_slots(s, base, i, j);
        lemma_slots(s, base, j, i);
        lemma_digit_split(s[i], base);
        lemma_digit_split(s[j], base);
        let a = digit(s[i], base);
        let b = digit(s[j], base);
        assert(a <= b);
        let ra = s[i] as int % base;
        let rb = s[j] as int % base;
        if a < b {
            assert(a * base + ra <= b * base + rb) by (nonlinear_arith)
                requires
                    a + 1 <= b,
                    0 <= ra < base,
                    0 <= rb,
            ;
        } else {
            assert(i <= j);
        }
    }
}

/// Counts the keys of each byte value.
fn byte_counts(keys: &Vec<u64>, base: u64) -> (cnt: Vec<usize>)
    requires
        base > 0,
    ensures
        cnt.len() == 256,
        forall|b: int| 0 <= b < 256 ==> #[trigger] cnt[b] == count_digit(keys@, base as int, b),
{
    let mut cnt: Vec<usize> = vec![0; 256];
    let mut i: usize = 0;
    while i < keys.len()
        invariant
            i <= keys.len(),
            base > 0,
            cnt.len() == 256,
            forall|b: int|
                0 <= b < 256 ==> #[trigger] cnt[b] == count_digit(
                    keys@.take(i as int),
                    base as int,
                    b,
                ),
        decreases keys.len() - i,
    {
        let d: usize = ((keys[i] / base) % 256) as usize;
        proof {
            assert(keys@.take(i + 1).drop_last() =~= keys@.take(i as int));
            assert(keys@.take(i + 1).last() == keys[i as int]);
            assert(d == digit(keys[i as int], base as int));
            lemma_count_bounds(keys@.take(i as int), base as int, 0, d as int);
            lemma_count_bounds(keys@.take(i as int), base as int, d as int, d + 1);
        }
        let c: usize = cnt[d];
        cnt.set(d, c + 1);
        i = i + 1;
    }
    assert(keys@.take(i as int) =~= keys@);
    cnt
}

/// Turns counts into the first position of each byte value.
fn byte_starts(keys: &Vec<u64>, base: u64, cnt: &Vec<usize>) -> (pos: Vec<usize>)
    requires
        base > 0,
        cnt.len() == 256,
        forall|b: int| 0 <= b < 256 ==> #[trigger] cnt[b] == count_digit(keys@, base as int, b),
    ensures
        pos.len() == 256,
        forall|b: int| 0 <= b < 256 ==> #[trigger] pos[b] == count_below(keys@, base as int, b),
{
    let mut pos: Vec<usize> = vec![0; 256];
    let mut acc: usize = 0;
    let mut b: usize = 0;
    let n: usize = keys.len();
    proof {
        lemma_count_bounds(keys@, base as int, 0, 256);
    }
    while b < 256
        invariant
            b <= 256,
            base > 0,
            n == keys.len(),
            cnt.len() == 256,
            pos.len() == 256,
            acc == count_below(keys@, base as int, b as int),
            forall|c: int| 0 <= c < 256 ==> #[trigger] cnt[c] == count_digit(keys@, base as int, c),
            forall|c: int| 0 <= c < b ==> #[trigger] pos[c] == count_below(keys@, base as int, c),
        decreases 256 - b,
    {
        pos.set(b, acc);
        proof {
            lemma_count_bounds(keys@, base as int, b as int, b + 1);
            assert(acc + cnt[b as int] <= n);
        }
        acc = acc + cnt[b];
        b = b + 1;
    }
    pos
}

/// Whether one byte value holds every key, so that the pass moves nothing.
fn one_byte_holds_all(keys: &Vec<u64>, base: u64, cnt: &Vec<usize>) -> (r: bool)
    requires
        base > 0,
        cnt.len() == 256,
        forall|b: int| 0 <= b < 256 ==> #[trigger] cnt[b] == count_digit(keys@, base as int, b),
    ensures
        r == exists|b: int|
            0 <= b < 256 && #[trigger] count_digit(keys@, base as int, b) == keys.len(),
{
    let mut b: usize = 0;
    while b < 256
        invariant
            b <= 256,
            cnt.len() == 256,
            forall|c: int| 0 <= c < 256 ==> #[trigger] cnt[c] == count_digit(keys@, base as int, c),
            forall|c: int|
                0 <= c < b ==> #[trigger] count_digit(keys@, base as int, c) != keys.len(),
        decreases 256 - b,
    {
        if cnt[b] == keys.len() {
            assert(count_digit(keys@, base as int, b as int) == keys.len());
            return true;
        }
        b = b + 1;
    }
    false
}

proof fn lemma_all_one_digit(s: Seq<u64>, base: int, b: int)
    requires
        base > 0,
        count_digit(s, base, b) == s.len(),
    ensures
        forall|i: int| 0 <= i < s.len() ==> digit(#[trigger] s[i], base) == b,
    decreases s.len(),
{
    if s.len() > 0 {
        let p = s.drop_last();
        lemma_count_bounds(p, base, b, b + 1);
        assert(digit(s.last(), base) == b);
        lemma_all_one_digit(p, base, b);
        assert forall|i: int| 0 <= i < s.len() implies digit(#[trigger] s[i], base) == b by {
            if i < p.len() {
                assert(p[i] == s[i]);
            }
        }
    }
}

/// One counting pass: sorts by the byte above `base`, keeping the order of keys
/// with the same byte.
fn counting_pass(keys: &Vec<u64>, base: u64) -> (out: Vec<u64>)
    requires
        base > 0,
        ascending_mod(keys@, base as int),
    ensures
        out.len() == keys.len(),
        ascending_mod(out@, 256 * base),
        out@.to_multiset() == keys@.to_multiset(),
{
    let n: usize = keys.len();
    let cnt: Vec<usize> = byte_counts(keys, base);
    if one_byte_holds_all(keys, base, &cnt) {
        let mut out: Vec<u64> = Vec::new();
        let mut i: usize = 0;
        while i < n
            invariant
                i <= n,
                n == keys.len(),
                out@ == keys@.take(i as int),
            decreases n - i,
        {
            out.push(keys[i]);
            i = i + 1;
            assert(out@ =~= keys@.take(i as int));
        }
        proof {
            assert(out@ =~= keys@);
            let b = choose|b: int| 0 <= b < 256 && count_digit(keys@, base as int, b) == n;
            lemma_all_one_digit(keys@, base as int, b);
            assert forall|p: int, q: int| 0 <= p <= q < n implies #[trigger] (out@[p] as int % (
            256 * base)) <= #[trigger] (out@[q] as int % (256 * base)) by {
                lemma_digit_split(keys@[p], base as int);
                lemma_digit_split(keys@[q], base as int);
                assert(digit(keys@[p], base as int) == digit(keys@[q], base as int));
                assert(keys@[p] as int % base as int <= keys@[q] as int % base as int);
            }
        }
        return out;
    }
    let mut pos: Vec<usize> = byte_starts(keys, base, &cnt);
    let mut out: Vec<u64> = vec![0; n];
    let mut i: usize = 0;
    proof {
        assert(keys@.take(0) =~= Seq::<u64>::empty());
    }
    while i < n
        invariant
            i <= n,
            n == keys.len(),
            base > 0,
            pos.len() == 256,
            out.len() == n,
            forall|b: int|
                0 <= b < 256 ==> #[trigger] pos[b] == count_below(keys@, base as int, b)
                    + count_digit(keys@.take(i as int), base as int, b),
            forall|j: int| 0 <= j < i ==> out@[#[trigger] slot(keys@, base as int, j)] == keys@[j],
        decreases n - i,
    {
        let k: u64 = keys[i];
        let d: usize = ((k / base) % 256) as usize;
        let p: usize = pos[d];
        proof {
            assert(d == digit(k, base as int));
            assert(p == slot(keys@, base as int, i as int));
            lemma_slots(keys@, base as int, i as int, i as int);
            assert forall|j: int| 0 <= j < i implies #[trigger] slot(keys@, base as int, j) != p
                && 0 <= slot(keys@, base as int, j) < n by {
                lemma_slots(keys@, base as int, i as int, j);
                lemma_slots(keys@, base as int, j, i as int);
            }
            assert(keys@.take(i + 1).drop_last() =~= keys@.take(i as int));
            assert(keys@.take(i + 1).last() == k);
        }
        out.set(p, k);
        pos.set(d, p + 1);
        i = i + 1;
    }
    proof {
        lemma_pass_sorts(keys@, out@, base as int);
    }
    out
}

/// `256` to the `p`.
pub open spec fn pow256(p: nat) -> int
    decreases p,
{
    if p == 0 {
        1
    } else {
        256 * pow256((p - 1) as nat)
    }
}

/// Sorts keys of at most `passes` bytes in ascending order.
pub fn radix_sort_keys(keys: Vec<u64>, passes: u32) -> (out: Vec<u64>)
    requires
        passes <= 8,
        forall|i: int| 0 <= i < keys.len() ==> #[trigger] keys[i] < pow256(passes as nat),
    ensures
        out.len() == keys.len(),
        ascending(out@),
        out@.to_multiset() == keys@.to_multiset(),
        forall|i: int, j: int|
            0 <= i <= j < out@.len() ==> (#[trigger] out@[i]) <= (#[trigger] out@[j]),
{
    broadcast use vstd::seq_lib::group_to_multiset_ensures;

    let ghost src = keys@;
    let mut cur: Vec<u64> = keys;
    let mut pass: u32 = 0;
    let mut base: u64 = 1;
    proof {
        reveal_with_fuel(pow256, 9);
    }
    while pass < passes
        invariant
            pass <= passes <= 8,
            pass < passes ==> base == pow256(pass as nat),
            base > 0,
            cur.len() == src.len(),
            ascending_mod(cur@, pow256(pass as nat)),
            cur@.to_multiset() == src.to_multiset(),
        decreases passes - pass,
    {
        let next: Vec<u64> = counting_pass(&cur, base);
        cur = next;
        pass = pass + 1;
        proof {
            reveal_with_fuel(pow256, 9);
        }
        if pass < passes {
            base = base * 256;
        }
    }
    proof {
        let m = pow256(passes as nat);
        reveal_with_fuel(pow256, 9);
        assert forall|i: int| 0 <= i < cur.len() implies #[trigger] cur@[i] < m by {
            assert(cur@.contains(cur@[i]));
            assert(cur@.to_multiset().count(cur@[i]) > 0);
            assert(src.contains(cur@[i]));
        }
        assert forall|i: int, j: int| 0 <= i <= j < cur.len() implies cur@[i] <= cur@[j] by {
            vstd::arithmetic::div_mod::lemma_small_mod(cur@[i] as nat, m as nat);
            vstd::arithmetic::div_mod::lemma_small_mod(cur@[j] as nat, m as nat);
            assert(cur@[i] as int % m <= cur@[j] as int % m);
        }
    }
    cur
}

/// Patterns in ascending total order.
pub open spec fn ascending_total64(s: Seq<u64>) -> bool {
    forall|i: int, j: int|
        0 <= i <= j < s.len() ==> #[trigger] total_value64(s[i]) <= #[trigger] total_value64(s[j])
}

/// Whether a list is the sorting of another in the total order.
pub open spec fn is_sorting_of(sorted: Seq<u64>, col: Seq<u64>) -> bool {
    ascending_total64(sorted) && sorted.to_multiset() == col.to_multiset()
}

/// The sorting of a list in the total order.
pub open spec fn sorting(col: Seq<u64>) -> Seq<u64> {
    col.sort_by(|x: u64, y: u64| total_value64(x) <= total_value64(y))
}

/// Every list has a sorting.
pub proof fn lemma_sorting(col: Seq<u64>)
    ensures
        is_sorting_of(sorting(col), col),
{
    let leq = |x: u64, y: u64| total_value64(x) <= total_value64(y);
    assert(vstd::relations::total_ordering(leq)) by {
        assert forall|x: u64, y: u64| #[trigger] leq(x, y) && #[trigger] leq(y, x) implies x
            == y by {
            crate::float_order::lemma_total_value_injective(x, y);
        }
    }
    col.lemma_sort_by_ensures(leq);
    let s = sorting(col);
    assert forall|i: int, j: int| 0 <= i <= j < s.len() implies #[trigger] total_value64(s[i])
        <= #[trigger] total_value64(s[j]) by {
        if i < j {
            assert(leq(s[i], s[j]));
        }
    }
}

/// 32-bit patterns in ascending total order.
pub open spec fn ascending_total32(s: Seq<u32>) -> bool {
    forall|i: int, j: int|
        0 <= i <= j < s.len() ==> #[trigger] total_value32(s[i]) <= #[trigger] total_value32(s[j])
}

proof fn lemma_map_multiset<A, B>(s: Seq<A>, t: Seq<A>, f: spec_fn(A) -> B)
    requires
        s.to_multiset() == t.to_multiset(),
    ensures
        s.map_values(f).to_multiset() == t.map_values(f).to_multiset(),
    decreases s.len(),
{
    broadcast use vstd::seq_lib::group_to_multiset_ensures;

    assert(s.len() == s.to_multiset().len());
    assert(t.len() == t.to_multiset().len());
    if s.len() == 0 {
        assert(s.map_values(f) =~= t.map_values(f));
    } else {
        let x = s.last();
        assert(s.contains(x));
        assert(t.to_multiset().count(x) > 0);
        assert(t.contains(x));
        let j = choose|j: int| 0 <= j < t.len() && t[j] == x;
        let s2 = s.remove(s.len() - 1);
        let t2 = t.remove(j);
        lemma_map_multiset(s2, t2, f);
        assert(s2.map_values(f) =~= s.map_values(f).remove(s.len() - 1));
        assert(t2.map_values(f) =~= t.map_values(f).remove(j));
        let ms = s.map_values(f);
        let mt = t.map_values(f);
        assert(ms.contains(ms[s.len() - 1]));
        assert(mt.contains(mt[j]));
        assert(ms.to_multiset() =~= ms.to_multiset().remove(f(x)).insert(f(x)));
        assert(mt.to_multiset() =~= mt.to_multiset().remove(f(x)).insert(f(x)));
    }
}

/// A column has one sorting in the total order: whatever sorts it, the result
/// is the same bit for bit.
pub proof fn lemma_sorting_unique(a: Seq<u64>, b: Seq<u64>)
    requires
        ascending_total64(a),
        ascending_total64(b),
        a.to_multiset() == b.to_multiset(),
    ensures
        a == b,
{
    let leq = |x: u64, y: u64| total_value64(x) <= total_value64(y);
    assert(vstd::relations::total_ordering(leq)) by {
        assert forall|x: u64, y: u64| #[trigger] leq(x, y) && #[trigger] leq(y, x) implies x
            == y by {
            crate::float_order::lemma_total_value_injective(x, y);
        }
    }
    assert(vstd::relations::sorted_by(a, leq));
    assert(vstd::relations::sorted_by(b, leq));
    vstd::seq_lib::lemma_sorted_unique(a, b, leq);
}

/// Sorts a column of 64-bit floating-point patterns in the total order.
pub fn radix_sort_total(col: &Vec<u64>) -> (out: Vec<u64>)
    ensures
        out.len() == col.len(),
        ascending_total64(out@),
        out@.to_multiset() == col@.to_multiset(),
        forall|i: int, j: int|
            0 <= i <= j < out@.len() ==> total_value64(#[trigger] out@[i]) <= total_value64(
                #[trigger] out@[j],
            ),
{
    let n: usize = col.len();
    let mut keys: Vec<u64> = Vec::new();
    let mut i: usize = 0;
    while i < n
        invariant
            i <= n,
            n == col.len(),
            keys.len() == i,
            forall|j: int| 0 <= j < i ==> #[trigger] keys[j] == total_value64(col[j]) + SIGN64,
        decreases n - i,
    {
        keys.push(f64_total_key(col[i]));
        i = i + 1;
    }
    let ghost unsorted = keys@;
    proof {
        reveal_with_fuel(pow256, 9);
    }
    let sorted: Vec<u64> = radix_sort_keys(keys, 8);
    let mut out: Vec<u64> = Vec::new();
    let mut k: usize = 0;
    while k < n
        invariant
            k <= n,
            n == sorted.len(),
            out.len() == k,
            forall|j: int| 0 <= j < k ==> sorted[j] == total_value64(#[trigger] out[j]) + SIGN64,
        decreases n - k,
    {
        out.push(f64_from_total_key(sorted[k]));
        k = k + 1;
    }
    proof {
        let back = |x: u64| choose|b: u64| x == total_value64(b) + SIGN64;
        assert forall|b: u64| #![auto] back((total_value64(b) + SIGN64) as u64) == b by {
            let x = (total_value64(b) + SIGN64) as u64;
            assert(x == total_value64(b) + SIGN64);
            let c = choose|c: u64| x == total_value64(c) + SIGN64;
            assert(x == total_value64(c) + SIGN64);
        }
        lemma_map_multiset(unsorted, sorted@, back);
        assert(unsorted.map_values(back) =~= col@) by {
            assert forall|j: int| 0 <= j < n implies back(#[trigger] unsorted[j]) == col@[j] by {
                assert(unsorted[j] == (total_value64(col@[j]) + SIGN64) as u64);
            }
        }
        assert(sorted@.map_values(back) =~= out@) by {
            assert forall|j: int| 0 <= j < n implies back(#[trigger] sorted@[j]) == out@[j] by {
                assert(sorted@[j] == (total_value64(out@[j]) + SIGN64) as u64);
            }
        }
        assert forall|i: int, j: int| 0 <= i <= j < out.len() implies #[trigger] total_value64(
            out@[i],
        ) <= #[trigger] total_value64(out@[j]) by {
            assert(sorted@[i] <= sorted@[j]);
        }
    }
    out
}

/// Sorts a column of 32-bit floating-point patterns in the total order; its
/// keys take half the passes.
pub fn radix_sort_total_f32(col: &Vec<u32>) -> (out: Vec<u32>)
    ensures
        out.len() == col.len(),
        ascending_total32(out@),
        out@.to_multiset() == col@.to_multiset(),
        forall|i: int, j: int|
            0 <= i <= j < out@.len() ==> total_value32(#[trigger] out@[i]) <= total_value32(
                #[trigger] out@[j],
            ),
{
    let n: usize = col.len();
    let mut keys: Vec<u64> = Vec::new();
    let mut i: usize = 0;
    while i < n
        invariant
            i <= n,
            n == col.len(),
            keys.len() == i,
            forall|j: int|
                0 <= j < i ==> #[trigger] keys[j] == total_value32(col[j]) + SIGN32 && keys[j]
                    <= u32::MAX,
        decreases n - i,
    {
        keys.push(f32_total_key(col[i]) as u64);
        i = i + 1;
    }
    let ghost unsorted = keys@;
    proof {
        reveal_with_fuel(pow256, 9);
    }
    let sorted: Vec<u64> = radix_sort_keys(keys, 4);
    proof {
        broadcast use vstd::seq_lib::group_to_multiset_ensures;

        assert forall|j: int| 0 <= j < n implies #[trigger] sorted@[j] <= u32::MAX by {
            assert(sorted@.contains(sorted@[j]));
            assert(sorted@.to_multiset().count(sorted@[j]) > 0);
            assert(unsorted.contains(sorted@[j]));
        }
    }
    let mut out: Vec<u32> = Vec::new();
    let mut k: usize = 0;
    while k < n
        invariant
            k <= n,
            n == sorted.len(),
            out.len() == k,
            forall|j: int| 0 <= j < n ==> #[trigger] sorted@[j] <= u32::MAX,
            forall|j: int| 0 <= j < k ==> sorted[j] == total_value32(#[trigger] out[j]) + SIGN32,
        decreases n - k,
    {
        out.push(f32_from_total_key(sorted[k] as u32));
        k = k + 1;
    }
    proof {
        let back = |x: u64| choose|b: u32| x == total_value32(b) + SIGN32;
        assert forall|b: u32| #![auto] back((total_value32(b) + SIGN32) as u64) == b by {
            let x = (total_value32(b) + SIGN32) as u64;
            assert(x == total_value32(b) + SIGN32);
            let c = choose|c: u32| x == total_value32(c) + SIGN32;
            assert(x == total_value32(c) + SIGN32);
        }
        lemma_map_multiset(unsorted, sorted@, back);
        assert(unsorted.map_values(back) =~= col@) by {
            assert forall|j: int| 0 <= j < n implies back(#[trigger] unsorted[j]) == col@[j] by {
                assert(unsorted[j] == (total_value32(col@[j]) + SIGN32) as u64);
            }
        }
        assert(sorted@.map_values(back) =~= out@) by {
            assert forall|j: int| 0 <= j < n implies back(#[trigger] sorted@[j]) == out@[j] by {
                assert(sorted@[j] == (total_value32(out@[j]) + SIGN32) as u64);
            }
        }
        assert forall|i: int, j: int| 0 <= i <= j < out.len() implies #[trigger] total_value32(
            out@[i],
        ) <= #[trigger] total_value32(out@[j]) by {
            assert(sorted@[i] <= sorted@[j]);
        }
    }
    out
}

/// The sorting of a list of numbers runs from the lowest value to the highest.
pub proof fn lemma_sorting_ascends(col: Seq<u64>, i: int, j: int)
    requires
        0 <= i <= j < col.len(),
        crate::float_order::all_numbers(col),
    ensures
        sorting(col).len() == col.len(),
        col.contains(sorting(col)[i]),
        crate::float_order::order_value64(sorting(col)[i]) <= crate::float_order::order_value64(
            sorting(col)[j],
        ),
{
    broadcast use vstd::seq_lib::group_to_multiset_ensures;

    let s = sorting(col);
    lemma_sorting(col);
    assert(s.len() == col.len()) by {
        assert(s.to_multiset().len() == s.len());
        assert(col.to_multiset().len() == col.len());
    }
    assert forall|p: int| 0 <= p < s.len() implies col.contains(#[trigger] s[p]) by {
        assert(s.contains(s[p]));
        assert(col.to_multiset().count(s[p]) > 0);
    }
    assert(col.contains(s[i]) && col.contains(s[j]));
    assert(total_value64(s[i]) <= total_value64(s[j]));
    crate::float_order::lemma_total_refines_order(s[i], s[j]);
}

} // verus!

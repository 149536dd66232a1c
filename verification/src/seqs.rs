//! Facts about sequences that several modules rest on.

use vstd::prelude::*;

verus! {

/// Ascending order.
pub open spec fn ascending(s: Seq<u64>) -> bool {
    forall|i: int, j: int| 0 <= i <= j < s.len() ==> s[i] <= s[j]
}

/// Distinct positions, all below `n`.
pub open spec fn injective_into(f: Seq<int>, n: int) -> bool {
    &&& f.no_duplicates()
    &&& forall|i: int| 0 <= i < f.len() ==> 0 <= #[trigger] f[i] < n
}

/// As many distinct positions as there are positions leave none out.
pub proof fn lemma_injective_is_onto(f: Seq<int>, p: int)
    requires
        injective_into(f, f.len() as int),
        0 <= p < f.len(),
    ensures
        exists|j: int| 0 <= j < f.len() && #[trigger] f[j] == p,
{
    let n = f.len() as int;
    let all = vstd::set_lib::set_int_range(0, n);
    vstd::set_lib::lemma_int_range(0, n);
    f.unique_seq_to_set();
    assert(f.to_set().subset_of(all)) by {
        assert forall|x: int| f.to_set().contains(x) implies all.contains(x) by {
            let i = choose|i: int| 0 <= i < f.len() && f[i] == x;
            assert(0 <= f[i] < n);
        }
    }
    vstd::set_lib::lemma_subset_equality(f.to_set(), all);
    assert(f.to_set().contains(p));
    assert(f.contains(p));
}

/// Writing every item of `s` to a position of its own gives a rearrangement.
pub proof fn lemma_scatter_keeps_items<T>(s: Seq<T>, t: Seq<T>, f: Seq<int>)
    requires
        s.len() == t.len(),
        f.len() == s.len(),
        injective_into(f, s.len() as int),
        forall|j: int| 0 <= j < s.len() ==> t[#[trigger] f[j]] == s[j],
    ensures
        s.to_multiset() == t.to_multiset(),
    decreases s.len(),
{
    broadcast use vstd::seq_lib::group_to_multiset_ensures;

    if s.len() == 0 {
        assert(s =~= t);
    } else {
        let n = s.len() as int;
        let last = f[n - 1];
        let s2 = s.drop_last();
        let t2 = t.remove(last);
        let f2 = Seq::new(
            (n - 1) as nat,
            |j: int|
                if f[j] > last {
                    f[j] - 1
                } else {
                    f[j]
                },
        );
        assert forall|j: int| 0 <= j < f2.len() implies 0 <= #[trigger] f2[j] < n - 1 && t2[f2[j]]
            == s2[j] by {
            assert(f[j] != f[n - 1]);
            assert(0 <= f[j] < n);
            assert(t[f[j]] == s[j]);
        }
        assert forall|i: int, j: int| 0 <= i < f2.len() && 0 <= j < f2.len() && i != j implies f2[i]
            != f2[j] by {
            assert(f[i] != f[j]);
            assert(f[i] != f[n - 1]);
            assert(f[j] != f[n - 1]);
        }
        lemma_scatter_keeps_items(s2, t2, f2);
        assert(s =~= s2.push(s[n - 1]));
        assert(t[f[n - 1]] == s[n - 1]);
        assert(t.to_multiset().remove(t[last]).insert(t[last]) =~= t.to_multiset()) by {
            assert(t.contains(t[last]));
            assert(t.to_multiset().count(t[last]) > 0);
        }
    }
}

/// Block `k` of a sequence cut into blocks of `n`.
pub open spec fn block<T>(s: Seq<T>, k: int, n: int) -> Seq<T> {
    s.subrange(k * n, k * n + n)
}

/// Appending a block of `n` to whole blocks keeps the earlier ones.
pub proof fn lemma_append_block<T>(s: Seq<T>, t: Seq<T>, m: int, n: int)
    requires
        m >= 0,
        n >= 0,
        s.len() == m * n,
        t.len() == n,
    ensures
        (s + t).len() == (m + 1) * n,
        block(s + t, m, n) == t,
        forall|k: int| 0 <= k < m ==> #[trigger] block(s + t, k, n) == block(s, k, n),
{
    assert((m + 1) * n == m * n + n) by (nonlinear_arith);
    assert(block(s + t, m, n) =~= t);
    assert forall|k: int| 0 <= k < m implies #[trigger] block(s + t, k, n) == block(s, k, n) by {
        assert(0 <= k * n && k * n + n <= m * n) by (nonlinear_arith)
            requires
                0 <= k < m,
                n >= 0,
        ;
        assert(block(s + t, k, n) =~= block(s, k, n));
    }
}

/// Appends a copy of `src` to `dst`.
pub fn append_all<T: Copy>(dst: &mut Vec<T>, src: &Vec<T>)
    ensures
        final(dst)@ == old(dst)@ + src@,
{
    let mut i: usize = 0;
    let ghost base = dst@;
    assert(base + src@.take(0) =~= base);
    while i < src.len()
        invariant
            i <= src.len(),
            dst@ == base + src@.take(i as int),
        decreases src.len() - i,
    {
        dst.push(src[i]);
        i = i + 1;
        assert(dst@ =~= base + src@.take(i as int));
    }
    assert(src@.take(i as int) =~= src@);
}

/// The sum of a count list.
pub open spec fn sum_counts(c: Seq<u32>) -> int
    decreases c.len(),
{
    if c.len() == 0 {
        0
    } else {
        sum_counts(c.drop_last()) + c.last()
    }
}

/// A longer prefix has no smaller sum.
pub proof fn lemma_sum_monotone(c: Seq<u32>, i: int, j: int)
    requires
        0 <= i <= j <= c.len(),
    ensures
        0 <= sum_counts(c.take(i)) <= sum_counts(c.take(j)),
    decreases j - i,
{
    if i < j {
        lemma_sum_monotone(c, i, j - 1);
        assert(c.take(j).drop_last() =~= c.take(j - 1));
    } else {
        lemma_sum_nonneg(c.take(i));
    }
}

/// Sums of counts are not negative.
pub proof fn lemma_sum_nonneg(c: Seq<u32>)
    ensures
        sum_counts(c) >= 0,
    decreases c.len(),
{
    if c.len() > 0 {
        lemma_sum_nonneg(c.drop_last());
    }
}

/// Sums add up over concatenation.
pub proof fn lemma_sum_append(a: Seq<u32>, b: Seq<u32>)
    ensures
        sum_counts(a + b) == sum_counts(a) + sum_counts(b),
    decreases b.len(),
{
    if b.len() == 0 {
        assert(a + b =~= a);
    } else {
        lemma_sum_append(a, b.drop_last());
        assert((a + b).drop_last() =~= a + b.drop_last());
        assert((a + b).last() == b.last());
    }
}

/// The sum of a range is a difference of prefix sums.
pub proof fn lemma_sum_subrange(c: Seq<u32>, i: int, j: int)
    requires
        0 <= i <= j <= c.len(),
    ensures
        sum_counts(c.subrange(i, j)) == sum_counts(c.take(j)) - sum_counts(c.take(i)),
{
    assert(c.take(j) =~= c.take(i) + c.subrange(i, j));
    lemma_sum_append(c.take(i), c.subrange(i, j));
}

/// Whether label `i` names one of `n_classes` classes.
pub open spec fn label_ok(y: Seq<u32>, n_classes: usize, i: int) -> bool {
    y[i] < n_classes
}

/// Whether `i` is the first label that names no class.
pub open spec fn first_bad_label(y: Seq<u32>, n_classes: usize, i: int) -> bool {
    &&& 0 <= i < y.len()
    &&& !label_ok(y, n_classes, i)
    &&& forall|j: int| 0 <= j < i ==> #[trigger] label_ok(y, n_classes, j)
}

/// A copy of a vector.
pub fn copy_vec<T: Copy>(v: &Vec<T>) -> (r: Vec<T>)
    ensures
        r@ == v@,
{
    let mut out: Vec<T> = Vec::new();
    let mut i: usize = 0;
    while i < v.len()
        invariant
            i <= v.len(),
            out@ == v@.take(i as int),
        decreases v.len() - i,
    {
        out.push(v[i]);
        i = i + 1;
        assert(out@ =~= v@.take(i as int));
    }
    assert(v@.take(i as int) =~= v@);
    out
}

/// A label is fine exactly where it lies below the class count; the first bad
/// one does not, and all before it do.
pub proof fn lemma_labels(y: Seq<u32>, n_classes: usize, i: int)
    ensures
        label_ok(y, n_classes, i) <==> y[i] < n_classes,
        first_bad_label(y, n_classes, i) <==> 0 <= i < y.len() && y[i] >= n_classes && forall|
            j: int,
        |
            0 <= j < i ==> #[trigger] y[j] < n_classes,
{
    if first_bad_label(y, n_classes, i) {
        assert forall|j: int| 0 <= j < i implies #[trigger] y[j] < n_classes by {
            assert(label_ok(y, n_classes, j));
        }
    }
}

/// One count is its own sum, and none is zero.
pub proof fn lemma_sum_one(c: u32)
    ensures
        sum_counts(seq![c]) == c,
        sum_counts(Seq::empty()) == 0,
{
    assert(seq![c].drop_last() =~= Seq::<u32>::empty());
    assert(sum_counts(seq![c].drop_last()) == 0);
}

/// Blocks of a sequence stand one after the other, each of the same length.
pub proof fn lemma_block<T>(s: Seq<T>, k: int, n: int, i: int)
    requires
        k >= 0,
        0 <= i < n,
        k * n + n <= s.len(),
    ensures
        block(s, k, n).len() == n,
        block(s, k, n)[i] == s[k * n + i],
{
    assert(k * n >= 0) by (nonlinear_arith)
        requires
            k >= 0,
            n >= 0,
    ;
}

} // verus!

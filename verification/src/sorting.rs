//! Stable insertion sorts used by the quantizer, with their mathematical
//! models.
//!
//! Three orders are needed: pixel values ascending (for the histogram),
//! nodes by one color channel ascending with ties by count descending (for
//! the median search inside a box), and nodes by count descending (for the
//! final palette).  Every exec sort returns exactly the sequence that the
//! corresponding spec-level insertion sort describes, so stability is part
//! of the contract.

use vstd::prelude::*;

use crate::color::ColorNode;

verus! {

/// Color-space axis along which a box is sorted and split.
#[derive(Debug, Clone, Copy, PartialEq, Eq, Structural)]
pub enum ColorDimension {
    Red,
    Green,
    Blue,
}

/// The channel of `n` selected by `dim`.
pub open spec fn chan(n: ColorNode, dim: ColorDimension) -> u8 {
    match dim {
        ColorDimension::Red => n.red,
        ColorDimension::Green => n.grn,
        ColorDimension::Blue => n.blu,
    }
}

/// Total preorder: descending pixel count.
pub open spec fn cnt_desc_leq() -> spec_fn(ColorNode, ColorNode) -> bool {
    |a: ColorNode, b: ColorNode| a.cnt >= b.cnt
}

/// Total preorder: selected channel ascending, ties by count descending.
pub open spec fn dim_leq(dim: ColorDimension) -> spec_fn(ColorNode, ColorNode) -> bool {
    |a: ColorNode, b: ColorNode|
        chan(a, dim) < chan(b, dim) || (chan(a, dim) == chan(b, dim) && a.cnt >= b.cnt)
}

/// Sum of the pixel counts of all nodes of `s`.
pub open spec fn sum_cnt(s: Seq<ColorNode>) -> int
    decreases s.len(),
{
    if s.len() == 0 {
        0
    } else {
        sum_cnt(s.drop_last()) + s.last().cnt
    }
}

/// Every node of `s` counts at least one pixel.
pub open spec fn all_cnt_pos(s: Seq<ColorNode>) -> bool {
    forall|i: int| 0 <= i < s.len() ==> (#[trigger] s[i]).cnt >= 1
}

/// Number of occurrences of `v` in `s`.
pub open spec fn occ(s: Seq<u32>, v: u32) -> nat
    decreases s.len(),
{
    if s.len() == 0 {
        0
    } else {
        occ(s.drop_last(), v) + (if s.last() == v {
            1nat
        } else {
            0nat
        })
    }
}

/// `s` is sorted in ascending numeric order.
pub open spec fn sorted_asc_u32(s: Seq<u32>) -> bool {
    forall|i: int, j: int| 0 <= i < j < s.len() ==> s[i] <= s[j]
}

/// `s` is sorted with respect to the total preorder `leq`.
pub open spec fn sorted_by(s: Seq<ColorNode>, leq: spec_fn(ColorNode, ColorNode) -> bool) -> bool {
    forall|i: int, j: int| 0 <= i < j < s.len() ==> #[trigger] leq(s[i], s[j])
}

/// The subsequence of nodes of `s` whose count is exactly `c`, in order.
pub open spec fn filter_cnt(s: Seq<ColorNode>, c: usize) -> Seq<ColorNode>
    decreases s.len(),
{
    if s.len() == 0 {
        Seq::empty()
    } else if s.last().cnt == c {
        filter_cnt(s.drop_last(), c).push(s.last())
    } else {
        filter_cnt(s.drop_last(), c)
    }
}

/// Inserts `x` into `s` after every element `e` with `leq(e, x)`:
/// the insertion step of a stable insertion sort.
pub open spec fn insert_sorted(
    s: Seq<ColorNode>,
    x: ColorNode,
    leq: spec_fn(ColorNode, ColorNode) -> bool,
) -> Seq<ColorNode>
    decreases s.len(),
{
    if s.len() == 0 {
        seq![x]
    } else if !leq(s.first(), x) {
        seq![x] + s
    } else {
        seq![s.first()] + insert_sorted(s.drop_first(), x, leq)
    }
}

/// Stable insertion sort of `s` with respect to `leq`, processing the
/// elements left to right.
pub open spec fn sort_by_leq(
    s: Seq<ColorNode>,
    leq: spec_fn(ColorNode, ColorNode) -> bool,
) -> Seq<ColorNode>
    decreases s.len(),
{
    if s.len() == 0 {
        Seq::empty()
    } else {
        insert_sorted(sort_by_leq(s.drop_last(), leq), s.last(), leq)
    }
}

/// `leq` relates every pair of values one way or the other.
pub open spec fn total_leq(leq: spec_fn(ColorNode, ColorNode) -> bool) -> bool {
    forall|a: ColorNode, b: ColorNode| #[trigger] leq(a, b) || #[trigger] leq(b, a)
}

/// `leq` is transitive.
pub open spec fn trans_leq(leq: spec_fn(ColorNode, ColorNode) -> bool) -> bool {
    forall|a: ColorNode, b: ColorNode, c: ColorNode|
        #[trigger] leq(a, b) && #[trigger] leq(b, c) ==> #[trigger] leq(a, c)
}

/// Sums distribute over concatenation.
pub proof fn lemma_sum_cnt_add(a: Seq<ColorNode>, b: Seq<ColorNode>)
    ensures
        sum_cnt(a + b) == sum_cnt(a) + sum_cnt(b),
    decreases b.len(),
{
    if b.len() == 0 {
        assert(a + b =~= a);
    } else {
        lemma_sum_cnt_add(a, b.drop_last());
        assert((a + b).drop_last() =~= a + b.drop_last());
        assert((a + b).last() == b.last());
    }
}

/// A sum of pixel counts is never negative.
pub proof fn lemma_sum_cnt_nonneg(s: Seq<ColorNode>)
    ensures
        sum_cnt(s) >= 0,
    decreases s.len(),
{
    if s.len() > 0 {
        lemma_sum_cnt_nonneg(s.drop_last());
    }
}

/// The sum over a contiguous part of `s` is bounded by the sum over `s`.
pub proof fn lemma_sum_cnt_subrange(s: Seq<ColorNode>, lo: int, hi: int)
    requires
        0 <= lo <= hi <= s.len(),
    ensures
        sum_cnt(s.subrange(lo, hi)) <= sum_cnt(s),
        sum_cnt(s.subrange(lo, hi)) >= 0,
{
    assert(s =~= s.subrange(0, lo) + s.subrange(lo, hi) + s.subrange(hi, s.len() as int));
    lemma_sum_cnt_add(s.subrange(0, lo) + s.subrange(lo, hi), s.subrange(hi, s.len() as int));
    lemma_sum_cnt_add(s.subrange(0, lo), s.subrange(lo, hi));
    lemma_sum_cnt_nonneg(s.subrange(0, lo));
    lemma_sum_cnt_nonneg(s.subrange(hi, s.len() as int));
    lemma_sum_cnt_nonneg(s.subrange(lo, hi));
}

/// Occurrence counts distribute over concatenation.
pub proof fn lemma_occ_add(a: Seq<u32>, b: Seq<u32>, v: u32)
    ensures
        occ(a + b, v) == occ(a, v) + occ(b, v),
    decreases b.len(),
{
    if b.len() == 0 {
        assert(a + b =~= a);
    } else {
        lemma_occ_add(a, b.drop_last(), v);
        assert((a + b).drop_last() =~= a + b.drop_last());
        assert((a + b).last() == b.last());
    }
}

/// A value occurs in `s` exactly when its occurrence count is positive.
pub proof fn lemma_occ_contains(s: Seq<u32>, v: u32)
    ensures
        occ(s, v) > 0 <==> s.contains(v),
    decreases s.len(),
{
    if s.len() > 0 {
        lemma_occ_contains(s.drop_last(), v);
        if s.contains(v) {
            let i = choose|i: int| 0 <= i < s.len() && s[i] == v;
            if i < s.len() - 1 {
                assert(s.drop_last()[i] == v);
                assert(s.drop_last().contains(v));
            }
        }
        if s.drop_last().contains(v) {
            let i = choose|i: int| 0 <= i < s.drop_last().len() && s.drop_last()[i] == v;
            assert(s[i] == v);
        }
    }
}

/// A value occurs no more often than the sequence is long.
pub proof fn lemma_occ_le_len(s: Seq<u32>, v: u32)
    ensures
        occ(s, v) <= s.len(),
    decreases s.len(),
{
    if s.len() > 0 {
        lemma_occ_le_len(s.drop_last(), v);
    }
}

/// A value that appears nowhere in `s` has occurrence count zero.
pub proof fn lemma_occ_zero(s: Seq<u32>, v: u32)
    requires
        forall|i: int| 0 <= i < s.len() ==> s[i] != v,
    ensures
        occ(s, v) == 0,
    decreases s.len(),
{
    if s.len() > 0 {
        assert(forall|i: int| 0 <= i < s.len() - 1 ==> s.drop_last()[i] == s[i]);
        lemma_occ_zero(s.drop_last(), v);
        assert(s.last() == s[s.len() - 1]);
    }
}

/// The filtered subsequence distributes over concatenation.
pub proof fn lemma_filter_cnt_add(a: Seq<ColorNode>, b: Seq<ColorNode>, c: usize)
    ensures
        filter_cnt(a + b, c) == filter_cnt(a, c) + filter_cnt(b, c),
    decreases b.len(),
{
    if b.len() == 0 {
        assert(a + b =~= a);
        assert(filter_cnt(a, c) + filter_cnt(b, c) =~= filter_cnt(a, c));
    } else {
        lemma_filter_cnt_add(a, b.drop_last(), c);
        assert((a + b).drop_last() =~= a + b.drop_last());
        assert((a + b).last() == b.last());
        if b.last().cnt == c {
            assert(filter_cnt(a, c) + filter_cnt(b.drop_last(), c).push(b.last()) =~= (filter_cnt(
                a,
                c,
            ) + filter_cnt(b.drop_last(), c)).push(b.last()));
        }
    }
}

/// Where the insertion step puts `x`: there is a split point `k` such that
/// the result is `s` with `x` inserted at `k`, every earlier element
/// satisfies `leq(_, x)` and the element at `k` (if any) does not.
pub proof fn lemma_insert_sorted_position(
    s: Seq<ColorNode>,
    x: ColorNode,
    leq: spec_fn(ColorNode, ColorNode) -> bool,
) -> (k: int)
    ensures
        0 <= k <= s.len(),
        insert_sorted(s, x, leq) == s.subrange(0, k) + seq![x] + s.subrange(k, s.len() as int),
        forall|i: int| 0 <= i < k ==> #[trigger] leq(s[i], x),
        k < s.len() ==> !leq(s[k], x),
    decreases s.len(),
{
    if s.len() == 0 {
        assert(insert_sorted(s, x, leq) =~= s.subrange(0, 0) + seq![x] + s.subrange(
            0,
            s.len() as int,
        ));
        0
    } else if !leq(s.first(), x) {
        assert(insert_sorted(s, x, leq) =~= s.subrange(0, 0) + seq![x] + s.subrange(
            0,
            s.len() as int,
        ));
        0
    } else {
        let k0 = lemma_insert_sorted_position(s.drop_first(), x, leq);
        let k = k0 + 1;
        assert(seq![s.first()] + (s.drop_first().subrange(0, k0) + seq![x]
            + s.drop_first().subrange(k0, s.drop_first().len() as int)) =~= s.subrange(0, k)
            + seq![x] + s.subrange(k, s.len() as int));
        assert forall|i: int| 0 <= i < k implies #[trigger] leq(s[i], x) by {
            if i == 0 {
                assert(s[0] == s.first());
                assert(leq(s.first(), x));
            } else {
                assert(s[i] == s.drop_first()[i - 1]);
                assert(leq(s.drop_first()[i - 1], x));
            }
        }
        assert(k < s.len() ==> !leq(s[k], x)) by {
            if k < s.len() {
                assert(s[k] == s.drop_first()[k0]);
            }
        }
        k
    }
}

/// The insertion step keeps the sequence sorted, grows it by one element,
/// adds `x`'s count to the total, and preserves positivity of the counts.
pub proof fn lemma_insert_sorted_props(
    s: Seq<ColorNode>,
    x: ColorNode,
    leq: spec_fn(ColorNode, ColorNode) -> bool,
)
    requires
        total_leq(leq),
        trans_leq(leq),
        sorted_by(s, leq),
    ensures
        sorted_by(insert_sorted(s, x, leq), leq),
        insert_sorted(s, x, leq).len() == s.len() + 1,
        sum_cnt(insert_sorted(s, x, leq)) == sum_cnt(s) + x.cnt,
        forall|v: ColorNode| insert_sorted(s, x, leq).contains(v) <==> s.contains(v) || v == x,
        all_cnt_pos(s) && x.cnt >= 1 ==> all_cnt_pos(insert_sorted(s, x, leq)),
{
    let k = lemma_insert_sorted_position(s, x, leq);
    let t = insert_sorted(s, x, leq);
    assert(t =~= s.subrange(0, k) + seq![x] + s.subrange(k, s.len() as int));
    assert(t.len() == s.len() + 1);
    // element-wise correspondence
    assert(forall|i: int| 0 <= i < k ==> t[i] == s[i]);
    assert(t[k] == x);
    assert(forall|i: int| k < i < t.len() ==> t[i] == s[i - 1]);
    // sortedness: x is leq-below everything from position k on
    assert forall|j: int| k <= j < s.len() implies #[trigger] leq(x, s[j]) by {
        assert(!leq(s[k], x));
        assert(leq(s[k], x) || leq(x, s[k]));
        assert(leq(x, s[k]));
        if j > k {
            assert(leq(s[k], s[j]));
            assert(leq(x, s[k]) && leq(s[k], s[j]) ==> leq(x, s[j]));
        }
    }
    assert(forall|i: int, j: int| 0 <= i < j < t.len() ==> #[trigger] leq(t[i], t[j])) by {
        assert(forall|i: int| 0 <= i < k ==> #[trigger] leq(s[i], x));
    }
    // sum of counts
    lemma_sum_cnt_add(s.subrange(0, k) + seq![x], s.subrange(k, s.len() as int));
    lemma_sum_cnt_add(s.subrange(0, k), seq![x]);
    lemma_sum_cnt_add(s.subrange(0, k), s.subrange(k, s.len() as int));
    assert(s =~= s.subrange(0, k) + s.subrange(k, s.len() as int));
    assert(sum_cnt(seq![x]) == x.cnt) by {
        assert(seq![x].drop_last() =~= Seq::<ColorNode>::empty());
        assert(sum_cnt(Seq::<ColorNode>::empty()) == 0);
        assert(seq![x].last() == x);
    }
    // membership
    assert(forall|v: ColorNode| t.contains(v) <==> s.contains(v) || v == x) by {
        assert(forall|v: ColorNode| s.contains(v) ==> t.contains(v)) by {
            assert(forall|i: int|
                0 <= i < s.len() && i < k ==> t[i] == #[trigger] s[i]);
            assert(forall|i: int|
                0 <= i < s.len() && i >= k ==> t[i + 1] == #[trigger] s[i]);
        }
        assert(t.contains(x)) by {
            assert(t[k] == x);
        }
        assert(forall|v: ColorNode| t.contains(v) ==> s.contains(v) || v == x) by {
            assert(forall|i: int|
                0 <= i < t.len() && i != k ==> #[trigger] t[i] == s[if i < k {
                    i
                } else {
                    i - 1
                }]);
        }
    }
}

/// The full sort: sorted result, same length, same count total, same
/// membership, positivity preserved.
pub proof fn lemma_sort_by_leq_props(s: Seq<ColorNode>, leq: spec_fn(ColorNode, ColorNode) -> bool)
    requires
        total_leq(leq),
        trans_leq(leq),
    ensures
        sorted_by(sort_by_leq(s, leq), leq),
        sort_by_leq(s, leq).len() == s.len(),
        sum_cnt(sort_by_leq(s, leq)) == sum_cnt(s),
        forall|v: ColorNode| sort_by_leq(s, leq).contains(v) <==> s.contains(v),
        all_cnt_pos(s) ==> all_cnt_pos(sort_by_leq(s, leq)),
    decreases s.len(),
{
    if s.len() > 0 {
        lemma_sort_by_leq_props(s.drop_last(), leq);
        lemma_insert_sorted_props(sort_by_leq(s.drop_last(), leq), s.last(), leq);
        assert(forall|v: ColorNode| s.contains(v) <==> s.drop_last().contains(v) || v == s.last())
            by {
            assert(forall|i: int|
                0 <= i < s.len() - 1 ==> s.drop_last()[i] == #[trigger] s[i]);
            assert(s.contains(s.last())) by {
                assert(s[s.len() - 1] == s.last());
            }
            assert(forall|i: int|
                0 <= i < s.len() && i < s.len() - 1 ==> s.drop_last()[i] == #[trigger] s[i]);
        }
        assert(all_cnt_pos(s) ==> all_cnt_pos(s.drop_last()) && s.last().cnt >= 1) by {
            if all_cnt_pos(s) {
                assert(forall|i: int|
                    0 <= i < s.len() - 1 ==> (#[trigger] s.drop_last()[i]).cnt == s[i].cnt >= 1);
                assert(s[s.len() - 1].cnt >= 1);
            }
        }
    }
}

/// A sequence none of whose nodes carries count `c` filters to nothing.
pub proof fn lemma_filter_cnt_none(s: Seq<ColorNode>, c: usize)
    requires
        forall|i: int| 0 <= i < s.len() ==> (#[trigger] s[i]).cnt != c,
    ensures
        filter_cnt(s, c) == Seq::<ColorNode>::empty(),
    decreases s.len(),
{
    if s.len() > 0 {
        assert(forall|i: int|
            0 <= i < s.len() - 1 ==> (#[trigger] s.drop_last()[i]).cnt == s[i].cnt);
        lemma_filter_cnt_none(s.drop_last(), c);
        assert(s[s.len() - 1].cnt != c);
    }
}

/// The insertion step of the count-descending sort appends `x` at the end
/// of its own count class and leaves every other class unchanged.
pub proof fn lemma_insert_cnt_desc_filter(s: Seq<ColorNode>, x: ColorNode, c: usize)
    requires
        sorted_by(s, cnt_desc_leq()),
    ensures
        filter_cnt(insert_sorted(s, x, cnt_desc_leq()), c) == if x.cnt == c {
            filter_cnt(s, c).push(x)
        } else {
            filter_cnt(s, c)
        },
{
    let leq = cnt_desc_leq();
    let k = lemma_insert_sorted_position(s, x, leq);
    let pre = s.subrange(0, k);
    let suf = s.subrange(k, s.len() as int);
    let t = insert_sorted(s, x, leq);
    assert(t == pre + seq![x] + suf);
    lemma_filter_cnt_add(pre + seq![x], suf, c);
    lemma_filter_cnt_add(pre, seq![x], c);
    lemma_filter_cnt_add(pre, suf, c);
    assert(s =~= pre + suf);
    assert(seq![x].drop_last() =~= Seq::<ColorNode>::empty());
    assert(filter_cnt(Seq::<ColorNode>::empty(), c) == Seq::<ColorNode>::empty());
    assert(seq![x].last() == x);
    if x.cnt == c {
        // every node after the insertion point has a strictly smaller count
        assert forall|j: int| 0 <= j < suf.len() implies (#[trigger] suf[j]).cnt != c by {
            assert(suf[j] == s[k + j]);
            assert(!leq(s[k], x));
            assert(s[k].cnt < x.cnt);
            if j > 0 {
                assert(leq(s[k], s[k + j]));
            }
        }
        lemma_filter_cnt_none(suf, c);
        assert(filter_cnt(seq![x], c) =~= seq![x]);
        assert(filter_cnt(t, c) =~= filter_cnt(s, c).push(x));
    } else {
        assert(filter_cnt(seq![x], c) =~= Seq::<ColorNode>::empty());
        assert(filter_cnt(t, c) =~= filter_cnt(s, c));
    }
}

/// The count-descending order relates every pair of nodes and is transitive.
pub proof fn lemma_cnt_desc_leq_well_behaved()
    ensures
        total_leq(cnt_desc_leq()),
        trans_leq(cnt_desc_leq()),
{
}

/// The per-dimension order relates every pair of nodes and is transitive.
pub proof fn lemma_dim_leq_well_behaved(dim: ColorDimension)
    ensures
        total_leq(dim_leq(dim)),
        trans_leq(dim_leq(dim)),
{
}

/// Law: sorting by descending count is stable.  For every count value `c`,
/// the nodes carrying `c` appear in the sorted sequence exactly as they
/// appeared in the input, in the same order.
pub proof fn lemma_sort_desc_cnt_stable(s: Seq<ColorNode>, c: usize)
    ensures
        sorted_by(sort_by_leq(s, cnt_desc_leq()), cnt_desc_leq()),
        filter_cnt(sort_by_leq(s, cnt_desc_leq()), c) == filter_cnt(s, c),
    decreases s.len(),
{
    lemma_cnt_desc_leq_well_behaved();
    lemma_sort_by_leq_props(s, cnt_desc_leq());
    if s.len() > 0 {
        lemma_sort_desc_cnt_stable(s.drop_last(), c);
        lemma_sort_by_leq_props(s.drop_last(), cnt_desc_leq());
        lemma_insert_cnt_desc_filter(sort_by_leq(s.drop_last(), cnt_desc_leq()), s.last(), c);
    }
}

/// The nodes of `s` have strictly increasing packed colors.
pub open spec fn rgb_strictly_inc(s: Seq<ColorNode>) -> bool {
    forall|i: int, j: int| 0 <= i < j < s.len() ==> (#[trigger] s[i]).rgb < (#[trigger] s[j]).rgb
}

/// Nodes with equal counts appear in ascending packed-color order.
pub open spec fn ties_keep_rgb_order(t: Seq<ColorNode>) -> bool {
    forall|i: int, j: int|
        0 <= i < j < t.len() && (#[trigger] t[i]).cnt == (#[trigger] t[j]).cnt ==> t[i].rgb
            < t[j].rgb
}

/// Law: sorting a sequence of nodes with strictly increasing packed colors
/// by descending count keeps equal-count nodes in ascending color order.
pub proof fn lemma_sort_desc_cnt_ties(s: Seq<ColorNode>)
    requires
        rgb_strictly_inc(s),
    ensures
        ties_keep_rgb_order(sort_by_leq(s, cnt_desc_leq())),
    decreases s.len(),
{
    let leq = cnt_desc_leq();
    lemma_cnt_desc_leq_well_behaved();
    if s.len() > 0 {
        let s0 = s.drop_last();
        let x = s.last();
        assert(forall|i: int, j: int|
            0 <= i < j < s0.len() ==> (#[trigger] s0[i]).rgb < (#[trigger] s0[j]).rgb) by {
            assert(forall|i: int| 0 <= i < s0.len() ==> #[trigger] s0[i] == s[i]);
        }
        lemma_sort_desc_cnt_ties(s0);
        lemma_sort_by_leq_props(s0, leq);
        let t0 = sort_by_leq(s0, leq);
        // every node of the sorted prefix has a smaller packed color than x
        assert forall|i: int| 0 <= i < t0.len() implies (#[trigger] t0[i]).rgb < x.rgb by {
            assert(t0.contains(t0[i]));
            assert(s0.contains(t0[i]));
            let w = choose|w: int| 0 <= w < s0.len() && s0[w] == t0[i];
            assert(s[w] == s0[w]);
            assert(s[w].rgb < s[s.len() - 1].rgb);
        }
        let k = lemma_insert_sorted_position(t0, x, leq);
        let t = insert_sorted(t0, x, leq);
        assert(t == t0.subrange(0, k) + seq![x] + t0.subrange(k, t0.len() as int));
        assert(forall|i: int| 0 <= i < k ==> #[trigger] t[i] == t0[i]);
        assert(t[k] == x);
        assert(forall|i: int| k < i < t.len() ==> #[trigger] t[i] == t0[i - 1]);
        assert(sorted_by(t0, leq));
        assert forall|i: int, j: int|
            0 <= i < j < t.len() && (#[trigger] t[i]).cnt == (#[trigger] t[j]).cnt implies t[i].rgb
            < t[j].rgb by {
            if i == k {
                // nodes after the insertion point have strictly smaller counts
                assert(j > k);
                assert(!leq(t0[k], x));
                assert(t[j] == t0[j - 1]);
                if j - 1 > k {
                    assert(leq(t0[k], t0[j - 1]));
                }
                assert(t0[j - 1].cnt < x.cnt);
            } else if j == k {
                assert(t[i] == t0[i]);
                assert(t0[i].rgb < x.rgb);
            } else {
                let i0 = if i < k {
                    i
                } else {
                    i - 1
                };
                let j0 = if j < k {
                    j
                } else {
                    j - 1
                };
                assert(t[i] == t0[i0] && t[j] == t0[j0]);
                assert(i0 < j0);
            }
        }
        assert(sort_by_leq(s, leq) == t);
    }
}

/// Inserts the value `x` into `s` after every element `<= x`.
pub open spec fn insert_u32(s: Seq<u32>, x: u32) -> Seq<u32>
    decreases s.len(),
{
    if s.len() == 0 {
        seq![x]
    } else if !(s.first() <= x) {
        seq![x] + s
    } else {
        seq![s.first()] + insert_u32(s.drop_first(), x)
    }
}

/// Insertion sort of pixel values in ascending numeric order.
pub open spec fn sort_u32(s: Seq<u32>) -> Seq<u32>
    decreases s.len(),
{
    if s.len() == 0 {
        Seq::empty()
    } else {
        insert_u32(sort_u32(s.drop_last()), s.last())
    }
}

/// Where `insert_u32` puts `x`.
pub proof fn lemma_insert_u32_position(s: Seq<u32>, x: u32) -> (k: int)
    ensures
        0 <= k <= s.len(),
        insert_u32(s, x) == s.subrange(0, k) + seq![x] + s.subrange(k, s.len() as int),
        forall|i: int| 0 <= i < k ==> s[i] <= x,
        k < s.len() ==> s[k] > x,
    decreases s.len(),
{
    if s.len() == 0 {
        assert(insert_u32(s, x) =~= s.subrange(0, 0) + seq![x] + s.subrange(0, s.len() as int));
        0
    } else if !(s.first() <= x) {
        assert(insert_u32(s, x) =~= s.subrange(0, 0) + seq![x] + s.subrange(0, s.len() as int));
        0
    } else {
        let k0 = lemma_insert_u32_position(s.drop_first(), x);
        let k = k0 + 1;
        assert(seq![s.first()] + (s.drop_first().subrange(0, k0) + seq![x]
            + s.drop_first().subrange(k0, s.drop_first().len() as int)) =~= s.subrange(0, k)
            + seq![x] + s.subrange(k, s.len() as int));
        assert forall|i: int| 0 <= i < k implies s[i] <= x by {
            if i > 0 {
                assert(s[i] == s.drop_first()[i - 1]);
            }
        }
        assert(k < s.len() ==> s[k] == s.drop_first()[k0]);
        k
    }
}

/// `insert_u32` keeps the sequence sorted and adds one occurrence of `x`.
pub proof fn lemma_insert_u32_props(s: Seq<u32>, x: u32, v: u32)
    requires
        sorted_asc_u32(s),
    ensures
        sorted_asc_u32(insert_u32(s, x)),
        insert_u32(s, x).len() == s.len() + 1,
        occ(insert_u32(s, x), v) == occ(s, v) + (if x == v {
            1int
        } else {
            0int
        }),
{
    let k = lemma_insert_u32_position(s, x);
    let t = insert_u32(s, x);
    assert(t == s.subrange(0, k) + seq![x] + s.subrange(k, s.len() as int));
    assert(forall|i: int| 0 <= i < k ==> t[i] == s[i]);
    assert(t[k] == x);
    assert(forall|i: int| k < i < t.len() ==> t[i] == s[i - 1]);
    assert forall|i: int, j: int| 0 <= i < j < t.len() implies t[i] <= t[j] by {
        if j == k && i < k {
            assert(s[i] <= x);
        } else if i == k && j > k {
            assert(s[k] > x || k == s.len());
            assert(s[j - 1] >= s[k] || j - 1 == k);
        }
    }
    lemma_occ_add(s.subrange(0, k) + seq![x], s.subrange(k, s.len() as int), v);
    lemma_occ_add(s.subrange(0, k), seq![x], v);
    lemma_occ_add(s.subrange(0, k), s.subrange(k, s.len() as int), v);
    assert(s =~= s.subrange(0, k) + s.subrange(k, s.len() as int));
    assert(seq![x].drop_last() =~= Seq::<u32>::empty());
    assert(seq![x].last() == x);
    assert(occ(Seq::<u32>::empty(), v) == 0);
    assert(occ(seq![x], v) == if x == v {
        1int
    } else {
        0int
    });
}

/// The full pixel sort: ascending order, same length, same occurrences.
pub proof fn lemma_sort_u32_props(s: Seq<u32>, v: u32)
    ensures
        sorted_asc_u32(sort_u32(s)),
        sort_u32(s).len() == s.len(),
        occ(sort_u32(s), v) == occ(s, v),
    decreases s.len(),
{
    if s.len() > 0 {
        lemma_sort_u32_props(s.drop_last(), v);
        lemma_insert_u32_props(sort_u32(s.drop_last()), s.last(), v);
    }
}

/// Sorts pixel values in ascending numeric order.
pub fn sort_pixels_asc(v: &mut Vec<u32>)
    ensures
        final(v)@ == sort_u32(old(v)@),
{
    let mut out: Vec<u32> = Vec::new();
    let mut i: usize = 0;
    while i < v.len()
        invariant
            i <= v@.len(),
            out@ == sort_u32(v@.subrange(0, i as int)),
            sorted_asc_u32(out@),
        decreases v@.len() - i,
    {
        let x = v[i];
        let mut p: usize = 0;
        while p < out.len() && out[p] <= x
            invariant
                p <= out@.len(),
                forall|q: int| 0 <= q < p ==> out@[q] <= x,
            decreases out@.len() - p,
        {
            p = p + 1;
        }
        proof {
            let k = lemma_insert_u32_position(out@, x);
            if k < p {
                assert(out@[k] <= x);
            }
            if p < k {
                assert(out@[p as int] <= x);
            }
            assert(k == p);
            assert(insert_u32(out@, x) =~= out@.insert(p as int, x));
            assert(v@.subrange(0, i + 1).drop_last() =~= v@.subrange(0, i as int));
            assert(v@.subrange(0, i + 1).last() == v@[i as int]);
            lemma_insert_u32_props(out@, x, 0);
        }
        out.insert(p, x);
        i = i + 1;
    }
    proof {
        assert(v@.subrange(0, v@.len() as int) =~= v@);
    }
    *v = out;
}

/// Sorts nodes by descending pixel count; nodes with equal counts keep
/// their relative order (stable).
pub fn sort_nodes_desc_cnt(v: &mut Vec<ColorNode>)
    ensures
        final(v)@ == sort_by_leq(old(v)@, cnt_desc_leq()),
{
    let mut out: Vec<ColorNode> = Vec::new();
    let mut i: usize = 0;
    while i < v.len()
        invariant
            i <= v@.len(),
            out@ == sort_by_leq(v@.subrange(0, i as int), cnt_desc_leq()),
            sorted_by(out@, cnt_desc_leq()),
        decreases v@.len() - i,
    {
        let x = v[i];
        let mut p: usize = 0;
        while p < out.len() && out[p].cnt >= x.cnt
            invariant
                p <= out@.len(),
                forall|q: int| 0 <= q < p ==> (#[trigger] out@[q]).cnt >= x.cnt,
            decreases out@.len() - p,
        {
            p = p + 1;
        }
        proof {
            let leq = cnt_desc_leq();
            let k = lemma_insert_sorted_position(out@, x, leq);
            if k < p {
                assert(out@[k].cnt >= x.cnt);
                assert(leq(out@[k], x));
            }
            if p < k {
                assert(leq(out@[p as int], x));
            }
            assert(k == p);
            assert(insert_sorted(out@, x, leq) =~= out@.insert(p as int, x));
            assert(v@.subrange(0, i + 1).drop_last() =~= v@.subrange(0, i as int));
            assert(v@.subrange(0, i + 1).last() == v@[i as int]);
            lemma_cnt_desc_leq_well_behaved();
            lemma_insert_sorted_props(out@, x, leq);
        }
        out.insert(p, x);
        i = i + 1;
    }
    proof {
        assert(v@.subrange(0, v@.len() as int) =~= v@);
    }
    *v = out;
}

/// The channel of `n` selected by `dim`, as executable code.
pub fn channel_of(n: &ColorNode, dim: ColorDimension) -> (c: u8)
    ensures
        c == chan(*n, dim),
{
    match dim {
        ColorDimension::Red => n.red,
        ColorDimension::Green => n.grn,
        ColorDimension::Blue => n.blu,
    }
}

/// Sorts nodes by the selected channel ascending; nodes with equal channel
/// values are ordered by descending count, further ties keep their order.
pub fn sort_nodes_by_dim(v: &mut Vec<ColorNode>, dim: ColorDimension)
    ensures
        final(v)@ == sort_by_leq(old(v)@, dim_leq(dim)),
{
    let mut out: Vec<ColorNode> = Vec::new();
    let mut i: usize = 0;
    while i < v.len()
        invariant
            i <= v@.len(),
            out@ == sort_by_leq(v@.subrange(0, i as int), dim_leq(dim)),
            sorted_by(out@, dim_leq(dim)),
        decreases v@.len() - i,
    {
        let x = v[i];
        let cx = channel_of(&x, dim);
        let mut p: usize = 0;
        loop
            invariant_except_break
                p <= out@.len(),
                cx == chan(x, dim),
                forall|q: int| 0 <= q < p ==> (dim_leq(dim))(#[trigger] out@[q], x),
            ensures
                p <= out@.len(),
                forall|q: int| 0 <= q < p ==> (dim_leq(dim))(#[trigger] out@[q], x),
                p < out@.len() ==> !(dim_leq(dim))(out@[p as int], x),
            decreases out@.len() - p,
        {
            if p >= out.len() {
                break ;
            }
            let ch = channel_of(&out[p], dim);
            if !(ch < cx || (ch == cx && out[p].cnt >= x.cnt)) {
                break ;
            }
            p = p + 1;
        }
        proof {
            let leq = dim_leq(dim);
            let k = lemma_insert_sorted_position(out@, x, leq);
            if k < p {
                assert(leq(out@[k], x));
            }
            if p < k {
                assert(leq(out@[p as int], x));
            }
            assert(k == p);
            assert(insert_sorted(out@, x, leq) =~= out@.insert(p as int, x));
            assert(v@.subrange(0, i + 1).drop_last() =~= v@.subrange(0, i as int));
            assert(v@.subrange(0, i + 1).last() == v@[i as int]);
            lemma_dim_leq_well_behaved(dim);
            lemma_insert_sorted_props(out@, x, leq);
        }
        out.insert(p, x);
        i = i + 1;
    }
    proof {
        assert(v@.subrange(0, v@.len() as int) =~= v@);
    }
    *v = out;
}

} // verus!

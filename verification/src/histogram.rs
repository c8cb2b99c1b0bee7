//! Deduplicated, count-annotated list of the distinct colors of an image.
//!
//! `color_array` holds the distinct packed colors in strictly ascending
//! numeric order; `count_array[i]` is the number of pixels carrying
//! `color_array[i]`, the alpha byte of every pixel being stripped first.

use vstd::prelude::*;

use crate::color::mask_rgb;
use crate::sorting::{
    lemma_occ_le_len, lemma_occ_zero, lemma_sort_u32_props, occ, sort_pixels_asc, sorted_asc_u32,
};

verus! {

/// The pixel sequence with the alpha byte of every pixel stripped.
pub open spec fn masked(pixels: Seq<u32>) -> Seq<u32> {
    pixels.map_values(|p: u32| mask_rgb(p))
}

/// Sum of a sequence of pixel counts.
pub open spec fn sum_counts(s: Seq<usize>) -> int
    decreases s.len(),
{
    if s.len() == 0 {
        0
    } else {
        sum_counts(s.drop_last()) + s.last()
    }
}

/// `s` is strictly increasing.
pub open spec fn strictly_inc_u32(s: Seq<u32>) -> bool {
    forall|i: int, j: int| 0 <= i < j < s.len() ==> s[i] < s[j]
}

/// `h` is the histogram of the masked pixel sequence `pixels`:
/// ascending duplicate-free colors, one exact count per color.
pub open spec fn is_histogram_of(h: ColorHistogram, pixels: Seq<u32>) -> bool {
    &&& h.color_array@.len() == h.count_array@.len()
    &&& strictly_inc_u32(h.color_array@)
    &&& forall|c: u32| #[trigger] h.color_array@.contains(c) <==> occ(masked(pixels), c) > 0
    &&& forall|i: int|
        0 <= i < h.color_array@.len() ==> (#[trigger] h.count_array@[i]) as int == occ(
            masked(pixels),
            h.color_array@[i],
        )
    &&& forall|i: int| 0 <= i < h.count_array@.len() ==> (#[trigger] h.count_array@[i]) >= 1
    &&& sum_counts(h.count_array@) == pixels.len()
}

/// Number of distinct colors among the masked pixels.
pub open spec fn distinct_count(pixels: Seq<u32>) -> nat {
    masked(pixels).to_set().len()
}

/// A histogram has exactly one entry per distinct masked color.
pub proof fn lemma_histogram_distinct_count(h: ColorHistogram, pixels: Seq<u32>)
    requires
        is_histogram_of(h, pixels),
    ensures
        h.color_array@.len() == distinct_count(pixels),
{
    let ca = h.color_array@;
    let m = masked(pixels);
    assert(ca.no_duplicates()) by {
        assert(forall|i: int, j: int| 0 <= i < j < ca.len() ==> ca[i] != ca[j]);
        assert forall|i: int, j: int|
            0 <= i < ca.len() && 0 <= j < ca.len() && i != j implies ca[i] != ca[j] by {
            if i < j {
                assert(ca[i] < ca[j]);
            } else {
                assert(ca[j] < ca[i]);
            }
        }
    }
    ca.unique_seq_to_set();
    assert(ca.to_set() =~= m.to_set()) by {
        assert forall|c: u32| ca.to_set().contains(c) implies m.to_set().contains(c) by {
            assert(ca.contains(c));
            assert(occ(m, c) > 0);
            crate::sorting::lemma_occ_contains(m, c);
        }
        assert forall|c: u32| m.to_set().contains(c) implies ca.to_set().contains(c) by {
            assert(m.contains(c));
            crate::sorting::lemma_occ_contains(m, c);
            assert(ca.contains(c));
        }
    }
}

/// An image has a distinct color exactly when it has a pixel.
pub proof fn lemma_distinct_count_zero(pixels: Seq<u32>)
    ensures
        distinct_count(pixels) == 0 <==> pixels.len() == 0,
{
    masked(pixels).lemma_cardinality_of_empty_set_is_0();
}

/// The node that represents one distinct masked color of `pixels`.
pub open spec fn node_of_color(c: u32, pixels: Seq<u32>) -> crate::color::ColorNode {
    crate::color::ColorNode {
        rgb: c,
        red: crate::color::red_of(c),
        grn: crate::color::grn_of(c),
        blu: crate::color::blu_of(c),
        cnt: occ(masked(pixels), c) as usize,
    }
}

/// `s` is the deduplicated node array of `pixels`: the distinct masked
/// colors in strictly ascending order, each node carrying its channels
/// and its exact pixel count.
pub open spec fn nodes_form(s: Seq<crate::color::ColorNode>, pixels: Seq<u32>) -> bool {
    &&& crate::sorting::rgb_strictly_inc(s)
    &&& forall|i: int| 0 <= i < s.len() ==> #[trigger] s[i] == node_of_color(s[i].rgb, pixels)
    &&& forall|c: u32|
        #[trigger] occ(masked(pixels), c) > 0 <==> exists|i: int|
            0 <= i < s.len() && (#[trigger] s[i]).rgb == c
}

/// Run-length encoding of a sorted color sequence into nodes: one node
/// per run of equal values, counting the run's length.
pub open spec fn rle_nodes(s: Seq<u32>) -> Seq<crate::color::ColorNode>
    decreases s.len(),
{
    if s.len() == 0 {
        Seq::empty()
    } else {
        let rest = rle_nodes(s.drop_last());
        if rest.len() > 0 && rest.last().rgb == s.last() {
            rest.update(
                rest.len() - 1,
                crate::color::ColorNode { cnt: (rest.last().cnt + 1) as usize, ..rest.last() },
            )
        } else {
            rest.push(
                crate::color::ColorNode {
                    rgb: s.last(),
                    red: crate::color::red_of(s.last()),
                    grn: crate::color::grn_of(s.last()),
                    blu: crate::color::blu_of(s.last()),
                    cnt: 1,
                },
            )
        }
    }
}

/// The deduplicated node array of `pixels`: the masked pixel values,
/// sorted and run-length encoded.  `nodes_form` characterizes it and has
/// exactly one solution.
pub open spec fn hist_nodes(pixels: Seq<u32>) -> Seq<crate::color::ColorNode> {
    rle_nodes(crate::sorting::sort_u32(masked(pixels)))
}

/// On a sorted sequence, the run-length encoding yields strictly
/// increasing colors, exact occurrence counts, decoded channels, and one
/// node per distinct value.
proof fn lemma_rle_nodes(s: Seq<u32>)
    requires
        sorted_asc_u32(s),
        s.len() <= usize::MAX,
    ensures
        crate::sorting::rgb_strictly_inc(rle_nodes(s)),
        forall|i: int|
            0 <= i < rle_nodes(s).len() ==> {
                let n = #[trigger] rle_nodes(s)[i];
                n.red == crate::color::red_of(n.rgb) && n.grn == crate::color::grn_of(n.rgb)
                    && n.blu == crate::color::blu_of(n.rgb) && n.cnt as int == occ(s, n.rgb)
            },
        forall|c: u32|
            #[trigger] occ(s, c) > 0 <==> exists|i: int|
                0 <= i < rle_nodes(s).len() && (#[trigger] rle_nodes(s)[i]).rgb == c,
    decreases s.len(),
{
    if s.len() > 0 {
        let s0 = s.drop_last();
        let x = s.last();
        assert(sorted_asc_u32(s0)) by {
            assert(forall|i: int| 0 <= i < s0.len() ==> s0[i] == s[i]);
        }
        lemma_rle_nodes(s0);
        let r0 = rle_nodes(s0);
        let r = rle_nodes(s);
        assert(forall|j: int| 0 <= j < s0.len() ==> s0[j] == s[j] && s[j] <= s[s.len() - 1]);
        // every recorded color occurs in the prefix, so it is at most x
        assert forall|i: int| 0 <= i < r0.len() implies (#[trigger] r0[i]).rgb <= x by {
            assert(occ(s0, r0[i].rgb) > 0);
            crate::sorting::lemma_occ_contains(s0, r0[i].rgb);
            let j = choose|j: int| 0 <= j < s0.len() && s0[j] == r0[i].rgb;
            assert(s0[j] <= x);
        }
        if r0.len() > 0 && r0.last().rgb == x {
            assert(r == r0.update(
                r0.len() - 1,
                crate::color::ColorNode { cnt: (r0.last().cnt + 1) as usize, ..r0.last() },
            ));
            assert(occ(s, x) == occ(s0, x) + 1);
            assert(r0.last() == r0[r0.len() - 1]);
            assert(occ(s0, x) == r0.last().cnt);
            crate::sorting::lemma_occ_le_len(s, x);
            assert(r0.last().cnt + 1 <= usize::MAX);
            assert forall|i: int| 0 <= i < r.len() - 1 implies #[trigger] r[i] == r0[i]
                && r0[i].rgb != x by {
                assert(r0[i].rgb < r0[r0.len() - 1].rgb);
            }
            assert forall|i: int| 0 <= i < r.len() implies {
                let n = #[trigger] r[i];
                n.red == crate::color::red_of(n.rgb) && n.grn == crate::color::grn_of(n.rgb)
                    && n.blu == crate::color::blu_of(n.rgb) && n.cnt as int == occ(s, n.rgb)
            } by {
                if i < r.len() - 1 {
                    assert(r[i] == r0[i]);
                    assert(r0[i].rgb != x);
                    assert(occ(s, r0[i].rgb) == occ(s0, r0[i].rgb));
                } else {
                    assert(r[i].rgb == x);
                    assert(r[i].red == r0.last().red && r[i].grn == r0.last().grn && r[i].blu
                        == r0.last().blu);
                    assert(r[i].cnt == r0.last().cnt + 1);
                }
            }
            assert forall|c: u32| #[trigger] occ(s, c) > 0 implies exists|i: int|
                0 <= i < r.len() && (#[trigger] r[i]).rgb == c by {
                if c == x {
                    assert(r[r.len() - 1].rgb == c);
                } else {
                    assert(occ(s, c) == occ(s0, c));
                    let i = choose|i: int| 0 <= i < r0.len() && (#[trigger] r0[i]).rgb == c;
                    assert(r[i].rgb == c);
                }
            }
            assert forall|c: u32|
                (exists|i: int| 0 <= i < r.len() && (#[trigger] r[i]).rgb == c) implies occ(s, c)
                > 0 by {
                let i = choose|i: int| 0 <= i < r.len() && r[i].rgb == c;
                if i < r.len() - 1 {
                    assert(r0[i].rgb == c);
                } else {
                    assert(c == x);
                }
            }
        } else {
            assert(occ(s0, x) == 0) by {
                if occ(s0, x) > 0 {
                    let i = choose|i: int| 0 <= i < r0.len() && (#[trigger] r0[i]).rgb == x;
                    if i < r0.len() - 1 {
                        assert(r0[i].rgb < r0[r0.len() - 1].rgb);
                        assert(r0[r0.len() - 1].rgb <= x);
                    }
                    assert(false);
                }
            }
            assert(occ(s, x) == 1);
            // the new color is strictly above every recorded one
            assert forall|i: int| 0 <= i < r0.len() implies (#[trigger] r0[i]).rgb < x by {
                if i < r0.len() - 1 {
                    assert(r0[i].rgb < r0[r0.len() - 1].rgb);
                }
                assert(r0[i].rgb != x || i == r0.len() - 1);
            }
            assert(r == r0.push(
                crate::color::ColorNode {
                    rgb: x,
                    red: crate::color::red_of(x),
                    grn: crate::color::grn_of(x),
                    blu: crate::color::blu_of(x),
                    cnt: 1,
                },
            ));
            assert(forall|i: int| 0 <= i < r0.len() ==> #[trigger] r[i] == r0[i]);
            assert forall|i: int| 0 <= i < r.len() implies {
                let n = #[trigger] r[i];
                n.cnt as int == occ(s, n.rgb)
            } by {
                if i < r.len() - 1 {
                    assert(r[i] == r0[i]);
                    assert(r0[i].rgb != x);
                    assert(occ(s, r0[i].rgb) == occ(s0, r0[i].rgb));
                } else {
                    assert(r[i].rgb == x);
                }
            }
            assert forall|c: u32| #[trigger] occ(s, c) > 0 implies exists|i: int|
                0 <= i < r.len() && (#[trigger] r[i]).rgb == c by {
                if c == x {
                    assert(r[r.len() - 1].rgb == c);
                } else {
                    assert(occ(s, c) == occ(s0, c));
                    let i = choose|i: int| 0 <= i < r0.len() && (#[trigger] r0[i]).rgb == c;
                    assert(r[i].rgb == c);
                }
            }
            assert forall|c: u32|
                (exists|i: int| 0 <= i < r.len() && (#[trigger] r[i]).rgb == c) implies occ(s, c)
                > 0 by {
                let i = choose|i: int| 0 <= i < r.len() && r[i].rgb == c;
                if i < r.len() - 1 {
                    assert(r0[i].rgb == c);
                } else {
                    assert(c == x);
                }
            }
        }
    }
}

/// Two strictly increasing sequences with the same members are equal.
proof fn lemma_strictly_inc_same_members(x: Seq<u32>, y: Seq<u32>)
    requires
        strictly_inc_u32(x),
        strictly_inc_u32(y),
        forall|c: u32| #[trigger] x.contains(c) <==> #[trigger] y.contains(c),
    ensures
        x == y,
    decreases x.len(),
{
    if x.len() == 0 {
        if y.len() > 0 {
            assert(y.contains(y[0]));
            assert(x.contains(y[0]));
        }
        assert(x =~= y);
    } else {
        assert(x.contains(x.last())) by {
            assert(x[x.len() - 1] == x.last());
        }
        assert(y.contains(x.last()));
        assert(y.len() > 0);
        assert(y.contains(y.last())) by {
            assert(y[y.len() - 1] == y.last());
        }
        assert(x.contains(y.last()));
        assert(x.last() == y.last()) by {
            let j = choose|j: int| 0 <= j < y.len() && y[j] == x.last();
            if j < y.len() - 1 {
                assert(y[j] < y[y.len() - 1]);
            }
            let i = choose|i: int| 0 <= i < x.len() && x[i] == y.last();
            if i < x.len() - 1 {
                assert(x[i] < x[x.len() - 1]);
            }
        }
        assert forall|c: u32| #[trigger] x.drop_last().contains(c) <==> #[trigger] y.drop_last().contains(c) by {
            assert(x.drop_last().contains(c) <==> (x.contains(c) && c != x.last())) by {
                if x.drop_last().contains(c) {
                    let i = choose|i: int| 0 <= i < x.len() - 1 && x.drop_last()[i] == c;
                    assert(x[i] == c);
                    assert(x[i] < x[x.len() - 1]);
                }
                if x.contains(c) && c != x.last() {
                    let i = choose|i: int| 0 <= i < x.len() && x[i] == c;
                    assert(i < x.len() - 1);
                    assert(x.drop_last()[i] == c);
                }
            }
            assert(y.drop_last().contains(c) <==> (y.contains(c) && c != y.last())) by {
                if y.drop_last().contains(c) {
                    let i = choose|i: int| 0 <= i < y.len() - 1 && y.drop_last()[i] == c;
                    assert(y[i] == c);
                    assert(y[i] < y[y.len() - 1]);
                }
                if y.contains(c) && c != y.last() {
                    let i = choose|i: int| 0 <= i < y.len() && y[i] == c;
                    assert(i < y.len() - 1);
                    assert(y.drop_last()[i] == c);
                }
            }
        }
        assert(strictly_inc_u32(x.drop_last())) by {
            assert(forall|i: int| 0 <= i < x.len() - 1 ==> #[trigger] x.drop_last()[i] == x[i]);
        }
        assert(strictly_inc_u32(y.drop_last())) by {
            assert(forall|i: int| 0 <= i < y.len() - 1 ==> #[trigger] y.drop_last()[i] == y[i]);
        }
        lemma_strictly_inc_same_members(x.drop_last(), y.drop_last());
        assert(x.drop_last() == y.drop_last());
        assert(x.len() == y.len());
        assert forall|i: int| 0 <= i < x.len() implies x[i] == y[i] by {
            if i < x.len() - 1 {
                assert(x.drop_last()[i] == x[i]);
                assert(y.drop_last()[i] == y[i]);
            } else {
                assert(x[i] == x.last() && y[i] == y.last());
            }
        }
        assert(x =~= y);
    }
}

/// The node array characterization has at most one solution.
pub proof fn lemma_nodes_form_unique(
    a: Seq<crate::color::ColorNode>,
    b: Seq<crate::color::ColorNode>,
    pixels: Seq<u32>,
)
    requires
        nodes_form(a, pixels),
        nodes_form(b, pixels),
    ensures
        a == b,
{
    let xa = Seq::new(a.len(), |i: int| a[i].rgb);
    let xb = Seq::new(b.len(), |i: int| b[i].rgb);
    assert forall|c: u32| #[trigger] xa.contains(c) <==> #[trigger] xb.contains(c) by {
        assert(xa.contains(c) <==> occ(masked(pixels), c) > 0) by {
            if xa.contains(c) {
                let i = choose|i: int| 0 <= i < xa.len() && xa[i] == c;
                assert(a[i].rgb == c);
            }
            if occ(masked(pixels), c) > 0 {
                let i = choose|i: int| 0 <= i < a.len() && (#[trigger] a[i]).rgb == c;
                assert(xa[i] == c);
            }
        }
        assert(xb.contains(c) <==> occ(masked(pixels), c) > 0) by {
            if xb.contains(c) {
                let i = choose|i: int| 0 <= i < xb.len() && xb[i] == c;
                assert(b[i].rgb == c);
            }
            if occ(masked(pixels), c) > 0 {
                let i = choose|i: int| 0 <= i < b.len() && (#[trigger] b[i]).rgb == c;
                assert(xb[i] == c);
            }
        }
    }
    lemma_strictly_inc_same_members(xa, xb);
    assert(xa.len() == xb.len());
    assert(a.len() == b.len());
    assert forall|i: int| 0 <= i < a.len() implies #[trigger] a[i] == b[i] by {
        assert(xa[i] == xb[i]);
        assert(a[i].rgb == b[i].rgb);
        assert(a[i] == node_of_color(a[i].rgb, pixels));
        assert(b[i] == node_of_color(b[i].rgb, pixels));
    }
    assert(a =~= b);
}

/// The node array satisfies its characterization, and any sequence that
/// satisfies it is the node array.
pub proof fn lemma_hist_nodes_is(s: Seq<crate::color::ColorNode>, pixels: Seq<u32>)
    requires
        nodes_form(s, pixels),
        pixels.len() <= usize::MAX,
    ensures
        hist_nodes(pixels) == s,
{
    let m = masked(pixels);
    let srt = crate::sorting::sort_u32(m);
    crate::sorting::lemma_sort_u32_props(m, 0);
    assert forall|v: u32| #[trigger] occ(srt, v) == occ(m, v) by {
        crate::sorting::lemma_sort_u32_props(m, v);
    }
    lemma_rle_nodes(srt);
    let r = rle_nodes(srt);
    assert(nodes_form(r, pixels)) by {
        assert forall|i: int|
            0 <= i < r.len() implies #[trigger] r[i] == node_of_color(r[i].rgb, pixels) by {
            assert(r[i].cnt as int == occ(srt, r[i].rgb));
            assert(occ(srt, r[i].rgb) == occ(m, r[i].rgb));
        }
        assert forall|c: u32| #[trigger] occ(m, c) > 0 implies exists|i: int|
            0 <= i < r.len() && (#[trigger] r[i]).rgb == c by {
            assert(occ(srt, c) > 0);
        }
        assert forall|c: u32|
            (exists|i: int| 0 <= i < r.len() && (#[trigger] r[i]).rgb == c) implies occ(m, c)
            > 0 by {
            assert(occ(srt, c) > 0);
        }
    }
    lemma_nodes_form_unique(r, s, pixels);
}

/// Parallel arrays of distinct colors and their pixel counts.
pub struct ColorHistogram {
    /// Distinct packed colors, strictly ascending.
    pub color_array: Vec<u32>,
    /// `count_array[i]` pixels carry color `color_array[i]`.
    pub count_array: Vec<usize>,
}

/// Sum over an updated sequence: the old entry leaves, the new one enters.
proof fn lemma_sum_counts_update(s: Seq<usize>, j: int, v: usize)
    requires
        0 <= j < s.len(),
    ensures
        sum_counts(s.update(j, v)) == sum_counts(s) - s[j] + v,
    decreases s.len(),
{
    if j == s.len() - 1 {
        assert(s.update(j, v).drop_last() =~= s.drop_last());
        assert(s.update(j, v).last() == v);
    } else {
        lemma_sum_counts_update(s.drop_last(), j, v);
        assert(s.update(j, v).drop_last() =~= s.drop_last().update(j, v));
        assert(s.update(j, v).last() == s.last());
    }
}

impl ColorHistogram {
    /// Wraps already tabulated parallel arrays.
    pub fn new(colors: Vec<u32>, counts: Vec<usize>) -> (h: ColorHistogram)
        ensures
            h.color_array@ == colors@,
            h.count_array@ == counts@,
    {
        ColorHistogram { color_array: colors, count_array: counts }
    }

    /// Builds the histogram of a pixel buffer: strips the alpha byte of
    /// every pixel, sorts the values, and counts each run of equal values.
    pub fn new_pixels(pixels_orig: &[u32]) -> (h: ColorHistogram)
        ensures
            is_histogram_of(h, pixels_orig@),
    {
        let ghost m = masked(pixels_orig@);
        let n = pixels_orig.len();
        let mut pixels_copy: Vec<u32> = Vec::new();
        let mut i: usize = 0;
        while i < n
            invariant
                i <= n == pixels_orig@.len(),
                pixels_copy@.len() == i,
                forall|j: int| 0 <= j < i ==> pixels_copy@[j] == mask_rgb(pixels_orig@[j]),
            decreases n - i,
        {
            pixels_copy.push(pixels_orig[i] & 0xFF_FF_FF);
            i = i + 1;
        }
        assert(pixels_copy@ =~= m);
        sort_pixels_asc(&mut pixels_copy);
        proof {
            lemma_sort_u32_props(m, 0);
            assert forall|v: u32| occ(pixels_copy@, v) == occ(m, v) by {
                lemma_sort_u32_props(m, v);
            }
        }
        let ghost sorted = pixels_copy@;

        let mut color_array: Vec<u32> = Vec::new();
        let mut count_array: Vec<usize> = Vec::new();
        let mut i: usize = 0;
        while i < pixels_copy.len()
            invariant
                i <= pixels_copy@.len(),
                pixels_copy@ == sorted,
                sorted_asc_u32(sorted),
                forall|v: u32| occ(sorted, v) == occ(m, v),
                color_array@.len() == count_array@.len(),
                strictly_inc_u32(color_array@),
                i > 0 ==> color_array@.len() > 0 && color_array@.last() == sorted[i - 1],
                i == 0 ==> color_array@.len() == 0,
                forall|k: int|
                    0 <= k < color_array@.len() ==> (#[trigger] count_array@[k]) as int == occ(
                        sorted.subrange(0, i as int),
                        color_array@[k],
                    ),
                forall|k: int| 0 <= k < count_array@.len() ==> (#[trigger] count_array@[k]) >= 1,
                forall|j: int| 0 <= j < i ==> color_array@.contains(#[trigger] sorted[j]),
                sum_counts(count_array@) == i,
            decreases pixels_copy@.len() - i,
        {
            let ghost pre = sorted.subrange(0, i as int);
            let ghost post = sorted.subrange(0, i + 1);
            proof {
                assert(post.drop_last() =~= pre);
                assert(post.last() == sorted[i as int]);
                // every recorded color sits in the processed prefix, hence is
                // at most the previous pixel value
                assert forall|k: int|
                    0 <= k < color_array@.len() && i > 0 implies (#[trigger] color_array@[k])
                    <= sorted[i - 1] by {
                    if k < color_array@.len() - 1 {
                        assert(color_array@[k] < color_array@[color_array@.len() - 1]);
                    }
                }
            }
            let ghost ca_pre = color_array@;
            let ghost cta_pre = count_array@;
            let is_new = if i == 0 {
                true
            } else {
                pixels_copy[i] != pixels_copy[i - 1]
            };
            if is_new {
                proof {
                    if i > 0 {
                        assert(sorted[i - 1] < sorted[i as int]);
                        assert forall|j: int| 0 <= j < i implies sorted[j] != sorted[i as int] by {
                            if j < i - 1 {
                                assert(sorted[j] <= sorted[i - 1]);
                            }
                        }
                        assert(forall|j: int| 0 <= j < pre.len() ==> pre[j] != sorted[i as int]);
                    }
                    lemma_occ_zero(pre, sorted[i as int]);
                }
                color_array.push(pixels_copy[i]);
                count_array.push(1);
                proof {
                    assert(count_array@.drop_last() =~= count_array@.subrange(
                        0,
                        count_array@.len() - 1,
                    ));
                    assert forall|k: int|
                        0 <= k < color_array@.len() implies (#[trigger] count_array@[k]) as int
                        == occ(post, color_array@[k]) by {
                        if k < color_array@.len() - 1 {
                            assert(color_array@[k] < sorted[i as int]);
                            assert(occ(post, color_array@[k]) == occ(pre, color_array@[k]));
                        } else {
                            assert(occ(post, sorted[i as int]) == occ(pre, sorted[i as int]) + 1);
                        }
                    }
                    assert(sum_counts(count_array@) == i + 1) by {
                        assert(count_array@.drop_last() =~= cta_pre);
                        assert(count_array@.last() == 1);
                    }
                    assert forall|j: int|
                        0 <= j < i + 1 implies color_array@.contains(#[trigger] sorted[j]) by {
                        if j < i {
                            assert(ca_pre.contains(sorted[j]));
                            let k = choose|k: int| 0 <= k < ca_pre.len() && ca_pre[k] == sorted[j];
                            assert(color_array@[k] == sorted[j]);
                        } else {
                            assert(color_array@[color_array@.len() - 1] == sorted[j]);
                        }
                    }
                }
            } else {
                let last = count_array.len() - 1;
                let cur = count_array[last];
                proof {
                    lemma_occ_le_len(pre, color_array@[last as int]);
                    assert(cur as int == occ(pre, color_array@[last as int]));
                }
                count_array.set(last, cur + 1);
                proof {
                    assert(count_array@ == cta_pre.update(last as int, (cur + 1) as usize));
                    lemma_sum_counts_update(cta_pre, last as int, (cur + 1) as usize);
                    assert forall|k: int|
                        0 <= k < color_array@.len() implies (#[trigger] count_array@[k]) as int
                        == occ(post, color_array@[k]) by {
                        if k < color_array@.len() - 1 {
                            assert(color_array@[k] < color_array@[last as int]);
                            assert(color_array@[last as int] == sorted[i - 1] == sorted[i as int]);
                            assert(occ(post, color_array@[k]) == occ(pre, color_array@[k]));
                        } else {
                            assert(occ(post, sorted[i as int]) == occ(pre, sorted[i as int]) + 1);
                        }
                    }
                    assert forall|j: int|
                        0 <= j < i + 1 implies color_array@.contains(#[trigger] sorted[j]) by {
                        if j == i {
                            assert(sorted[i as int] == sorted[i - 1]);
                            assert(color_array@[color_array@.len() - 1] == sorted[i - 1]);
                        }
                    }
                }
            }
            i = i + 1;
        }
        proof {
            assert(sorted.subrange(0, sorted.len() as int) =~= sorted);
            assert forall|c: u32| #[trigger] color_array@.contains(c) implies occ(m, c) > 0 by {
                let k = choose|k: int| 0 <= k < color_array@.len() && color_array@[k] == c;
                assert(count_array@[k] >= 1);
            }
            assert forall|c: u32| occ(m, c) > 0 implies color_array@.contains(c) by {
                crate::sorting::lemma_occ_contains(sorted, c);
                let j = choose|j: int| 0 <= j < sorted.len() && sorted[j] == c;
                assert(color_array@.contains(sorted[j]));
            }
        }
        ColorHistogram::new(color_array, count_array)
    }
}

} // verus!

//! Color-space boxes: contiguous index ranges `[lower, upper)` over the
//! shared node array, split recursively at the median of the longest
//! color dimension.

use vstd::prelude::*;

use crate::color::{node_wf, ColorNode};
use crate::sorting::{
    all_cnt_pos, chan, dim_leq, lemma_dim_leq_well_behaved, lemma_sort_by_leq_props,
    lemma_sum_cnt_add, lemma_sum_cnt_nonneg, lemma_sum_cnt_subrange, sort_by_leq,
    sort_nodes_by_dim, sum_cnt, ColorDimension,
};

verus! {

/// A contiguous range `[lower, upper)` of the shared node array, with the
/// channel bounds and the pixel count of the nodes it contained when it was
/// last trimmed.
#[derive(Debug, Clone, Copy, PartialEq, Eq, Structural)]
pub struct ColorBox {
    /// Inclusive lower index into the node array.
    pub lower: usize,
    /// Exclusive upper index into the node array.
    pub upper: usize,
    /// Split depth; the root box has level 0.
    pub level: u32,
    /// Sum of the pixel counts of the nodes in range, as of the last trim.
    pub count: usize,
    /// Minimum red channel in range, as of the last trim.
    pub rmin: i32,
    /// Maximum red channel in range, as of the last trim.
    pub rmax: i32,
    /// Minimum green channel in range, as of the last trim.
    pub gmin: i32,
    /// Maximum green channel in range, as of the last trim.
    pub gmax: i32,
    /// Minimum blue channel in range, as of the last trim.
    pub bmin: i32,
    /// Maximum blue channel in range, as of the last trim.
    pub bmax: i32,
}

/// The box's index range lies inside an array of length `n`.
pub open spec fn box_range_ok(b: ColorBox, n: int) -> bool {
    b.lower <= b.upper <= n
}

/// All six channel bounds are byte values.
pub open spec fn bounds_in_range(b: ColorBox) -> bool {
    &&& 0 <= b.rmin <= 255
    &&& 0 <= b.rmax <= 255
    &&& 0 <= b.gmin <= 255
    &&& 0 <= b.gmax <= 255
    &&& 0 <= b.bmin <= 255
    &&& 0 <= b.bmax <= 255
}

/// The least value of the selected channel among `colors[lo..hi]`, or 255
/// for an empty range: the sentinel the bound scan starts from.
pub open spec fn chan_lo(colors: Seq<ColorNode>, lo: int, hi: int, dim: ColorDimension) -> int
    decreases hi - lo,
{
    if lo >= hi {
        255
    } else {
        let prev = chan_lo(colors, lo, hi - 1, dim);
        let c = chan(colors[hi - 1], dim) as int;
        if c < prev {
            c
        } else {
            prev
        }
    }
}

/// The greatest value of the selected channel among `colors[lo..hi]`, or 0
/// for an empty range.
pub open spec fn chan_hi(colors: Seq<ColorNode>, lo: int, hi: int, dim: ColorDimension) -> int
    decreases hi - lo,
{
    if lo >= hi {
        0
    } else {
        let prev = chan_hi(colors, lo, hi - 1, dim);
        let c = chan(colors[hi - 1], dim) as int;
        if c > prev {
            c
        } else {
            prev
        }
    }
}

/// The box over `[lower, upper)` whose count and channel bounds are the
/// exact sum, minima and maxima of the nodes currently in that range.
pub open spec fn mk_box(lower: usize, upper: usize, level: u32, colors: Seq<ColorNode>) -> ColorBox {
    ColorBox {
        lower,
        upper,
        level,
        count: sum_cnt(colors.subrange(lower as int, upper as int)) as usize,
        rmin: chan_lo(colors, lower as int, upper as int, ColorDimension::Red) as i32,
        rmax: chan_hi(colors, lower as int, upper as int, ColorDimension::Red) as i32,
        gmin: chan_lo(colors, lower as int, upper as int, ColorDimension::Green) as i32,
        gmax: chan_hi(colors, lower as int, upper as int, ColorDimension::Green) as i32,
        bmin: chan_lo(colors, lower as int, upper as int, ColorDimension::Blue) as i32,
        bmax: chan_hi(colors, lower as int, upper as int, ColorDimension::Blue) as i32,
    }
}

/// The exact bounds enclose every node of the range, and a nonempty range
/// attains each of them.
pub proof fn lemma_chan_bounds(colors: Seq<ColorNode>, lo: int, hi: int, dim: ColorDimension)
    requires
        0 <= lo,
        hi <= colors.len(),
    ensures
        forall|i: int|
            lo <= i < hi ==> chan_lo(colors, lo, hi, dim) <= chan(#[trigger] colors[i], dim) as int
                <= chan_hi(colors, lo, hi, dim),
        lo < hi ==> exists|i: int|
            lo <= i < hi && chan(#[trigger] colors[i], dim) as int == chan_lo(colors, lo, hi, dim),
        lo < hi ==> exists|i: int|
            lo <= i < hi && chan(#[trigger] colors[i], dim) as int == chan_hi(colors, lo, hi, dim),
        lo < hi ==> 0 <= chan_lo(colors, lo, hi, dim) <= 255 && 0 <= chan_hi(colors, lo, hi, dim)
            <= 255,
    decreases hi - lo,
{
    if lo < hi {
        lemma_chan_bounds(colors, lo, hi - 1, dim);
        if lo < hi - 1 {
            let w = choose|i: int|
                lo <= i < hi - 1 && chan(#[trigger] colors[i], dim) as int == chan_lo(
                    colors,
                    lo,
                    hi - 1,
                    dim,
                );
            if !(chan(colors[hi - 1], dim) < chan_lo(colors, lo, hi - 1, dim)) {
                assert(chan(colors[w], dim) as int == chan_lo(colors, lo, hi, dim));
            }
            let v = choose|i: int|
                lo <= i < hi - 1 && chan(#[trigger] colors[i], dim) as int == chan_hi(
                    colors,
                    lo,
                    hi - 1,
                    dim,
                );
            if !(chan(colors[hi - 1], dim) > chan_hi(colors, lo, hi - 1, dim)) {
                assert(chan(colors[v], dim) as int == chan_hi(colors, lo, hi, dim));
            }
        }
    }
}

/// The dimension the box is split along: the one with the largest extent,
/// ties resolved in the fixed order Blue, then Green, then Red.
pub open spec fn longest_dim(b: ColorBox) -> ColorDimension {
    let r_len = b.rmax - b.rmin;
    let g_len = b.gmax - b.gmin;
    let b_len = b.bmax - b.bmin;
    if b_len >= r_len && b_len >= g_len {
        ColorDimension::Blue
    } else if g_len >= r_len && g_len >= b_len {
        ColorDimension::Green
    } else {
        ColorDimension::Red
    }
}

/// The scan for the median from position `i` on: the first index whose
/// running pixel count from `lo` reaches `half`, capped at `hi - 2` so
/// that a split leaves both halves nonempty.
pub open spec fn median_rec(colors: Seq<ColorNode>, lo: int, i: int, hi: int, half: int) -> int
    decreases hi - i,
{
    if i >= hi - 2 {
        hi - 2
    } else if sum_cnt(colors.subrange(lo, i + 1)) >= half {
        i
    } else {
        median_rec(colors, lo, i + 1, hi, half)
    }
}

/// The median index of the sorted range `[lo, hi)`.
pub open spec fn median_spec(colors: Seq<ColorNode>, lo: int, hi: int, half: int) -> int {
    median_rec(colors, lo, lo, hi, half)
}

/// `colors` with `[lo, hi)` sorted along `dim` and the rest unchanged.
pub open spec fn sort_range(colors: Seq<ColorNode>, lo: int, hi: int, dim: ColorDimension) -> Seq<
    ColorNode,
> {
    colors.subrange(0, lo) + sort_by_leq(colors.subrange(lo, hi), dim_leq(dim)) + colors.subrange(
        hi,
        colors.len() as int,
    )
}

/// Count-weighted red channel sum of the nodes of `s`.
pub open spec fn wsum_red(s: Seq<ColorNode>) -> int
    decreases s.len(),
{
    if s.len() == 0 {
        0
    } else {
        wsum_red(s.drop_last()) + s.last().cnt * s.last().red
    }
}

/// Count-weighted green channel sum of the nodes of `s`.
pub open spec fn wsum_grn(s: Seq<ColorNode>) -> int
    decreases s.len(),
{
    if s.len() == 0 {
        0
    } else {
        wsum_grn(s.drop_last()) + s.last().cnt * s.last().grn
    }
}

/// Count-weighted blue channel sum of the nodes of `s`.
pub open spec fn wsum_blu(s: Seq<ColorNode>) -> int
    decreases s.len(),
{
    if s.len() == 0 {
        0
    } else {
        wsum_blu(s.drop_last()) + s.last().cnt * s.last().blu
    }
}

/// Every weighted channel sum lies between 0 and 255 times the count sum.
pub proof fn lemma_wsum_bounds(s: Seq<ColorNode>)
    ensures
        0 <= wsum_red(s) <= 255 * sum_cnt(s),
        0 <= wsum_grn(s) <= 255 * sum_cnt(s),
        0 <= wsum_blu(s) <= 255 * sum_cnt(s),
    decreases s.len(),
{
    if s.len() == 0 {
    } else {
        lemma_wsum_bounds(s.drop_last());
        let c = s.last().cnt as int;
        let r = s.last().red as int;
        let g = s.last().grn as int;
        let b = s.last().blu as int;
        assert(0 <= c * r <= 255 * c && 0 <= c * g <= 255 * c && 0 <= c * b <= 255 * c)
            by (nonlinear_arith)
            requires
                0 <= c,
                0 <= r <= 255,
                0 <= g <= 255,
                0 <= b <= 255,
        ;
    }
}

/// A sequence whose nodes all have positive counts sums to at least its
/// length.
pub proof fn lemma_sum_cnt_ge_len(s: Seq<ColorNode>)
    requires
        all_cnt_pos(s),
    ensures
        sum_cnt(s) >= s.len(),
    decreases s.len(),
{
    if s.len() > 0 {
        assert(forall|i: int|
            0 <= i < s.len() - 1 ==> (#[trigger] s.drop_last()[i]).cnt == s[i].cnt);
        lemma_sum_cnt_ge_len(s.drop_last());
        assert(s[s.len() - 1].cnt >= 1);
    }
}

/// What splitting a box does, as one value: sort the box's range along
/// its longest dimension, cut at the median, and trim the two halves.
/// `.0` is the lower half (keeping the median node), `.1` the upper half,
/// `.2` the node array after the sort.
pub open spec fn split_spec(b: ColorBox, colors: Seq<ColorNode>) -> (ColorBox, ColorBox, Seq<
    ColorNode,
>) {
    let dim = longest_dim(b);
    let colors2 = sort_range(colors, b.lower as int, b.upper as int, dim);
    let med = median_spec(colors2, b.lower as int, b.upper as int, b.count as int / 2);
    (
        mk_box(b.lower, (med + 1) as usize, (b.level + 1) as u32, colors2),
        mk_box((med + 1) as usize, b.upper, (b.level + 1) as u32, colors2),
        colors2,
    )
}

/// The averaged representative node of a box: each channel is the
/// count-weighted average over the box's range rounded half up, and the
/// count is the range's pixel total.
pub open spec fn avg_node_spec(b: ColorBox, colors: Seq<ColorNode>) -> ColorNode {
    let sub = colors.subrange(b.lower as int, b.upper as int);
    let n = sum_cnt(sub);
    let red = (2 * wsum_red(sub) + n) / (2 * n);
    let grn = (2 * wsum_grn(sub) + n) / (2 * n);
    let blu = (2 * wsum_blu(sub) + n) / (2 * n);
    ColorNode {
        rgb: crate::color::pack_rgb(red as u8, grn as u8, blu as u8),
        red: red as u8,
        grn: grn as u8,
        blu: blu as u8,
        cnt: n as usize,
    }
}

/// One averaged node per box, in box order.
pub open spec fn averages_spec(boxes: Seq<ColorBox>, colors: Seq<ColorNode>) -> Seq<ColorNode> {
    Seq::new(boxes.len(), |i: int| avg_node_spec(boxes[i], colors))
}

/// Ranges of distinct boxes do not overlap.
pub open spec fn boxes_disjoint(boxes: Seq<ColorBox>) -> bool {
    forall|i: int, j: int|
        0 <= i < boxes.len() && 0 <= j < boxes.len() && i != j ==> (#[trigger] boxes[i]).upper
            <= (#[trigger] boxes[j]).lower || boxes[j].upper <= boxes[i].lower
}

/// Total pixel count of the nodes covered by the boxes' ranges.
pub open spec fn boxes_pixel_sum(boxes: Seq<ColorBox>, colors: Seq<ColorNode>) -> int
    decreases boxes.len(),
{
    if boxes.len() == 0 {
        0
    } else {
        boxes_pixel_sum(boxes.drop_last(), colors) + sum_cnt(
            colors.subrange(boxes.last().lower as int, boxes.last().upper as int),
        )
    }
}

/// Replacing one box exchanges its range sum for the new box's range sum.
pub proof fn lemma_boxes_pixel_sum_update(
    boxes: Seq<ColorBox>,
    colors: Seq<ColorNode>,
    i: int,
    b2: ColorBox,
)
    requires
        0 <= i < boxes.len(),
    ensures
        boxes_pixel_sum(boxes.update(i, b2), colors) == boxes_pixel_sum(boxes, colors) - sum_cnt(
            colors.subrange(boxes[i].lower as int, boxes[i].upper as int),
        ) + sum_cnt(colors.subrange(b2.lower as int, b2.upper as int)),
    decreases boxes.len(),
{
    if i == boxes.len() - 1 {
        assert(boxes.update(i, b2).drop_last() =~= boxes.drop_last());
        assert(boxes.update(i, b2).last() == b2);
    } else {
        lemma_boxes_pixel_sum_update(boxes.drop_last(), colors, i, b2);
        assert(boxes.update(i, b2).drop_last() =~= boxes.drop_last().update(i, b2));
        assert(boxes.update(i, b2).last() == boxes.last());
        assert(boxes.drop_last()[i] == boxes[i]);
    }
}

/// Total number of nodes covered by the boxes' ranges.
pub open spec fn boxes_size_sum(boxes: Seq<ColorBox>) -> int
    decreases boxes.len(),
{
    if boxes.len() == 0 {
        0
    } else {
        boxes_size_sum(boxes.drop_last()) + (boxes.last().upper - boxes.last().lower)
    }
}

/// Replacing one box exchanges its size for the new box's size.
pub proof fn lemma_boxes_size_sum_update(boxes: Seq<ColorBox>, i: int, b2: ColorBox)
    requires
        0 <= i < boxes.len(),
    ensures
        boxes_size_sum(boxes.update(i, b2)) == boxes_size_sum(boxes) - (boxes[i].upper
            - boxes[i].lower) + (b2.upper - b2.lower),
    decreases boxes.len(),
{
    if i == boxes.len() - 1 {
        assert(boxes.update(i, b2).drop_last() =~= boxes.drop_last());
        assert(boxes.update(i, b2).last() == b2);
    } else {
        lemma_boxes_size_sum_update(boxes.drop_last(), i, b2);
        assert(boxes.update(i, b2).drop_last() =~= boxes.drop_last().update(i, b2));
        assert(boxes.update(i, b2).last() == boxes.last());
        assert(boxes.drop_last()[i] == boxes[i]);
    }
}

/// Boxes that each span at most one node cover at most as many nodes as
/// there are boxes.
pub proof fn lemma_boxes_size_sum_small(boxes: Seq<ColorBox>)
    requires
        forall|i: int|
            0 <= i < boxes.len() ==> (#[trigger] boxes[i]).upper - boxes[i].lower <= 1,
    ensures
        boxes_size_sum(boxes) <= boxes.len(),
    decreases boxes.len(),
{
    if boxes.len() > 0 {
        assert(forall|i: int|
            0 <= i < boxes.len() - 1 ==> #[trigger] boxes.drop_last()[i] == boxes[i]);
        lemma_boxes_size_sum_small(boxes.drop_last());
        assert(boxes.last() == boxes[boxes.len() - 1]);
    }
}

/// Two node arrays that sum alike over every box's range give the boxes
/// the same total.
pub proof fn lemma_boxes_pixel_sum_same_sums(
    boxes: Seq<ColorBox>,
    c1: Seq<ColorNode>,
    c2: Seq<ColorNode>,
)
    requires
        forall|i: int|
            0 <= i < boxes.len() ==> sum_cnt(
                c1.subrange((#[trigger] boxes[i]).lower as int, boxes[i].upper as int),
            ) == sum_cnt(c2.subrange(boxes[i].lower as int, boxes[i].upper as int)),
    ensures
        boxes_pixel_sum(boxes, c1) == boxes_pixel_sum(boxes, c2),
    decreases boxes.len(),
{
    if boxes.len() > 0 {
        assert(forall|i: int|
            0 <= i < boxes.len() - 1 ==> #[trigger] boxes.drop_last()[i] == boxes[i]);
        lemma_boxes_pixel_sum_same_sums(boxes.drop_last(), c1, c2);
        assert(boxes.last() == boxes[boxes.len() - 1]);
    }
}

/// A sequence of nodes whose counts match the boxes' range sums pointwise
/// sums to the boxes' total.
pub proof fn lemma_sum_cnt_matches_boxes(
    avg: Seq<ColorNode>,
    boxes: Seq<ColorBox>,
    colors: Seq<ColorNode>,
)
    requires
        avg.len() == boxes.len(),
        forall|i: int|
            0 <= i < avg.len() ==> (#[trigger] avg[i]).cnt == sum_cnt(
                colors.subrange((#[trigger] boxes[i]).lower as int, boxes[i].upper as int),
            ),
    ensures
        sum_cnt(avg) == boxes_pixel_sum(boxes, colors),
    decreases avg.len(),
{
    if avg.len() > 0 {
        assert(forall|i: int| 0 <= i < avg.len() - 1 ==> #[trigger] avg.drop_last()[i] == avg[i]);
        assert(forall|i: int|
            0 <= i < boxes.len() - 1 ==> #[trigger] boxes.drop_last()[i] == boxes[i]);
        lemma_sum_cnt_matches_boxes(avg.drop_last(), boxes.drop_last(), colors);
        assert(avg.last() == avg[avg.len() - 1]);
        assert(boxes.last() == boxes[boxes.len() - 1]);
    }
}

impl ColorBox {
    /// Creates a box over `[lower, upper)` at the given split level, with
    /// its bounds and count computed from the current array contents.
    pub fn new(lower: usize, upper: usize, level: u32, colors: &Vec<ColorNode>) -> (b: ColorBox)
        requires
            lower <= upper <= colors@.len(),
            sum_cnt(colors@) <= usize::MAX,
        ensures
            b.lower == lower && b.upper == upper && b.level == level,
            b.count == sum_cnt(colors@.subrange(lower as int, upper as int)),
            bounds_in_range(b) || lower == upper,
            lower == upper ==> b.rmin == 255 && b.rmax == 0 && b.gmin == 255 && b.gmax == 0
                && b.bmin == 255 && b.bmax == 0,
            forall|i: int|
                lower <= i < upper ==> b.rmin <= (#[trigger] colors@[i]).red <= b.rmax && b.gmin
                    <= colors@[i].grn <= b.gmax && b.bmin <= colors@[i].blu <= b.bmax,
            b == mk_box(lower, upper, level, colors@),
            lower < upper ==> (exists|i: int|
                lower <= i < upper && (#[trigger] colors@[i]).red as int == b.rmin) && (exists|
                i: int,
            |
                lower <= i < upper && (#[trigger] colors@[i]).red as int == b.rmax) && (exists|
                i: int,
            |
                lower <= i < upper && (#[trigger] colors@[i]).grn as int == b.gmin) && (exists|
                i: int,
            |
                lower <= i < upper && (#[trigger] colors@[i]).grn as int == b.gmax) && (exists|
                i: int,
            |
                lower <= i < upper && (#[trigger] colors@[i]).blu as int == b.bmin) && (exists|
                i: int,
            |
                lower <= i < upper && (#[trigger] colors@[i]).blu as int == b.bmax),
    {
        let mut b = ColorBox {
            lower,
            upper,
            level,
            count: 0,
            rmin: 0,
            rmax: 0,
            gmin: 0,
            gmax: 0,
            bmin: 0,
            bmax: 0,
        };
        b.trim(colors);
        b
    }

    /// Number of distinct colors (nodes) the box spans.
    pub fn color_count(&self) -> (n: usize)
        requires
            self.lower <= self.upper,
        ensures
            n == self.upper - self.lower,
    {
        self.upper - self.lower
    }

    /// Recomputes the channel bounds and the pixel count of the box from
    /// the current contents of its range.
    pub fn trim(&mut self, colors: &Vec<ColorNode>)
        requires
            old(self).lower <= old(self).upper <= colors@.len(),
            sum_cnt(colors@) <= usize::MAX,
        ensures
            final(self).lower == old(self).lower,
            final(self).upper == old(self).upper,
            final(self).level == old(self).level,
            final(self).count == sum_cnt(
                colors@.subrange(old(self).lower as int, old(self).upper as int),
            ),
            bounds_in_range(*final(self)) || old(self).lower == old(self).upper,
            old(self).lower == old(self).upper ==> final(self).rmin == 255 && final(self).rmax == 0
                && final(self).gmin == 255 && final(self).gmax == 0 && final(self).bmin == 255
                && final(self).bmax == 0,
            forall|i: int|
                old(self).lower <= i < old(self).upper ==> final(self).rmin <= (
                #[trigger] colors@[i]).red <= final(self).rmax && final(self).gmin <= colors@[i].grn
                    <= final(self).gmax && final(self).bmin <= colors@[i].blu <= final(self).bmax,
            *final(self) == mk_box(old(self).lower, old(self).upper, old(self).level, colors@),
            old(self).lower < old(self).upper ==> (exists|i: int|
                old(self).lower <= i < old(self).upper && (#[trigger] colors@[i]).red as int
                    == final(self).rmin) && (exists|i: int|
                old(self).lower <= i < old(self).upper && (#[trigger] colors@[i]).red as int
                    == final(self).rmax) && (exists|i: int|
                old(self).lower <= i < old(self).upper && (#[trigger] colors@[i]).grn as int
                    == final(self).gmin) && (exists|i: int|
                old(self).lower <= i < old(self).upper && (#[trigger] colors@[i]).grn as int
                    == final(self).gmax) && (exists|i: int|
                old(self).lower <= i < old(self).upper && (#[trigger] colors@[i]).blu as int
                    == final(self).bmin) && (exists|i: int|
                old(self).lower <= i < old(self).upper && (#[trigger] colors@[i]).blu as int
                    == final(self).bmax),
    {
        self.rmin = 255;
        self.rmax = 0;
        self.gmin = 255;
        self.gmax = 0;
        self.bmin = 255;
        self.bmax = 0;
        self.count = 0;
        let ghost lo = self.lower as int;
        let ghost up0 = self.upper;
        let ghost lv0 = self.level;
        let mut i: usize = self.lower;
        while i < self.upper
            invariant
                lo == self.lower,
                self.upper == up0,
                self.level == lv0,
                self.lower <= i <= self.upper <= colors@.len(),
                sum_cnt(colors@) <= usize::MAX,
                self.count == sum_cnt(colors@.subrange(lo, i as int)),
                i > self.lower ==> bounds_in_range(*self),
                i == self.lower ==> self.rmin == 255 && self.rmax == 0 && self.gmin == 255
                    && self.gmax == 0 && self.bmin == 255 && self.bmax == 0,
                forall|j: int|
                    lo <= j < i ==> self.rmin <= (#[trigger] colors@[j]).red <= self.rmax
                        && self.gmin <= colors@[j].grn <= self.gmax && self.bmin <= colors@[j].blu
                        <= self.bmax,
                self.rmin as int == chan_lo(colors@, lo, i as int, ColorDimension::Red),
                self.rmax as int == chan_hi(colors@, lo, i as int, ColorDimension::Red),
                self.gmin as int == chan_lo(colors@, lo, i as int, ColorDimension::Green),
                self.gmax as int == chan_hi(colors@, lo, i as int, ColorDimension::Green),
                self.bmin as int == chan_lo(colors@, lo, i as int, ColorDimension::Blue),
                self.bmax as int == chan_hi(colors@, lo, i as int, ColorDimension::Blue),
            decreases self.upper - i,
        {
            let color = colors[i];
            proof {
                assert(colors@.subrange(lo, i + 1).drop_last() =~= colors@.subrange(lo, i as int));
                assert(colors@.subrange(lo, i + 1).last() == colors@[i as int]);
                lemma_sum_cnt_subrange(colors@, lo, i + 1);
                lemma_sum_cnt_nonneg(colors@.subrange(lo, i as int));
            }
            self.count = self.count + color.cnt;
            let r = color.red as i32;
            let g = color.grn as i32;
            let b = color.blu as i32;
            if r > self.rmax {
                self.rmax = r;
            }
            if r < self.rmin {
                self.rmin = r;
            }
            if g > self.gmax {
                self.gmax = g;
            }
            if g < self.gmin {
                self.gmin = g;
            }
            if b > self.bmax {
                self.bmax = b;
            }
            if b < self.bmin {
                self.bmin = b;
            }
            i = i + 1;
        }
        proof {
            lemma_chan_bounds(colors@, lo, self.upper as int, ColorDimension::Red);
            lemma_chan_bounds(colors@, lo, self.upper as int, ColorDimension::Green);
            lemma_chan_bounds(colors@, lo, self.upper as int, ColorDimension::Blue);
            assert(*self == mk_box(self.lower, self.upper, self.level, colors@));
        }
    }

    /// The dimension with the largest extent, ties resolved Blue, Green,
    /// then Red.
    pub fn get_longest_color_dimension(&self) -> (dim: ColorDimension)
        requires
            bounds_in_range(*self),
        ensures
            dim == longest_dim(*self),
    {
        let r_length = self.rmax - self.rmin;
        let g_length = self.gmax - self.gmin;
        let b_length = self.bmax - self.bmin;
        if b_length >= r_length && b_length >= g_length {
            ColorDimension::Blue
        } else if g_length >= r_length && g_length >= b_length {
            ColorDimension::Green
        } else {
            ColorDimension::Red
        }
    }

    /// Sorts the box's range along `dim` and returns the median index: the
    /// first position whose running pixel count reaches half the box's
    /// count, kept below `upper - 1` so that both halves of a split stay
    /// nonempty.
    pub fn find_median(&self, dim: ColorDimension, colors: &mut Vec<ColorNode>) -> (med: usize)
        requires
            self.lower + 2 <= self.upper,
            self.upper <= old(colors)@.len(),
            sum_cnt(old(colors)@) <= usize::MAX,
        ensures
            final(colors)@.len() == old(colors)@.len(),
            forall|i: int|
                0 <= i < old(colors)@.len() && !(self.lower <= i < self.upper)
                    ==> final(colors)@[i] == old(colors)@[i],
            final(colors)@.subrange(self.lower as int, self.upper as int) == sort_by_leq(
                old(colors)@.subrange(self.lower as int, self.upper as int),
                dim_leq(dim),
            ),
            sum_cnt(final(colors)@) == sum_cnt(old(colors)@),
            all_cnt_pos(old(colors)@) ==> all_cnt_pos(final(colors)@),
            self.lower <= med <= self.upper - 2,
            forall|j: int|
                self.lower <= j < med ==> sum_cnt(
                    #[trigger] final(colors)@.subrange(self.lower as int, j + 1),
                ) < self.count / 2,
            med < self.upper - 2 ==> sum_cnt(
                final(colors)@.subrange(self.lower as int, med + 1),
            ) >= self.count / 2,
            final(colors)@ == sort_range(old(colors)@, self.lower as int, self.upper as int, dim),
            med as int == median_spec(
                final(colors)@,
                self.lower as int,
                self.upper as int,
                self.count as int / 2,
            ),
    {
        let ghost orig = colors@;
        let ghost lo = self.lower as int;
        let ghost hi = self.upper as int;
        // extract the range, sort it, write it back
        let mut tmp: Vec<ColorNode> = Vec::new();
        let mut t: usize = self.lower;
        while t < self.upper
            invariant
                self.lower <= t <= self.upper <= colors@.len(),
                colors@ == orig,
                lo == self.lower && hi == self.upper,
                tmp@ == orig.subrange(lo, t as int),
            decreases self.upper - t,
        {
            tmp.push(colors[t]);
            proof {
                assert(orig.subrange(lo, t + 1) =~= orig.subrange(lo, t as int).push(
                    orig[t as int],
                ));
            }
            t = t + 1;
        }
        proof {
            assert(tmp@ == orig.subrange(lo, hi));
        }
        sort_nodes_by_dim(&mut tmp, dim);
        let ghost sorted_sub = tmp@;
        proof {
            lemma_dim_leq_well_behaved(dim);
            lemma_sort_by_leq_props(orig.subrange(lo, hi), dim_leq(dim));
        }
        let mut t: usize = 0;
        while t < tmp.len()
            invariant
                t <= tmp@.len(),
                tmp@ == sorted_sub,
                sorted_sub.len() == hi - lo,
                lo == self.lower && hi == self.upper,
                self.lower <= self.upper <= colors@.len(),
                colors@.len() == orig.len(),
                forall|i: int| 0 <= i < orig.len() && !(lo <= i < hi) ==> colors@[i] == orig[i],
                forall|i: int| lo <= i < lo + t ==> colors@[i] == sorted_sub[i - lo],
                forall|i: int| lo + t <= i < hi ==> colors@[i] == orig[i],
            decreases tmp@.len() - t,
        {
            let idx = self.lower + t;
            colors.set(idx, tmp[t]);
            t = t + 1;
        }
        proof {
            assert(colors@.subrange(lo, hi) =~= sorted_sub);
            assert(sorted_sub == sort_by_leq(orig.subrange(lo, hi), dim_leq(dim)));
            lemma_dim_leq_well_behaved(dim);
            lemma_sort_by_leq_props(orig.subrange(lo, hi), dim_leq(dim));
            // the total count is unchanged: split both arrays at lo and hi
            assert(orig =~= orig.subrange(0, lo) + orig.subrange(lo, hi) + orig.subrange(
                hi,
                orig.len() as int,
            ));
            assert(colors@ =~= colors@.subrange(0, lo) + colors@.subrange(lo, hi)
                + colors@.subrange(hi, orig.len() as int));
            assert(colors@.subrange(0, lo) =~= orig.subrange(0, lo));
            assert(colors@.subrange(hi, orig.len() as int) =~= orig.subrange(
                hi,
                orig.len() as int,
            ));
            lemma_sum_cnt_add(
                orig.subrange(0, lo) + orig.subrange(lo, hi),
                orig.subrange(hi, orig.len() as int),
            );
            lemma_sum_cnt_add(orig.subrange(0, lo), orig.subrange(lo, hi));
            lemma_sum_cnt_add(
                colors@.subrange(0, lo) + colors@.subrange(lo, hi),
                colors@.subrange(hi, orig.len() as int),
            );
            lemma_sum_cnt_add(colors@.subrange(0, lo), colors@.subrange(lo, hi));
            // positive counts are preserved pointwise
            if all_cnt_pos(orig) {
                assert forall|i: int| 0 <= i < colors@.len() implies (#[trigger] colors@[i]).cnt
                    >= 1 by {
                    if lo <= i < hi {
                        assert(all_cnt_pos(orig.subrange(lo, hi))) by {
                            assert(forall|j: int|
                                0 <= j < hi - lo ==> (#[trigger] orig.subrange(lo, hi)[j]).cnt
                                    == orig[lo + j].cnt);
                        }
                        assert(all_cnt_pos(sorted_sub));
                        assert(colors@[i] == sorted_sub[i - lo]);
                    }
                }
            }
        }
        proof {
            assert(colors@ =~= sort_range(orig, lo, hi, dim));
        }
        // scan for the first index whose running count reaches half
        let half = self.count / 2;
        let mut n_pixels: usize = 0;
        let mut median = self.lower;
        let ghost cur = colors@;
        while median < self.upper - 2
            invariant
                colors@ == cur,
                cur == sort_range(orig, lo, hi, dim),
                median_spec(cur, lo, hi, half as int) == median_rec(
                    cur,
                    lo,
                    median as int,
                    hi,
                    half as int,
                ),
                half == self.count as int / 2,
                lo == self.lower && hi == self.upper,
                self.lower + 2 <= self.upper <= cur.len(),
                sum_cnt(cur) <= usize::MAX,
                half == self.count / 2,
                self.lower <= median <= self.upper - 2,
                n_pixels == sum_cnt(cur.subrange(lo, median as int)),
                forall|j: int|
                    lo <= j < median ==> sum_cnt(#[trigger] cur.subrange(lo, j + 1)) < half,
                orig == old(colors)@,
                cur.len() == orig.len(),
                forall|i: int| 0 <= i < orig.len() && !(lo <= i < hi) ==> cur[i] == orig[i],
                cur.subrange(lo, hi) == sort_by_leq(orig.subrange(lo, hi), dim_leq(dim)),
                sum_cnt(cur) == sum_cnt(orig),
                all_cnt_pos(orig) ==> all_cnt_pos(cur),
            decreases self.upper - median,
        {
            proof {
                assert(cur.subrange(lo, median + 1).drop_last() =~= cur.subrange(
                    lo,
                    median as int,
                ));
                assert(cur.subrange(lo, median + 1).last() == cur[median as int]);
                lemma_sum_cnt_subrange(cur, lo, median + 1);
                lemma_sum_cnt_nonneg(cur.subrange(lo, median as int));
            }
            n_pixels = n_pixels + colors[median].cnt;
            if n_pixels >= half {
                return median;
            }
            median = median + 1;
        }
        self.upper - 2
    }

    /// Splits the box at the median of its longest dimension.  The box
    /// keeps the lower part of its sorted range including the median node;
    /// the returned box takes the rest.  A box spanning fewer than two
    /// nodes cannot be split.
    pub fn split_box(&mut self, colors: &mut Vec<ColorNode>) -> (r: Option<ColorBox>)
        requires
            box_range_ok(*old(self), old(colors)@.len() as int),
            bounds_in_range(*old(self)) || old(self).lower == old(self).upper,
            old(self).level < u32::MAX,
            sum_cnt(old(colors)@) <= usize::MAX,
        ensures
            final(colors)@.len() == old(colors)@.len(),
            sum_cnt(final(colors)@) == sum_cnt(old(colors)@),
            all_cnt_pos(old(colors)@) ==> all_cnt_pos(final(colors)@),
            forall|i: int|
                0 <= i < old(colors)@.len() && !(old(self).lower <= i < old(self).upper)
                    ==> final(colors)@[i] == old(colors)@[i],
            old(self).upper - old(self).lower < 2 ==> r is None && *final(self) == *old(self)
                && final(colors)@ == old(colors)@,
            old(self).upper - old(self).lower >= 2 ==> r is Some,
            r matches Some(nb) ==> {
                &&& final(self).lower == old(self).lower
                &&& old(self).lower < final(self).upper < old(self).upper
                &&& nb.lower == final(self).upper
                &&& nb.upper == old(self).upper
                &&& final(self).level == old(self).level + 1
                &&& nb.level == old(self).level + 1
                &&& bounds_in_range(*final(self))
                &&& bounds_in_range(nb)
                &&& final(self).count == sum_cnt(
                    final(colors)@.subrange(final(self).lower as int, final(self).upper as int),
                )
                &&& nb.count == sum_cnt(final(colors)@.subrange(nb.lower as int, nb.upper as int))
                &&& final(colors)@.subrange(old(self).lower as int, old(self).upper as int)
                    == sort_by_leq(
                    old(colors)@.subrange(old(self).lower as int, old(self).upper as int),
                    dim_leq(longest_dim(*old(self))),
                )
                &&& forall|j: int|
                    old(self).lower <= j < final(self).upper - 1 ==> sum_cnt(
                        #[trigger] final(colors)@.subrange(old(self).lower as int, j + 1),
                    ) < old(self).count / 2
                &&& final(self).upper - 1 < old(self).upper - 2 ==> sum_cnt(
                    final(colors)@.subrange(old(self).lower as int, final(self).upper as int),
                ) >= old(self).count / 2
                &&& *final(self) == mk_box(
                    old(self).lower,
                    final(self).upper,
                    (old(self).level + 1) as u32,
                    final(colors)@,
                )
                &&& nb == mk_box(
                    final(self).upper,
                    old(self).upper,
                    (old(self).level + 1) as u32,
                    final(colors)@,
                )
                &&& *final(self) == split_spec(*old(self), old(colors)@).0
                &&& nb == split_spec(*old(self), old(colors)@).1
                &&& final(colors)@ == split_spec(*old(self), old(colors)@).2
            },
    {
        if self.color_count() < 2 {
            None
        } else {
            let dim = self.get_longest_color_dimension();
            let med = self.find_median(dim, colors);
            let next_level = self.level + 1;
            let new_box = ColorBox::new(med + 1, self.upper, next_level, colors);
            self.upper = med + 1;
            self.level = next_level;
            self.trim(colors);
            Some(new_box)
        }
    }

    /// One representative node for the box: each channel is the
    /// count-weighted average of the nodes in range, rounded half up, and
    /// the count is the total pixel count of the range.
    pub fn get_average_color(&self, colors: &Vec<ColorNode>) -> (avg: ColorNode)
        requires
            self.lower < self.upper <= colors@.len(),
            sum_cnt(colors@) <= usize::MAX,
            all_cnt_pos(colors@),
        ensures
            node_wf(avg),
            avg.cnt == sum_cnt(colors@.subrange(self.lower as int, self.upper as int)),
            avg.cnt >= 1,
            avg.red as int == (2 * wsum_red(colors@.subrange(self.lower as int, self.upper as int))
                + avg.cnt) / (2 * avg.cnt as int),
            avg.grn as int == (2 * wsum_grn(colors@.subrange(self.lower as int, self.upper as int))
                + avg.cnt) / (2 * avg.cnt as int),
            avg.blu as int == (2 * wsum_blu(colors@.subrange(self.lower as int, self.upper as int))
                + avg.cnt) / (2 * avg.cnt as int),
            avg == avg_node_spec(*self, colors@),
    {
        let ghost lo = self.lower as int;
        let mut r_sum: u128 = 0;
        let mut g_sum: u128 = 0;
        let mut b_sum: u128 = 0;
        let mut n: usize = 0;
        let mut i: usize = self.lower;
        while i < self.upper
            invariant
                lo == self.lower,
                self.lower <= i <= self.upper <= colors@.len(),
                sum_cnt(colors@) <= usize::MAX,
                all_cnt_pos(colors@),
                n == sum_cnt(colors@.subrange(lo, i as int)),
                r_sum == wsum_red(colors@.subrange(lo, i as int)),
                g_sum == wsum_grn(colors@.subrange(lo, i as int)),
                b_sum == wsum_blu(colors@.subrange(lo, i as int)),
            decreases self.upper - i,
        {
            let ci = colors[i];
            proof {
                assert(colors@.subrange(lo, i + 1).drop_last() =~= colors@.subrange(lo, i as int));
                assert(colors@.subrange(lo, i + 1).last() == colors@[i as int]);
                lemma_sum_cnt_subrange(colors@, lo, i + 1);
                lemma_sum_cnt_nonneg(colors@.subrange(lo, i as int));
                lemma_wsum_bounds(colors@.subrange(lo, i + 1));
                lemma_wsum_bounds(colors@.subrange(lo, i as int));
                assert(255 * sum_cnt(colors@.subrange(lo, i + 1)) <= 255 * (usize::MAX as int))
                    by (nonlinear_arith)
                    requires
                        sum_cnt(colors@.subrange(lo, i + 1)) <= usize::MAX as int,
                ;
            }
            r_sum = r_sum + (ci.cnt as u128) * (ci.red as u128);
            g_sum = g_sum + (ci.cnt as u128) * (ci.grn as u128);
            b_sum = b_sum + (ci.cnt as u128) * (ci.blu as u128);
            n = n + ci.cnt;
            i = i + 1;
        }
        let ghost sub = colors@.subrange(lo, self.upper as int);
        proof {
            assert(all_cnt_pos(sub)) by {
                assert(forall|j: int|
                    0 <= j < sub.len() ==> (#[trigger] sub[j]).cnt == colors@[lo + j].cnt);
            }
            lemma_sum_cnt_ge_len(sub);
            lemma_wsum_bounds(sub);
        }
        let nn = n as u128;
        let avg_red = ((2 * r_sum + nn) / (2 * nn)) as u8;
        let avg_grn = ((2 * g_sum + nn) / (2 * nn)) as u8;
        let avg_blu = ((2 * b_sum + nn) / (2 * nn)) as u8;
        proof {
            assert((2 * r_sum + nn) / (2 * nn) <= 255 && (2 * g_sum + nn) / (2 * nn) <= 255 && (2
                * b_sum + nn) / (2 * nn) <= 255) by (nonlinear_arith)
                requires
                    nn >= 1,
                    0 <= r_sum <= 255 * nn,
                    0 <= g_sum <= 255 * nn,
                    0 <= b_sum <= 255 * nn,
            ;
        }
        ColorNode::new_colors(avg_red, avg_grn, avg_blu, n)
    }
}

} // verus!

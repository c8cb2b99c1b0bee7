//! The quantization engine: builds a bounded palette of representative
//! colors with the median-cut algorithm and remaps pixel buffers to their
//! nearest palette entry.

use vstd::prelude::*;

use crate::boxes::{bounds_in_range, ColorBox};
use crate::color::{
    blu_of, dist2, grn_of, lemma_pack_unpack, lemma_unpack_pack, mask_rgb, node_wf, red_of,
    ColorNode,
};
use crate::histogram::{
    distinct_count, lemma_distinct_count_zero, lemma_histogram_distinct_count, masked, sum_counts,
    ColorHistogram,
};
use crate::sorting::{
    all_cnt_pos, cnt_desc_leq, lemma_cnt_desc_leq_well_behaved, lemma_sort_by_leq_props,
    lemma_sort_desc_cnt_ties, occ, rgb_strictly_inc, sort_nodes_desc_cnt, sorted_by, sum_cnt,
    ties_keep_rgb_order,
};

verus! {

/// Index of the palette entry closest to the channels `(red, grn, blu)` by
/// squared Euclidean distance; the earliest entry wins ties.
pub open spec fn closest_index(p: Seq<ColorNode>, red: u8, grn: u8, blu: u8) -> int
    decreases p.len(),
{
    if p.len() <= 1 {
        0
    } else {
        let prev = closest_index(p.drop_last(), red, grn, blu);
        if dist2(p.last(), red, grn, blu) < dist2(p[prev], red, grn, blu) {
            p.len() - 1
        } else {
            prev
        }
    }
}

/// The packed color a single pixel is mapped to by the palette `p`.
pub open spec fn quantized_pixel(p: Seq<ColorNode>, pix: u32) -> u32 {
    p[closest_index(p, red_of(pix), grn_of(pix), blu_of(pix))].rgb
}

/// The whole pixel buffer remapped through the palette `p`.
pub open spec fn quantized_seq(p: Seq<ColorNode>, pixels: Seq<u32>) -> Seq<u32> {
    pixels.map_values(|pix: u32| quantized_pixel(p, pix))
}

/// `v` is the packed color of some entry of the palette `p`.
pub open spec fn palette_has_color(p: Seq<ColorNode>, v: u32) -> bool {
    exists|j: int| 0 <= j < p.len() && v == (#[trigger] p[j]).rgb
}

/// Every value of `out` is the packed color of some entry of `p`.
pub open spec fn all_from_palette(out: Seq<u32>, p: Seq<ColorNode>) -> bool {
    forall|i: int| 0 <= i < out.len() ==> #[trigger] palette_has_color(p, out[i])
}

/// The chosen index is in range, no entry is strictly closer, and every
/// earlier entry is strictly farther away.
pub proof fn lemma_closest_index_props(p: Seq<ColorNode>, red: u8, grn: u8, blu: u8)
    requires
        p.len() > 0,
    ensures
        0 <= closest_index(p, red, grn, blu) < p.len(),
        forall|j: int|
            0 <= j < p.len() ==> dist2(p[closest_index(p, red, grn, blu)], red, grn, blu) <= dist2(
                #[trigger] p[j],
                red,
                grn,
                blu,
            ),
        forall|j: int|
            0 <= j < closest_index(p, red, grn, blu) ==> dist2(#[trigger] p[j], red, grn, blu)
                > dist2(p[closest_index(p, red, grn, blu)], red, grn, blu),
    decreases p.len(),
{
    if p.len() > 1 {
        lemma_closest_index_props(p.drop_last(), red, grn, blu);
        assert(forall|j: int| 0 <= j < p.len() - 1 ==> p.drop_last()[j] == #[trigger] p[j]);
        assert(p.last() == p[p.len() - 1]);
    }
}

/// Squared distances are non-negative, and zero exactly on equal channels.
pub proof fn lemma_dist2_zero(n: ColorNode, red: u8, grn: u8, blu: u8)
    ensures
        dist2(n, red, grn, blu) >= 0,
        dist2(n, red, grn, blu) == 0 <==> (n.red == red && n.grn == grn && n.blu == blu),
{
    let dr = n.red - red;
    let dg = n.grn - grn;
    let db = n.blu - blu;
    assert(dr * dr >= 0 && dg * dg >= 0 && db * db >= 0 && (dr * dr == 0 <==> dr == 0) && (dg * dg
        == 0 <==> dg == 0) && (db * db == 0 <==> db == 0)) by (nonlinear_arith);
}

/// Which box the split loop takes next: the first splittable box (at
/// least two nodes) with the smallest level, scanning left to right and
/// replacing the candidate only on a strictly smaller level.
pub open spec fn pick_spec(boxes: Seq<ColorBox>) -> Option<int>
    decreases boxes.len(),
{
    if boxes.len() == 0 {
        None
    } else {
        let prev = pick_spec(boxes.drop_last());
        let last = boxes.last();
        match prev {
            None => if last.upper - last.lower >= 2 {
                Some(boxes.len() - 1)
            } else {
                None
            },
            Some(pi) => if last.upper - last.lower >= 2 && last.level < boxes[pi].level {
                Some(boxes.len() - 1)
            } else {
                Some(pi)
            },
        }
    }
}

/// One iteration of the split loop: pick the next box, replace it by its
/// lower half and append its upper half, with the node array re-sorted
/// inside the split range.
pub open spec fn build_step(boxes: Seq<ColorBox>, colors: Seq<ColorNode>) -> (Seq<ColorBox>, Seq<
    ColorNode,
>) {
    match pick_spec(boxes) {
        None => (boxes, colors),
        Some(bi) => {
            let s = crate::boxes::split_spec(boxes[bi], colors);
            (boxes.update(bi, s.0).push(s.1), s.2)
        },
    }
}

/// The box set and node array after `steps` splits.
pub open spec fn build_boxes(boxes: Seq<ColorBox>, colors: Seq<ColorNode>, steps: nat) -> (Seq<
    ColorBox,
>, Seq<ColorNode>)
    decreases steps,
{
    if steps == 0 {
        (boxes, colors)
    } else {
        let prev = build_boxes(boxes, colors, (steps - 1) as nat);
        build_step(prev.0, prev.1)
    }
}

/// The palette before the final sort: the deduplicated nodes themselves
/// when the image has at most `k_max` distinct colors, and otherwise the
/// averages of the boxes after `k_max - 1` splits of the root box.
pub open spec fn raw_palette_spec(pixels: Seq<u32>, k_max: u32) -> Seq<ColorNode> {
    let nodes = crate::histogram::hist_nodes(pixels);
    if k_max == 0 {
        Seq::empty()
    } else if nodes.len() <= k_max {
        nodes
    } else {
        let root = crate::boxes::mk_box(0, nodes.len() as usize, 0, nodes);
        let fin = build_boxes(seq![root], nodes, (k_max - 1) as nat);
        crate::boxes::averages_spec(fin.0, fin.1)
    }
}

/// The palette: the raw palette sorted stably by descending pixel count.
/// A spec function of the pixel sequence and `k_max` alone, so two builds
/// on equal inputs yield equal palettes.
pub open spec fn palette_spec(pixels: Seq<u32>, k_max: u32) -> Seq<ColorNode> {
    crate::sorting::sort_by_leq(raw_palette_spec(pixels, k_max), cnt_desc_leq())
}

/// The median-cut quantizer: a palette of representative colors built from
/// one image, usable to remap that image or any other.
pub struct MMCQ {
    /// The deduplicated nodes of the source image, reordered by the splits.
    image_colors: Vec<ColorNode>,
    /// The palette: representative colors by descending pixel count.
    quant_colors: Vec<ColorNode>,
}

impl MMCQ {
    /// The palette as a mathematical sequence.
    pub closed spec fn palette(&self) -> Seq<ColorNode> {
        self.quant_colors@
    }

    /// Read access to the palette, most used colors first.
    pub fn get_quantized_colors(&self) -> (r: &Vec<ColorNode>)
        ensures
            r@ == self.palette(),
    {
        &self.quant_colors
    }

    /// Index of the palette entry with minimal squared Euclidean distance
    /// to the color `rgb`; the lowest index wins ties.
    pub fn find_closest_color_index(&self, rgb: u32) -> (idx: usize)
        ensures
            idx as int == closest_index(self.palette(), red_of(rgb), grn_of(rgb), blu_of(rgb)),
            self.palette().len() > 0 ==> idx < self.palette().len(),
    {
        let red = ((rgb & 0xFF0000) >> 16) as u8;
        let grn = ((rgb & 0xFF00) >> 8) as u8;
        let blu = (rgb & 0xFF) as u8;
        proof {
            assert(((rgb & 0xFF0000) >> 16) as u8 == ((rgb >> 16) & 0xFF) as u8 && ((rgb & 0xFF00)
                >> 8) as u8 == ((rgb >> 8) & 0xFF) as u8) by (bit_vector);
        }
        let ghost p = self.palette();
        let mut min_idx: usize = 0;
        let mut min_distance: i32 = i32::MAX;
        let mut i: usize = 0;
        while i < self.quant_colors.len()
            invariant
                i <= p.len(),
                p == self.palette(),
                red == red_of(rgb) && grn == grn_of(rgb) && blu == blu_of(rgb),
                i == 0 ==> min_idx == 0 && min_distance == i32::MAX,
                i > 0 ==> min_idx as int == closest_index(p.subrange(0, i as int), red, grn, blu)
                    && min_idx < i && min_distance as int == dist2(
                    p[min_idx as int],
                    red,
                    grn,
                    blu,
                ),
            decreases p.len() - i,
        {
            let color = self.quant_colors[i];
            let d2 = color.distance2(red, grn, blu);
            proof {
                assert(p.subrange(0, i + 1).drop_last() =~= p.subrange(0, i as int));
                assert(p.subrange(0, i + 1).last() == p[i as int]);
                if i > 0 {
                    assert(p.subrange(0, i + 1)[min_idx as int] == p[min_idx as int]);
                }
            }
            if d2 < min_distance {
                min_distance = d2;
                min_idx = i;
            }
            i = i + 1;
        }
        proof {
            assert(p.subrange(0, p.len() as int) =~= p);
        }
        min_idx
    }

    /// The palette entry closest to the color `rgb`.
    pub fn find_closest_color(&self, rgb: u32) -> (c: ColorNode)
        requires
            self.palette().len() > 0,
        ensures
            c == self.palette()[closest_index(
                self.palette(),
                red_of(rgb),
                grn_of(rgb),
                blu_of(rgb),
            )],
    {
        let idx = self.find_closest_color_index(rgb);
        self.quant_colors[idx]
    }

    /// Remaps every pixel of the buffer to the packed color of its nearest
    /// palette entry, preserving order and length.  The output equals the
    /// input mapped pointwise; no other palette entry is strictly closer
    /// than the chosen one.
    #[verifier::spinoff_prover]
    pub fn quantize_image(&mut self, orig_pixels: &Vec<u32>) -> (quant: Vec<u32>)
        requires
            old(self).palette().len() > 0 || orig_pixels@.len() == 0,
        ensures
            *final(self) == *old(self),
            quant@.len() == orig_pixels@.len(),
            quant@ == quantized_seq(old(self).palette(), orig_pixels@),
            all_from_palette(quant@, old(self).palette()),
            forall|i: int, j: int|
                0 <= i < orig_pixels@.len() && 0 <= j < old(self).palette().len() ==> dist2(
                    old(self).palette()[closest_index(
                        old(self).palette(),
                        red_of(orig_pixels@[i]),
                        grn_of(orig_pixels@[i]),
                        blu_of(orig_pixels@[i]),
                    )],
                    red_of(orig_pixels@[i]),
                    grn_of(orig_pixels@[i]),
                    blu_of(orig_pixels@[i]),
                ) <= dist2(
                    #[trigger] old(self).palette()[j],
                    red_of(#[trigger] orig_pixels@[i]),
                    grn_of(orig_pixels@[i]),
                    blu_of(orig_pixels@[i]),
                ),
    {
        let ghost p = self.palette();
        let mut quant_pixels: Vec<u32> = Vec::new();
        let mut i: usize = 0;
        while i < orig_pixels.len()
            invariant
                i <= orig_pixels@.len(),
                *self == *old(self),
                p == self.palette(),
                orig_pixels@.len() > 0 ==> p.len() > 0,
                quant_pixels@.len() == i,
                forall|j: int| 0 <= j < i ==> quant_pixels@[j] == quantized_pixel(p, orig_pixels@[j]),
            decreases orig_pixels@.len() - i,
        {
            let color = self.find_closest_color(orig_pixels[i]);
            quant_pixels.push(color.rgb);
            i = i + 1;
        }
        proof {
            assert(quant_pixels@ =~= quantized_seq(p, orig_pixels@));
            assert(p == old(self).palette());
            assert forall|i: int|
                0 <= i < quant_pixels@.len() implies #[trigger] palette_has_color(
                p,
                quant_pixels@[i],
            ) by {
                lemma_closest_index_props(
                    p,
                    red_of(orig_pixels@[i]),
                    grn_of(orig_pixels@[i]),
                    blu_of(orig_pixels@[i]),
                );
                let ci = closest_index(
                    p,
                    red_of(orig_pixels@[i]),
                    grn_of(orig_pixels@[i]),
                    blu_of(orig_pixels@[i]),
                );
                assert(quant_pixels@[i] == quantized_pixel(p, orig_pixels@[i]));
                assert(0 <= ci < p.len() && quant_pixels@[i] == (p[ci]).rgb);
            }
            assert(all_from_palette(quant_pixels@, p));
            assert forall|i: int, j: int|
                0 <= i < orig_pixels@.len() && 0 <= j < p.len() implies dist2(
                p[closest_index(
                    p,
                    red_of(orig_pixels@[i]),
                    grn_of(orig_pixels@[i]),
                    blu_of(orig_pixels@[i]),
                )],
                red_of(orig_pixels@[i]),
                grn_of(orig_pixels@[i]),
                blu_of(orig_pixels@[i]),
            ) <= dist2(
                #[trigger] p[j],
                red_of(#[trigger] orig_pixels@[i]),
                grn_of(orig_pixels@[i]),
                blu_of(orig_pixels@[i]),
            ) by {
                lemma_closest_index_props(
                    p,
                    red_of(orig_pixels@[i]),
                    grn_of(orig_pixels@[i]),
                    blu_of(orig_pixels@[i]),
                );
            }
        }
        quant_pixels
    }

    /// Among the splittable boxes (those spanning at least two nodes),
    /// picks the one with the smallest split level; the earliest such box
    /// wins ties.
    fn find_box_to_split(&self, color_boxes: &Vec<ColorBox>) -> (r: Option<usize>)
        requires
            forall|i: int|
                0 <= i < color_boxes@.len() ==> (#[trigger] color_boxes@[i]).lower
                    <= color_boxes@[i].upper,
        ensures
            r is None ==> forall|i: int|
                0 <= i < color_boxes@.len() ==> (#[trigger] color_boxes@[i]).upper
                    - color_boxes@[i].lower < 2,
            r matches Some(bi) ==> {
                &&& bi < color_boxes@.len()
                &&& color_boxes@[bi as int].upper - color_boxes@[bi as int].lower >= 2
                &&& forall|j: int|
                    0 <= j < color_boxes@.len() && (#[trigger] color_boxes@[j]).upper
                        - color_boxes@[j].lower >= 2 ==> color_boxes@[bi as int].level
                        <= color_boxes@[j].level
                &&& forall|j: int|
                    0 <= j < bi && (#[trigger] color_boxes@[j]).upper - color_boxes@[j].lower >= 2
                        ==> color_boxes@[j].level > color_boxes@[bi as int].level
            },
            r is Some <==> pick_spec(color_boxes@) is Some,
            r matches Some(bi) ==> pick_spec(color_boxes@) == Some(bi as int),
    {
        let mut box_to_split: Option<usize> = None;
        let mut min_level: u32 = 0;
        let mut i: usize = 0;
        while i < color_boxes.len()
            invariant
                i <= color_boxes@.len(),
                forall|j: int|
                    0 <= j < color_boxes@.len() ==> (#[trigger] color_boxes@[j]).lower
                        <= color_boxes@[j].upper,
                box_to_split is None ==> forall|j: int|
                    0 <= j < i ==> (#[trigger] color_boxes@[j]).upper - color_boxes@[j].lower < 2,
                box_to_split matches Some(bi) ==> {
                    &&& bi < i
                    &&& color_boxes@[bi as int].upper - color_boxes@[bi as int].lower >= 2
                    &&& min_level == color_boxes@[bi as int].level
                    &&& forall|j: int|
                        0 <= j < i && (#[trigger] color_boxes@[j]).upper - color_boxes@[j].lower
                            >= 2 ==> min_level <= color_boxes@[j].level
                    &&& forall|j: int|
                        0 <= j < bi && (#[trigger] color_boxes@[j]).upper - color_boxes@[j].lower
                            >= 2 ==> color_boxes@[j].level > min_level
                },
                box_to_split is Some <==> pick_spec(color_boxes@.subrange(0, i as int)) is Some,
                box_to_split matches Some(bi) ==> pick_spec(color_boxes@.subrange(0, i as int))
                    == Some(bi as int),
            decreases color_boxes@.len() - i,
        {
            let b = color_boxes[i];
            proof {
                assert(color_boxes@.subrange(0, i + 1).drop_last() =~= color_boxes@.subrange(
                    0,
                    i as int,
                ));
                assert(color_boxes@.subrange(0, i + 1).last() == color_boxes@[i as int]);
                assert(forall|q: int|
                    0 <= q < i + 1 ==> #[trigger] color_boxes@.subrange(0, i + 1)[q]
                        == color_boxes@[q]);
            }
            if b.color_count() >= 2 {
                if box_to_split.is_none() || b.level < min_level {
                    min_level = b.level;
                    box_to_split = Some(i);
                }
            }
            i = i + 1;
        }
        proof {
            assert(color_boxes@.subrange(0, color_boxes@.len() as int) =~= color_boxes@);
        }
        box_to_split
    }

    /// One averaged representative node per box, in box order.
    fn average_colors(&self, color_boxes: &Vec<ColorBox>) -> (avg: Vec<ColorNode>)
        requires
            forall|i: int|
                0 <= i < color_boxes@.len() ==> (#[trigger] color_boxes@[i]).lower
                    < color_boxes@[i].upper <= self.image_colors@.len(),
            sum_cnt(self.image_colors@) <= usize::MAX,
            all_cnt_pos(self.image_colors@),
        ensures
            avg@.len() == color_boxes@.len(),
            forall|i: int|
                0 <= i < avg@.len() ==> node_wf(#[trigger] avg@[i]) && avg@[i].cnt >= 1,
            forall|i: int|
                0 <= i < avg@.len() ==> (#[trigger] avg@[i]).cnt == sum_cnt(
                    self.image_colors@.subrange(
                        (#[trigger] color_boxes@[i]).lower as int,
                        color_boxes@[i].upper as int,
                    ),
                ),
            avg@ == crate::boxes::averages_spec(color_boxes@, self.image_colors@),
    {
        let mut avg_colors: Vec<ColorNode> = Vec::new();
        let mut i: usize = 0;
        while i < color_boxes.len()
            invariant
                i <= color_boxes@.len(),
                forall|j: int|
                    0 <= j < color_boxes@.len() ==> (#[trigger] color_boxes@[j]).lower
                        < color_boxes@[j].upper <= self.image_colors@.len(),
                sum_cnt(self.image_colors@) <= usize::MAX,
                all_cnt_pos(self.image_colors@),
                avg_colors@.len() == i,
                forall|j: int|
                    0 <= j < i ==> node_wf(#[trigger] avg_colors@[j]) && avg_colors@[j].cnt >= 1,
                forall|j: int|
                    0 <= j < i ==> (#[trigger] avg_colors@[j]).cnt == sum_cnt(
                        self.image_colors@.subrange(
                            (#[trigger] color_boxes@[j]).lower as int,
                            color_boxes@[j].upper as int,
                        ),
                    ),
                forall|j: int|
                    0 <= j < i ==> #[trigger] avg_colors@[j] == crate::boxes::avg_node_spec(
                        color_boxes@[j],
                        self.image_colors@,
                    ),
            decreases color_boxes@.len() - i,
        {
            let b = color_boxes[i];
            let c = b.get_average_color(&self.image_colors);
            avg_colors.push(c);
            i = i + 1;
        }
        proof {
            assert(avg_colors@ =~= crate::boxes::averages_spec(color_boxes@, self.image_colors@));
        }
        avg_colors
    }

    /// Builds the palette for `pixels`: if the image has no more than
    /// `k_max` distinct colors they are returned as they are; otherwise the
    /// node array is partitioned into up to `k_max` boxes by median cut and
    /// each box is averaged into one node.  The result is not yet sorted.
    #[verifier::rlimit(60)]
    fn find_representative_colors(&mut self, pixels: &[u32], k_max: u32) -> (r: Vec<ColorNode>)
        ensures
            r@.len() <= k_max,
            forall|i: int| 0 <= i < r@.len() ==> node_wf(#[trigger] r@[i]) && r@[i].cnt >= 1,
            pixels@.len() == 0 ==> r@.len() == 0,
            k_max >= 1 && pixels@.len() > 0 ==> r@.len() >= 1,
            k_max >= 1 ==> sum_cnt(r@) == pixels@.len(),
            k_max >= 1 ==> r@.len() == (if distinct_count(pixels@) <= k_max {
                distinct_count(pixels@) as int
            } else {
                k_max as int
            }),
            r@ == raw_palette_spec(pixels@, k_max),
            distinct_count(pixels@) <= k_max ==> {
                &&& r@.len() == distinct_count(pixels@)
                &&& rgb_strictly_inc(r@)
                &&& forall|i: int|
                    0 <= i < r@.len() ==> (#[trigger] r@[i]).cnt as int == occ(
                        masked(pixels@),
                        r@[i].rgb,
                    )
                &&& forall|c: u32|
                    occ(masked(pixels@), c) > 0 <==> exists|i: int|
                        0 <= i < r@.len() && (#[trigger] r@[i]).rgb == c
            },
    {
        proof {
            lemma_distinct_count_zero(pixels@);
        }
        if k_max == 0 {
            proof {
                assert(raw_palette_spec(pixels@, 0) =~= Seq::<ColorNode>::empty());
            }
            return Vec::new();
        }
        let total_pixels = pixels.len();
        let color_hist = ColorHistogram::new_pixels(pixels);
        proof {
            lemma_histogram_distinct_count(color_hist, pixels@);
        }
        let cnum = color_hist.color_array.len();

        let mut nodes: Vec<ColorNode> = Vec::new();
        let mut i: usize = 0;
        while i < cnum
            invariant
                i <= cnum == color_hist.color_array@.len(),
                crate::histogram::is_histogram_of(color_hist, pixels@),
                nodes@.len() == i,
                forall|j: int|
                    0 <= j < i ==> (#[trigger] nodes@[j]).rgb == color_hist.color_array@[j]
                        && nodes@[j].cnt == color_hist.count_array@[j] && node_wf(nodes@[j]),
                sum_cnt(nodes@) == sum_counts(color_hist.count_array@.subrange(0, i as int)),
            decreases cnum - i,
        {
            let rgb = color_hist.color_array[i];
            let cnt = color_hist.count_array[i];
            proof {
                assert(color_hist.color_array@.contains(rgb)) by {
                    assert(color_hist.color_array@[i as int] == rgb);
                }
                assert(occ(masked(pixels@), rgb) > 0);
                crate::sorting::lemma_occ_contains(masked(pixels@), rgb);
                let w = choose|w: int|
                    0 <= w < masked(pixels@).len() && masked(pixels@)[w] == rgb;
                assert(masked(pixels@)[w] == mask_rgb(pixels@[w]));
                lemma_pack_unpack(pixels@[w]);
                assert(mask_rgb(rgb) == rgb);
                assert(color_hist.count_array@.subrange(0, i + 1).drop_last()
                    =~= color_hist.count_array@.subrange(0, i as int));
                assert(color_hist.count_array@.subrange(0, i + 1).last()
                    == color_hist.count_array@[i as int]);
            }
            let node = ColorNode::new_rgb(rgb, cnt);
            let ghost nodes_pre = nodes@;
            nodes.push(node);
            proof {
                assert(nodes@.drop_last() =~= nodes_pre);
                assert(nodes@.last() == node);
                assert(sum_cnt(nodes@) == sum_cnt(nodes_pre) + node.cnt);
            }
            i = i + 1;
        }
        proof {
            assert(color_hist.count_array@.subrange(0, cnum as int)
                =~= color_hist.count_array@);
            assert(sum_cnt(nodes@) == pixels@.len());
            assert(rgb_strictly_inc(nodes@));
            assert(all_cnt_pos(nodes@));
            assert(cnum == distinct_count(pixels@));
            // the node array is the unique deduplicated node array of the
            // pixel sequence
            assert forall|j: int|
                0 <= j < nodes@.len() implies #[trigger] nodes@[j]
                == crate::histogram::node_of_color(nodes@[j].rgb, pixels@) by {
                crate::color::lemma_unpack_pack(nodes@[j].red, nodes@[j].grn, nodes@[j].blu);
            }
            assert forall|c: u32| #[trigger] occ(masked(pixels@), c) > 0 implies exists|i: int|
                0 <= i < nodes@.len() && (#[trigger] nodes@[i]).rgb == c by {
                assert(color_hist.color_array@.contains(c));
                let k = choose|k: int|
                    0 <= k < color_hist.color_array@.len() && color_hist.color_array@[k] == c;
                assert(nodes@[k].rgb == c);
            }
            assert forall|c: u32|
                (exists|i: int| 0 <= i < nodes@.len() && (#[trigger] nodes@[i]).rgb == c) implies
                occ(masked(pixels@), c) > 0 by {
                let i = choose|i: int| 0 <= i < nodes@.len() && nodes@[i].rgb == c;
                assert(color_hist.color_array@.contains(color_hist.color_array@[i]));
            }
            assert(crate::histogram::nodes_form(nodes@, pixels@));
            crate::histogram::lemma_hist_nodes_is(nodes@, pixels@);
        }
        self.image_colors = nodes;

        if cnum <= k_max as usize {
            // the image already has few enough colors: return them as they
            // are, ascending by packed color
            let mut r: Vec<ColorNode> = Vec::new();
            let mut i: usize = 0;
            while i < self.image_colors.len()
                invariant
                    i <= self.image_colors@.len(),
                    r@ == self.image_colors@.subrange(0, i as int),
                decreases self.image_colors@.len() - i,
            {
                proof {
                    assert(self.image_colors@.subrange(0, i + 1)
                        =~= self.image_colors@.subrange(0, i as int).push(
                        self.image_colors@[i as int],
                    ));
                }
                let node = self.image_colors[i];
                r.push(node);
                i = i + 1;
            }
            proof {
                assert(r@ =~= self.image_colors@);
                assert forall|c: u32| occ(masked(pixels@), c) > 0 implies exists|i: int|
                    0 <= i < r@.len() && (#[trigger] r@[i]).rgb == c by {
                    assert(color_hist.color_array@.contains(c));
                    let k = choose|k: int|
                        0 <= k < color_hist.color_array@.len() && color_hist.color_array@[k] == c;
                    assert(r@[k].rgb == c);
                }
                assert forall|c: u32|
                    (exists|i: int| 0 <= i < r@.len() && (#[trigger] r@[i]).rgb == c) implies occ(
                    masked(pixels@),
                    c,
                ) > 0 by {
                    let i = choose|i: int| 0 <= i < r@.len() && r@[i].rgb == c;
                    assert(color_hist.color_array@.contains(color_hist.color_array@[i]));
                }
                assert(r@ == raw_palette_spec(pixels@, k_max));
            }
            return r;
        }

        // more distinct colors than palette slots: median-cut
        proof {
            assert(sum_cnt(self.image_colors@) == total_pixels as int <= usize::MAX);
        }
        let initial_box = ColorBox::new(0, cnum, 0, &self.image_colors);
        let mut color_set: Vec<ColorBox> = Vec::new();
        color_set.push(initial_box);
        let mut k: u32 = 1;
        let ghost total = pixels@.len() as int;
        let ghost init_boxes = color_set@;
        let ghost init_colors = self.image_colors@;
        proof {
            assert(color_set@.drop_last() =~= Seq::<ColorBox>::empty());
            assert(color_set@.last() == initial_box);
            assert(self.image_colors@.subrange(0, cnum as int) =~= self.image_colors@);
            assert(crate::boxes::boxes_pixel_sum(Seq::<ColorBox>::empty(), self.image_colors@)
                == 0);
            assert(crate::boxes::boxes_pixel_sum(color_set@, self.image_colors@) == sum_cnt(
                self.image_colors@,
            ));
            assert(crate::boxes::boxes_size_sum(Seq::<ColorBox>::empty()) == 0);
            assert(crate::boxes::boxes_size_sum(color_set@) == cnum);
        }
        loop
            invariant_except_break
                1 <= k == color_set@.len() <= k_max,
                self.image_colors@.len() == cnum,
                sum_cnt(self.image_colors@) == total,
                total <= usize::MAX,
                all_cnt_pos(self.image_colors@),
                forall|i: int|
                    0 <= i < color_set@.len() ==> (#[trigger] color_set@[i]).lower
                        < color_set@[i].upper <= cnum && bounds_in_range(color_set@[i])
                        && color_set@[i].level < k,
                crate::boxes::boxes_disjoint(color_set@),
                crate::boxes::boxes_pixel_sum(color_set@, self.image_colors@) == total,
                crate::boxes::boxes_size_sum(color_set@) == cnum,
                cnum > k_max,
                color_set@ == build_boxes(init_boxes, init_colors, (k - 1) as nat).0,
                self.image_colors@ == build_boxes(init_boxes, init_colors, (k - 1) as nat).1,
            ensures
                color_set@.len() == k_max,
                1 <= color_set@.len() <= k_max,
                color_set@ == build_boxes(init_boxes, init_colors, (k_max - 1) as nat).0,
                self.image_colors@ == build_boxes(init_boxes, init_colors, (k_max - 1) as nat).1,
                self.image_colors@.len() == cnum,
                sum_cnt(self.image_colors@) == total,
                total <= usize::MAX,
                all_cnt_pos(self.image_colors@),
                forall|i: int|
                    0 <= i < color_set@.len() ==> (#[trigger] color_set@[i]).lower
                        < color_set@[i].upper <= cnum,
                crate::boxes::boxes_pixel_sum(color_set@, self.image_colors@) == total,
            decreases k_max - k,
        {
            if k >= k_max {
                break ;
            }
            let picked = self.find_box_to_split(&color_set);
            match picked {
                None => {
                    proof {
                        // every box spans at most one node, yet together
                        // they cover more nodes than there are boxes
                        crate::boxes::lemma_boxes_size_sum_small(color_set@);
                        assert(false);
                    }
                    break ;
                },
                Some(bi) => {
                    let mut bx = color_set[bi];
                    let ghost set_pre = color_set@;
                    let ghost colors_pre = self.image_colors@;
                    let ghost bx_pre = color_set@[bi as int];
                    let res = bx.split_box(&mut self.image_colors);
                    match res {
                        Some(nb) => {
                            color_set.set(bi, bx);
                            color_set.push(nb);
                            proof {
                                let lo = bx_pre.lower as int;
                                let up = bx_pre.upper as int;
                                let colors_now = self.image_colors@;
                                let n = colors_pre.len() as int;
                                // every box's range sum survives the split:
                                // the split box's range was only reordered,
                                // the others are disjoint from it
                                assert forall|j: int| 0 <= j < set_pre.len() implies sum_cnt(
                                    colors_pre.subrange(
                                        (#[trigger] set_pre[j]).lower as int,
                                        set_pre[j].upper as int,
                                    ),
                                ) == sum_cnt(
                                    colors_now.subrange(
                                        set_pre[j].lower as int,
                                        set_pre[j].upper as int,
                                    ),
                                ) by {
                                    if j == bi {
                                        assert(colors_pre =~= colors_pre.subrange(0, lo)
                                            + colors_pre.subrange(lo, up) + colors_pre.subrange(
                                            up,
                                            n,
                                        ));
                                        assert(colors_now =~= colors_now.subrange(0, lo)
                                            + colors_now.subrange(lo, up) + colors_now.subrange(
                                            up,
                                            n,
                                        ));
                                        assert(colors_now.subrange(0, lo) =~= colors_pre.subrange(
                                            0,
                                            lo,
                                        ));
                                        assert(colors_now.subrange(up, n) =~= colors_pre.subrange(
                                            up,
                                            n,
                                        ));
                                        crate::sorting::lemma_sum_cnt_add(
                                            colors_pre.subrange(0, lo) + colors_pre.subrange(
                                                lo,
                                                up,
                                            ),
                                            colors_pre.subrange(up, n),
                                        );
                                        crate::sorting::lemma_sum_cnt_add(
                                            colors_pre.subrange(0, lo),
                                            colors_pre.subrange(lo, up),
                                        );
                                        crate::sorting::lemma_sum_cnt_add(
                                            colors_now.subrange(0, lo) + colors_now.subrange(
                                                lo,
                                                up,
                                            ),
                                            colors_now.subrange(up, n),
                                        );
                                        crate::sorting::lemma_sum_cnt_add(
                                            colors_now.subrange(0, lo),
                                            colors_now.subrange(lo, up),
                                        );
                                    } else {
                                        assert(set_pre[j].upper <= lo || up
                                            <= set_pre[j].lower);
                                        assert(colors_now.subrange(
                                            set_pre[j].lower as int,
                                            set_pre[j].upper as int,
                                        ) =~= colors_pre.subrange(
                                            set_pre[j].lower as int,
                                            set_pre[j].upper as int,
                                        ));
                                    }
                                }
                                crate::boxes::lemma_boxes_pixel_sum_same_sums(
                                    set_pre,
                                    colors_pre,
                                    colors_now,
                                );
                                crate::boxes::lemma_boxes_pixel_sum_update(
                                    set_pre,
                                    colors_now,
                                    bi as int,
                                    bx,
                                );
                                crate::boxes::lemma_boxes_size_sum_update(set_pre, bi as int, bx);
                                let set_mid = set_pre.update(bi as int, bx);
                                assert(color_set@ == set_mid.push(nb));
                                assert(set_mid.push(nb).drop_last() =~= set_mid);
                                assert(set_mid.push(nb).last() == nb);
                                // the two halves partition the old range
                                assert(colors_now.subrange(lo, up) =~= colors_now.subrange(
                                    lo,
                                    bx.upper as int,
                                ) + colors_now.subrange(bx.upper as int, up));
                                crate::sorting::lemma_sum_cnt_add(
                                    colors_now.subrange(lo, bx.upper as int),
                                    colors_now.subrange(bx.upper as int, up),
                                );
                                // the new set is still pairwise disjoint
                                assert forall|i: int, j: int|
                                    0 <= i < color_set@.len() && 0 <= j < color_set@.len() && i
                                        != j implies (#[trigger] color_set@[i]).upper <= (
                                #[trigger] color_set@[j]).lower || color_set@[j].upper
                                    <= color_set@[i].lower by {
                                    let gi = if i < set_pre.len() as int {
                                        color_set@[i]
                                    } else {
                                        nb
                                    };
                                    let gj = if j < set_pre.len() as int {
                                        color_set@[j]
                                    } else {
                                        nb
                                    };
                                    if i < set_pre.len() && j < set_pre.len() && i != bi && j
                                        != bi {
                                        assert(set_pre[i].upper <= set_pre[j].lower
                                            || set_pre[j].upper <= set_pre[i].lower);
                                    } else if i < set_pre.len() && i != bi {
                                        assert(set_pre[i].upper <= lo || up
                                            <= set_pre[i].lower);
                                    } else if j < set_pre.len() && j != bi {
                                        assert(set_pre[j].upper <= lo || up
                                            <= set_pre[j].lower);
                                    }
                                }
                                // the executable step is exactly one spec
                                // build step
                                assert(pick_spec(set_pre) == Some(bi as int));
                                assert(crate::boxes::split_spec(set_pre[bi as int], colors_pre).0
                                    == bx);
                                assert(crate::boxes::split_spec(set_pre[bi as int], colors_pre).1
                                    == nb);
                                assert(crate::boxes::split_spec(set_pre[bi as int], colors_pre).2
                                    == colors_now);
                                assert(build_step(set_pre, colors_pre).0 == color_set@);
                                assert(build_step(set_pre, colors_pre).1 == colors_now);
                                assert(build_boxes(init_boxes, init_colors, k as nat).0
                                    == color_set@);
                                assert(build_boxes(init_boxes, init_colors, k as nat).1
                                    == colors_now);
                            }
                            k = k + 1;
                        },
                        None => {
                            proof {
                                assert(false);
                            }
                            break ;
                        },
                    }
                },
            }
        }
        let r = self.average_colors(&color_set);
        proof {
            crate::boxes::lemma_sum_cnt_matches_boxes(r@, color_set@, self.image_colors@);
            assert(init_boxes =~= seq![initial_box]);
            assert(initial_box == crate::boxes::mk_box(0, cnum, 0, init_colors));
            assert(crate::histogram::hist_nodes(pixels@) == init_colors);
            assert(r@ == raw_palette_spec(pixels@, k_max));
        }
        r
    }

    /// Builds a quantizer from packed 32-bit pixels (the alpha byte of
    /// every pixel is ignored), with a palette of at most `k_max` colors
    /// sorted by descending pixel count, stably.
    pub fn from_pixels_u32_rgba(pixels: &[u32], k_max: u32) -> (m: MMCQ)
        ensures
            m.palette().len() <= k_max,
            sorted_by(m.palette(), cnt_desc_leq()),
            forall|i: int|
                0 <= i < m.palette().len() ==> node_wf(#[trigger] m.palette()[i])
                    && m.palette()[i].cnt >= 1,
            pixels@.len() == 0 ==> m.palette().len() == 0,
            k_max >= 1 && pixels@.len() > 0 ==> m.palette().len() >= 1,
            k_max >= 1 ==> sum_cnt(m.palette()) == pixels@.len(),
            k_max >= 1 ==> m.palette().len() == (if distinct_count(pixels@) <= k_max {
                distinct_count(pixels@) as int
            } else {
                k_max as int
            }),
            m.palette() == palette_spec(pixels@, k_max),
            distinct_count(pixels@) <= k_max ==> {
                &&& m.palette().len() == distinct_count(pixels@)
                &&& forall|i: int|
                    0 <= i < m.palette().len() ==> (#[trigger] m.palette()[i]).cnt as int == occ(
                        masked(pixels@),
                        m.palette()[i].rgb,
                    )
                &&& forall|c: u32|
                    occ(masked(pixels@), c) > 0 <==> exists|i: int|
                        0 <= i < m.palette().len() && (#[trigger] m.palette()[i]).rgb == c
                &&& ties_keep_rgb_order(m.palette())
            },
    {
        let mut m = MMCQ { image_colors: Vec::new(), quant_colors: Vec::new() };
        let mut r = m.find_representative_colors(pixels, k_max);
        let ghost pre = r@;
        sort_nodes_desc_cnt(&mut r);
        proof {
            lemma_cnt_desc_leq_well_behaved();
            lemma_sort_by_leq_props(pre, cnt_desc_leq());
            assert forall|i: int|
                0 <= i < r@.len() implies node_wf(#[trigger] r@[i]) && r@[i].cnt >= 1 && (
            distinct_count(pixels@) <= k_max ==> r@[i].cnt as int == occ(
                masked(pixels@),
                r@[i].rgb,
            )) by {
                assert(r@.contains(r@[i]));
                assert(pre.contains(r@[i]));
                let w = choose|w: int| 0 <= w < pre.len() && pre[w] == r@[i];
                assert(node_wf(pre[w]) && pre[w].cnt >= 1);
            }
            if distinct_count(pixels@) <= k_max {
                lemma_sort_desc_cnt_ties(pre);
                assert forall|c: u32| occ(masked(pixels@), c) > 0 implies exists|i: int|
                    0 <= i < r@.len() && (#[trigger] r@[i]).rgb == c by {
                    let w = choose|w: int| 0 <= w < pre.len() && (#[trigger] pre[w]).rgb == c;
                    assert(pre.contains(pre[w]));
                    assert(r@.contains(pre[w]));
                    let v = choose|v: int| 0 <= v < r@.len() && r@[v] == pre[w];
                    assert(r@[v].rgb == c);
                }
                assert forall|c: u32|
                    (exists|i: int| 0 <= i < r@.len() && (#[trigger] r@[i]).rgb == c) implies occ(
                    masked(pixels@),
                    c,
                ) > 0 by {
                    let i = choose|i: int| 0 <= i < r@.len() && r@[i].rgb == c;
                    assert(r@.contains(r@[i]));
                    assert(pre.contains(r@[i]));
                    let w = choose|w: int| 0 <= w < pre.len() && pre[w] == r@[i];
                    assert(pre[w].rgb == c);
                }
            }
        }
        m.quant_colors = r;
        m
    }

    /// Builds a quantizer from a byte buffer holding four bytes per pixel
    /// in the fixed order red, green, blue, alpha; the alpha byte is
    /// discarded.  A buffer whose length is not a multiple of four is
    /// rejected.
    pub fn from_pixels_u8_rgba(pixels: &[u8], k_max: u32) -> (r: Option<MMCQ>)
        ensures
            r is None <==> pixels@.len() % 4 != 0,
            r matches Some(m) ==> {
                &&& m.palette().len() <= k_max
                &&& sorted_by(m.palette(), cnt_desc_leq())
                &&& forall|i: int|
                    0 <= i < m.palette().len() ==> node_wf(#[trigger] m.palette()[i])
                        && m.palette()[i].cnt >= 1
                &&& (pixels@.len() == 0 ==> m.palette().len() == 0)
                &&& (k_max >= 1 && pixels@.len() > 0 ==> m.palette().len() >= 1)
                &&& (k_max >= 1 ==> sum_cnt(m.palette()) == decode_rgba(pixels@).len())
                &&& (k_max >= 1 ==> m.palette().len() == (if distinct_count(decode_rgba(pixels@))
                    <= k_max {
                    distinct_count(decode_rgba(pixels@)) as int
                } else {
                    k_max as int
                }))
                &&& m.palette() == palette_spec(decode_rgba(pixels@), k_max)
                &&& (distinct_count(decode_rgba(pixels@)) <= k_max ==> {
                    &&& m.palette().len() == distinct_count(decode_rgba(pixels@))
                    &&& forall|i: int|
                        0 <= i < m.palette().len() ==> (#[trigger] m.palette()[i]).cnt as int
                            == occ(masked(decode_rgba(pixels@)), m.palette()[i].rgb)
                    &&& forall|c: u32|
                        occ(masked(decode_rgba(pixels@)), c) > 0 <==> exists|i: int|
                            0 <= i < m.palette().len() && (#[trigger] m.palette()[i]).rgb == c
                    &&& ties_keep_rgb_order(m.palette())
                })
            },
    {
        if pixels.len() % 4 != 0 {
            return None;
        }
        let n = pixels.len() / 4;
        let mut packed: Vec<u32> = Vec::new();
        let mut i: usize = 0;
        while i < n
            invariant
                i <= n == pixels@.len() / 4,
                pixels@.len() % 4 == 0,
                pixels@.len() <= usize::MAX,
                packed@.len() == i,
                forall|j: int|
                    0 <= j < i ==> packed@[j] == crate::color::pack_rgb(
                        pixels@[4 * j],
                        pixels@[4 * j + 1],
                        pixels@[4 * j + 2],
                    ),
            decreases n - i,
        {
            proof {
                vstd::arithmetic::div_mod::lemma_fundamental_div_mod(pixels@.len() as int, 4);
                assert(4 * (pixels@.len() / 4) == pixels@.len());
            }
            let r_b = pixels[4 * i];
            let g_b = pixels[4 * i + 1];
            let b_b = pixels[4 * i + 2];
            let v = ((r_b as u32) << 16) | ((g_b as u32) << 8) | (b_b as u32);
            packed.push(v);
            i = i + 1;
        }
        proof {
            assert(packed@ =~= decode_rgba(pixels@));
        }
        Some(MMCQ::from_pixels_u32_rgba(packed.as_slice(), k_max))
    }
}

/// The byte buffer as packed colors: four bytes per pixel in the order
/// red, green, blue, alpha, encoded as `(red << 16) | (grn << 8) | blu`.
pub open spec fn decode_rgba(bytes: Seq<u8>) -> Seq<u32> {
    Seq::new((bytes.len() / 4) as nat, |i: int| crate::color::pack_rgb(bytes[4 * i], bytes[4 * i + 1], bytes[4 * i + 2]))
}

/// Law: remapping is idempotent on a single pixel.  A pixel already equal
/// to the color the palette maps it to is mapped to itself again.
pub proof fn lemma_quantize_idempotent_pixel(p: Seq<ColorNode>, pix: u32)
    requires
        p.len() > 0,
        forall|i: int| 0 <= i < p.len() ==> node_wf(#[trigger] p[i]),
    ensures
        quantized_pixel(p, quantized_pixel(p, pix)) == quantized_pixel(p, pix),
{
    let r0 = red_of(pix);
    let g0 = grn_of(pix);
    let b0 = blu_of(pix);
    lemma_closest_index_props(p, r0, g0, b0);
    let i = closest_index(p, r0, g0, b0);
    let y = p[i].rgb;
    lemma_unpack_pack(p[i].red, p[i].grn, p[i].blu);
    assert(red_of(y) == p[i].red && grn_of(y) == p[i].grn && blu_of(y) == p[i].blu);
    let r1 = red_of(y);
    let g1 = grn_of(y);
    let b1 = blu_of(y);
    lemma_closest_index_props(p, r1, g1, b1);
    let i2 = closest_index(p, r1, g1, b1);
    lemma_dist2_zero(p[i], r1, g1, b1);
    assert(dist2(p[i], r1, g1, b1) == 0);
    lemma_dist2_zero(p[i2], r1, g1, b1);
    assert(dist2(p[i2], r1, g1, b1) <= dist2(p[i], r1, g1, b1));
    assert(dist2(p[i2], r1, g1, b1) == 0);
    assert(p[i2].red == p[i].red && p[i2].grn == p[i].grn && p[i2].blu == p[i].blu);
    if i2 < i {
        // the first search skipped i2, so i2 was strictly farther from the
        // original pixel; but its channels equal those of p[i]
        assert(dist2(p[i2], r0, g0, b0) > dist2(p[i], r0, g0, b0));
        assert(dist2(p[i2], r0, g0, b0) == dist2(p[i], r0, g0, b0));
        assert(false);
    }
    if i2 > i {
        // the second search skipped i, which sits at distance zero
        assert(dist2(p[i], r1, g1, b1) > dist2(p[i2], r1, g1, b1));
        assert(false);
    }
    assert(i2 == i);
    assert(quantized_pixel(p, y) == p[i].rgb);
}

/// Law: remapping a whole buffer is idempotent.  Applying the palette to
/// an already quantized image returns it unchanged.
pub proof fn lemma_quantize_idempotent(p: Seq<ColorNode>, pixels: Seq<u32>)
    requires
        p.len() > 0,
        forall|i: int| 0 <= i < p.len() ==> node_wf(#[trigger] p[i]),
    ensures
        quantized_seq(p, quantized_seq(p, pixels)) == quantized_seq(p, pixels),
{
    let q = quantized_seq(p, pixels);
    assert forall|i: int| 0 <= i < q.len() implies quantized_pixel(p, #[trigger] q[i]) == q[i] by {
        assert(q[i] == quantized_pixel(p, pixels[i]));
        lemma_quantize_idempotent_pixel(p, pixels[i]);
    }
    assert(quantized_seq(p, q) =~= q);
}

} // verus!

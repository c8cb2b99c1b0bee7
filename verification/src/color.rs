//! A single distinct color together with the number of pixels that carry it.
//!
//! The packed form is canonical: `rgb == (red << 16) | (grn << 8) | blu`,
//! with the alpha byte (bits 24..32) always stripped.

use vstd::prelude::*;

verus! {

/// One distinct color observed in an image, with its pixel count.
#[derive(Debug, Clone, Copy, PartialEq, Eq, Structural)]
pub struct ColorNode {
    /// Packed 24-bit color, canonical identity: `(red << 16) | (grn << 8) | blu`.
    pub rgb: u32,
    /// Red channel, bits 16..24 of `rgb`.
    pub red: u8,
    /// Green channel, bits 8..16 of `rgb`.
    pub grn: u8,
    /// Blue channel, bits 0..8 of `rgb`.
    pub blu: u8,
    /// Number of pixels of the source image having exactly this color.
    pub cnt: usize,
}

/// The canonical packed form of three channel values.
pub open spec fn pack_rgb(red: u8, grn: u8, blu: u8) -> u32 {
    ((red as u32) << 16) | ((grn as u32) << 8) | (blu as u32)
}

/// Strips the alpha byte from a 32-bit pixel value.
pub open spec fn mask_rgb(p: u32) -> u32 {
    p & 0xFF_FF_FF
}

/// Red channel of a packed pixel value (alpha bits ignored).
pub open spec fn red_of(p: u32) -> u8 {
    ((p >> 16) & 0xFF) as u8
}

/// Green channel of a packed pixel value.
pub open spec fn grn_of(p: u32) -> u8 {
    ((p >> 8) & 0xFF) as u8
}

/// Blue channel of a packed pixel value.
pub open spec fn blu_of(p: u32) -> u8 {
    (p & 0xFF) as u8
}

/// A node is well formed when its packed form matches its channels.
pub open spec fn node_wf(n: ColorNode) -> bool {
    n.rgb == pack_rgb(n.red, n.grn, n.blu)
}

/// Squared Euclidean distance between a node's color and the channels
/// `(red, grn, blu)`, as a mathematical integer.
pub open spec fn dist2(n: ColorNode, red: u8, grn: u8, blu: u8) -> int {
    (n.red - red) * (n.red - red) + (n.grn - grn) * (n.grn - grn) + (n.blu - blu) * (n.blu
        - blu)
}

/// Packing the decoded channels of a masked value gives the masked value back.
pub proof fn lemma_pack_unpack(p: u32)
    ensures
        pack_rgb(red_of(p), grn_of(p), blu_of(p)) == mask_rgb(p),
        mask_rgb(mask_rgb(p)) == mask_rgb(p),
        mask_rgb(p) <= 0xFF_FF_FF,
{
    assert((((((p >> 16) & 0xFF) as u8) as u32) << 16) | (((((p >> 8) & 0xFF) as u8) as u32) << 8)
        | (((p & 0xFF) as u8) as u32) == p & 0xFF_FF_FF) by (bit_vector);
    assert((p & 0xFF_FF_FF) & 0xFF_FF_FF == p & 0xFF_FF_FF) by (bit_vector);
    assert(p & 0xFF_FF_FF <= 0xFF_FF_FF) by (bit_vector);
}

/// Decoding a canonically packed value gives the channels back.
pub proof fn lemma_unpack_pack(red: u8, grn: u8, blu: u8)
    ensures
        red_of(pack_rgb(red, grn, blu)) == red,
        grn_of(pack_rgb(red, grn, blu)) == grn,
        blu_of(pack_rgb(red, grn, blu)) == blu,
        pack_rgb(red, grn, blu) <= 0xFF_FF_FF,
{
    assert(((((red as u32) << 16) | ((grn as u32) << 8) | (blu as u32)) >> 16) & 0xFF
        == red as u32) by (bit_vector);
    assert(((((red as u32) << 16) | ((grn as u32) << 8) | (blu as u32)) >> 8) & 0xFF == grn as u32
        || red as u32 > 0xFF) by (bit_vector);
    assert((((red as u32) << 16) | ((grn as u32) << 8) | (blu as u32)) & 0xFF == blu as u32
        || red as u32 > 0xFF || grn as u32 > 0xFF) by (bit_vector);
    assert((((red as u32) << 16) | ((grn as u32) << 8) | (blu as u32)) <= 0xFF_FF_FF
        || red as u32 > 0xFF || grn as u32 > 0xFF || blu as u32 > 0xFF) by (bit_vector);
}

impl ColorNode {
    /// Builds a node from a packed pixel value, stripping the alpha byte and
    /// decoding the three channels.
    pub fn new_rgb(rgb: u32, cnt: usize) -> (n: ColorNode)
        ensures
            n.rgb == mask_rgb(rgb),
            n.red == red_of(rgb),
            n.grn == grn_of(rgb),
            n.blu == blu_of(rgb),
            n.cnt == cnt,
            node_wf(n),
    {
        proof {
            lemma_pack_unpack(rgb);
            assert(red_of(rgb & 0xFF_FF_FF) == red_of(rgb) && grn_of(rgb & 0xFF_FF_FF) == grn_of(
                rgb,
            ) && blu_of(rgb & 0xFF_FF_FF) == blu_of(rgb)) by (bit_vector);
        }
        ColorNode {
            rgb: rgb & 0xFF_FF_FF,
            red: ((rgb >> 16) & 0xFF) as u8,
            grn: ((rgb >> 8) & 0xFF) as u8,
            blu: (rgb & 0xFF) as u8,
            cnt,
        }
    }

    /// Builds a node from explicit channel values, encoding the packed form.
    pub fn new_colors(red: u8, grn: u8, blu: u8, cnt: usize) -> (n: ColorNode)
        ensures
            n.rgb == pack_rgb(red, grn, blu),
            n.red == red,
            n.grn == grn,
            n.blu == blu,
            n.cnt == cnt,
            node_wf(n),
    {
        ColorNode { rgb: ((red as u32) << 16) | ((grn as u32) << 8) | (blu as u32), red, grn, blu, cnt }
    }

    /// Squared Euclidean RGB distance between this node and `(red, grn, blu)`.
    pub fn distance2(&self, red: u8, grn: u8, blu: u8) -> (d: i32)
        ensures
            d as int == dist2(*self, red, grn, blu),
            0 <= d <= 195075,
    {
        let dr = self.red as i32 - red as i32;
        let dg = self.grn as i32 - grn as i32;
        let db = self.blu as i32 - blu as i32;
        proof {
            assert(0 <= dr * dr <= 65025 && 0 <= dg * dg <= 65025 && 0 <= db * db <= 65025)
                by (nonlinear_arith)
                requires
                    -255 <= dr <= 255,
                    -255 <= dg <= 255,
                    -255 <= db <= 255,
            ;
        }
        dr * dr + dg * dg + db * db
    }
}

} // verus!

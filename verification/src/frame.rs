//! The live path: luma plane, Sobel edges and the composed overlay that the
//! capture page shows, plus the fixed-size processor that owns the buffers and
//! rectifies the captured frame.
use vstd::prelude::*;

use crate::detect;
use crate::double::Double;
use crate::image::RectifiedWallImage;
use crate::loop_closure;
use crate::plane;
use crate::rectify;
use crate::still;
use crate::still::{rectify_frame, Rectified};

verus! {

/// Edge strength from which a pixel is tinted.
pub const EDGE_THRESHOLD: u8 = 96;

/// BT.601 integer luma approximation of one RGB pixel.
pub open spec fn luma(r: u8, g: u8, b: u8) -> int {
    (77 * r + 150 * g + 29 * b) / 256
}

/// Luma of pixel `i` of an RGBA frame.
pub open spec fn luma_at(rgba: Seq<u8>, i: int) -> int {
    luma(rgba[4 * i], rgba[4 * i + 1], rgba[4 * i + 2])
}

/// BT.601 integer luma approximation of one RGBA pixel.
pub fn rgba_to_luma(r: u8, g: u8, b: u8) -> (v: u8)
    ensures
        v == luma(r, g, b),
{
    let weighted: u32 = 77 * r as u32 + 150 * g as u32 + 29 * b as u32;
    assert(weighted >> 8 == weighted / 256) by (bit_vector);
    (weighted >> 8) as u8
}

/// Convert a tightly-packed RGBA frame to a luma plane.
///
/// `gray` must hold `width * height` bytes; `rgba` four times that.
pub fn grayscale(rgba: &[u8], gray: &mut [u8])
    requires
        rgba@.len() == old(gray)@.len() * 4,
    ensures
        final(gray)@.len() == old(gray)@.len(),
        forall|i: int| 0 <= i < final(gray)@.len()
            ==> #[trigger] final(gray)@[i] == luma_at(rgba@, i),
{
    let n: usize = gray.len();
    let mut i: usize = 0;
    while i < n
        invariant
            i <= n,
            n == gray@.len(),
            rgba@.len() == n * 4,
            forall|k: int| 0 <= k < i ==> #[trigger] gray@[k] == luma_at(rgba@, k),
        decreases n - i,
    {
        assert(rgba@.len() == rgba.len());
        gray[i] = rgba_to_luma(rgba[4 * i], rgba[4 * i + 1], rgba[4 * i + 2]);
        i = i + 1;
    }
}

/// Luma of pixel (x, y).
pub open spec fn px(gray: Seq<u8>, w: int, x: int, y: int) -> int {
    gray[plane::index_of(w, x, y)] as int
}

/// Horizontal Sobel gradient.
pub open spec fn gradient_x(gray: Seq<u8>, w: int, x: int, y: int) -> int {
    px(gray, w, x + 1, y - 1) + 2 * px(gray, w, x + 1, y) + px(gray, w, x + 1, y + 1) - px(
        gray,
        w,
        x - 1,
        y - 1,
    ) - 2 * px(gray, w, x - 1, y) - px(gray, w, x - 1, y + 1)
}

/// Vertical Sobel gradient.
pub open spec fn gradient_y(gray: Seq<u8>, w: int, x: int, y: int) -> int {
    px(gray, w, x - 1, y + 1) + 2 * px(gray, w, x, y + 1) + px(gray, w, x + 1, y + 1) - px(
        gray,
        w,
        x - 1,
        y - 1,
    ) - 2 * px(gray, w, x, y - 1) - px(gray, w, x + 1, y - 1)
}

pub open spec fn absolute(v: int) -> int {
    if v < 0 {
        -v
    } else {
        v
    }
}

/// (x, y) is not on the frame's border.
pub open spec fn is_interior(w: int, h: int, x: int, y: int) -> bool {
    1 <= x < w - 1 && 1 <= y < h - 1
}

/// Edge strength of pixel (x, y): gradient magnitude, saturated; 0 on the
/// border.
pub open spec fn edge_at(gray: Seq<u8>, w: int, h: int, x: int, y: int) -> int {
    if is_interior(w, h, x, y) {
        let mag = absolute(gradient_x(gray, w, x, y)) + absolute(gradient_y(gray, w, x, y));
        if mag < 255 {
            mag
        } else {
            255
        }
    } else {
        0
    }
}

fn luma_px(gray: &[u8], width: usize, height: usize, x: usize, y: usize) -> (v: i32)
    requires
        gray@.len() == width * height,
        plane::in_plane(width as int, height as int, x as int, y as int),
    ensures
        v == px(gray@, width as int, x as int, y as int),
        0 <= v <= 255,
{
    proof {
        plane::lemma_index_bounds(width as int, height as int, x as int, y as int);
        assert(gray@.len() == gray.len());
    }
    gray[y * width + x] as i32
}

fn edge_strength(gray: &[u8], width: usize, height: usize, x: usize, y: usize) -> (v: u8)
    requires
        gray@.len() == width * height,
        is_interior(width as int, height as int, x as int, y as int),
    ensures
        v == edge_at(gray@, width as int, height as int, x as int, y as int),
{
    let nw: i32 = luma_px(gray, width, height, x - 1, y - 1);
    let n: i32 = luma_px(gray, width, height, x, y - 1);
    let ne: i32 = luma_px(gray, width, height, x + 1, y - 1);
    let w: i32 = luma_px(gray, width, height, x - 1, y);
    let e: i32 = luma_px(gray, width, height, x + 1, y);
    let sw: i32 = luma_px(gray, width, height, x - 1, y + 1);
    let s: i32 = luma_px(gray, width, height, x, y + 1);
    let se: i32 = luma_px(gray, width, height, x + 1, y + 1);
    let gx: i32 = -nw - 2 * w - sw + ne + 2 * e + se;
    let gy: i32 = -nw - 2 * n - ne + sw + 2 * s + se;
    let ax: i32 = if gx < 0 {
        -gx
    } else {
        gx
    };
    let ay: i32 = if gy < 0 {
        -gy
    } else {
        gy
    };
    if ax + ay < 255 {
        (ax + ay) as u8
    } else {
        255
    }
}

/// Sobel gradient magnitude (clamped to 0..=255) at interior pixels.
///
/// Border pixels are written as 0. `gray` and `edges` are `width * height`
/// luma planes.
pub fn sobel_edges(gray: &[u8], edges: &mut [u8], width: usize, height: usize)
    requires
        gray@.len() == width * height,
        old(edges)@.len() == width * height,
    ensures
        final(edges)@.len() == old(edges)@.len(),
        forall|x: int, y: int|
            #![trigger plane::index_of(width as int, x, y)]
            plane::in_plane(width as int, height as int, x, y) ==> final(edges)@[plane::index_of(
                width as int,
                x,
                y,
            )] == edge_at(gray@, width as int, height as int, x, y),
{
    let ghost w = width as int;
    let ghost h = height as int;
    let mut i: usize = 0;
    let total: usize = edges.len();
    while i < total
        invariant
            i <= total,
            w == width,
            h == height,
            total == w * h,
            edges@.len() == total,
            gray@.len() == total,
            forall|k: int|
                0 <= k < i ==> #[trigger] edges@[k] == edge_at(gray@, w, h, k % w, k / w),
        decreases total - i,
    {
        proof {
            assert(w > 0) by (nonlinear_arith)
                requires
                    w >= 0,
                    0 < w * h,
            ;
            plane::lemma_index_unsplit(w, h, i as int);
        }
        let x: usize = i % width;
        let y: usize = i / width;
        if x >= 1 && y >= 1 && x < width - 1 && y < height - 1 {
            edges[i] = edge_strength(gray, width, height, x, y);
        } else {
            edges[i] = 0;
        }
        i = i + 1;
    }
    proof {
        assert forall|x: int, y: int|
            #![trigger plane::index_of(w, x, y)]
            plane::in_plane(w, h, x, y) implies edges@[plane::index_of(w, x, y)] == edge_at(
            gray@,
            w,
            h,
            x,
            y,
        ) by {
            plane::lemma_index_bounds(w, h, x, y);
            plane::lemma_index_split(w, x, y);
            let k = plane::index_of(w, x, y);
            assert(edges@[k] == edge_at(gray@, w, h, k % w, k / w));
        }
    }
}

/// The overlay pixel of a luma value and an edge strength: strong edges are
/// tinted green, the rest stays gray.
pub open spec fn overlay_px(g: u8, e: u8) -> (u8, u8, u8, u8) {
    if e >= EDGE_THRESHOLD {
        (0, 255, 96, 255)
    } else {
        (g, g, g, 255)
    }
}

/// The four bytes of pixel `i`.
pub open spec fn rgba_at(rgba: Seq<u8>, i: int) -> (u8, u8, u8, u8) {
    (rgba[4 * i], rgba[4 * i + 1], rgba[4 * i + 2], rgba[4 * i + 3])
}

/// Compose the overlay frame: grayscale base with strong edges tinted green,
/// so the capture page shows unmistakably processed output.
pub fn compose_overlay(gray: &[u8], edges: &[u8], rgba_out: &mut [u8])
    requires
        old(rgba_out)@.len() == gray@.len() * 4,
        edges@.len() == gray@.len(),
    ensures
        final(rgba_out)@.len() == old(rgba_out)@.len(),
        forall|i: int|
            0 <= i < gray@.len() ==> #[trigger] rgba_at(final(rgba_out)@, i) == overlay_px(
                gray@[i],
                edges@[i],
            ),
{
    let n: usize = gray.len();
    let mut i: usize = 0;
    while i < n
        invariant
            i <= n,
            n == gray@.len(),
            edges@.len() == n,
            rgba_out@.len() == n * 4,
            forall|k: int|
                0 <= k < i ==> #[trigger] rgba_at(rgba_out@, k) == overlay_px(gray@[k], edges@[k]),
        decreases n - i,
    {
        assert(rgba_out@.len() == rgba_out.len());
        let g: u8 = gray[i];
        let ghost before = rgba_out@;
        if edges[i] >= EDGE_THRESHOLD {
            rgba_out[4 * i] = 0;
            rgba_out[4 * i + 1] = 255;
            rgba_out[4 * i + 2] = 96;
        } else {
            rgba_out[4 * i] = g;
            rgba_out[4 * i + 1] = g;
            rgba_out[4 * i + 2] = g;
        }
        rgba_out[4 * i + 3] = 255;
        proof {
            assert forall|k: int| 0 <= k < i + 1 implies #[trigger] rgba_at(rgba_out@, k)
                == overlay_px(gray@[k], edges@[k]) by {
                if k < i {
                    assert(rgba_at(before, k) == overlay_px(gray@[k], edges@[k]));
                }
            }
        }
        i = i + 1;
    }
}

/// Pixel count for a `width` x `height` frame, or `None` if either dimension
/// is zero or the RGBA byte length (`w * h * 4`) would overflow `usize`.
pub fn checked_frame_pixels(width: u32, height: u32) -> (pixels: Option<usize>)
    ensures
        pixels == (if 0 < width * height && width * height * 4 <= usize::MAX {
            Some((width * height) as usize)
        } else {
            None::<usize>
        }),
{
    match (width as usize).checked_mul(height as usize) {
        Some(n) => if n > 0 && n.checked_mul(4).is_some() {
            Some(n)
        } else {
            None
        },
        None => None,
    }
}

/// Fixed-size frame processor owning all buffers.
pub struct FrameProcessor {
    width: usize,
    height: usize,
    input_rgba: Vec<u8>,
    gray: Vec<u8>,
    edges: Vec<u8>,
    output_rgba: Vec<u8>,
}

impl FrameProcessor {
    pub closed spec fn frame_width(self) -> int {
        self.width as int
    }

    pub closed spec fn frame_height(self) -> int {
        self.height as int
    }

    /// The frame to process.
    pub closed spec fn input_frame(self) -> Seq<u8> {
        self.input_rgba@
    }

    /// The processed overlay.
    pub closed spec fn output_frame(self) -> Seq<u8> {
        self.output_rgba@
    }

    /// All buffers have the size of the frame.
    pub closed spec fn wf(self) -> bool {
        &&& self.width > 0
        &&& self.height > 0
        &&& self.input_rgba@.len() == self.width * self.height * 4
        &&& self.gray@.len() == self.width * self.height
        &&& self.edges@.len() == self.width * self.height
        &&& self.output_rgba@.len() == self.width * self.height * 4
    }

    /// Allocate a processor for `width` x `height` RGBA frames. Zero or
    /// overflowing dimensions are refused.
    pub fn new(width: u32, height: u32) -> (result: Result<FrameProcessor, &'static str>)
        ensures
            result is Ok <==> 0 < width * height && width * height * 4 <= usize::MAX,
            result matches Ok(fp) ==> fp.wf() && fp.frame_width() == width && fp.frame_height()
                == height && fp.input_frame() == Seq::new(
                (width * height * 4) as nat,
                |i: int| 0u8,
            ) && fp.output_frame() == fp.input_frame(),
            result matches Err(message) ==> message@ == "invalid frame dimensions"@,
    {
        match checked_frame_pixels(width, height) {
            Some(n) => {
                proof {
                    assert(width > 0 && height > 0) by (nonlinear_arith)
                        requires
                            0 < width * height,
                            width >= 0,
                            height >= 0,
                    ;
                }
                let fp = FrameProcessor {
                    width: width as usize,
                    height: height as usize,
                    input_rgba: vec![0u8; n * 4],
                    gray: vec![0u8; n],
                    edges: vec![0u8; n],
                    output_rgba: vec![0u8; n * 4],
                };
                assert(fp.input_rgba@ =~= Seq::new((width * height * 4) as nat, |i: int| 0u8));
                assert(fp.output_rgba@ =~= fp.input_rgba@);
                Ok(fp)
            },
            None => Err("invalid frame dimensions"),
        }
    }

    /// Where the capture page writes the next RGBA frame (`width * height * 4`
    /// bytes).
    pub fn input_mut(&mut self) -> (input: &mut [u8])
        requires
            old(self).wf(),
        ensures
            input@ == old(self).input_frame(),
            final(input)@.len() == input@.len() ==> final(self).wf(),
            final(self).input_frame() == final(input)@,
            final(self).frame_width() == old(self).frame_width(),
            final(self).frame_height() == old(self).frame_height(),
            final(self).output_frame() == old(self).output_frame(),
    {
        self.input_rgba.as_mut_slice()
    }

    /// The frame in the input buffer.
    pub fn input(&self) -> (input: &[u8])
        ensures
            input@ == self.input_frame(),
    {
        self.input_rgba.as_slice()
    }

    /// The processed RGBA overlay (`width * height * 4` bytes).
    pub fn output(&self) -> (output: &[u8])
        ensures
            output@ == self.output_frame(),
    {
        self.output_rgba.as_slice()
    }

    /// Byte length of one RGBA frame at this processor's dimensions.
    pub fn frame_len(&self) -> (n: usize)
        requires
            self.wf(),
        ensures
            n == self.frame_width() * self.frame_height() * 4,
    {
        self.input_rgba.len()
    }

    /// Run the live pipeline on the frame currently in the input buffer:
    /// grayscale -> Sobel edges -> composed overlay.
    pub fn process(&mut self)
        requires
            old(self).wf(),
        ensures
            final(self).wf(),
            final(self).frame_width() == old(self).frame_width(),
            final(self).frame_height() == old(self).frame_height(),
            final(self).input_frame() == old(self).input_frame(),
            exists|gray: Seq<u8>|
                #[trigger] is_luma_plane(gray, old(self).input_frame()) && is_overlay(
                    final(self).output_frame(),
                    gray,
                    old(self).frame_width(),
                    old(self).frame_height(),
                ),
    {
        grayscale(self.input_rgba.as_slice(), self.gray.as_mut_slice());
        sobel_edges(self.gray.as_slice(), self.edges.as_mut_slice(), self.width, self.height);
        compose_overlay(
            self.gray.as_slice(),
            self.edges.as_slice(),
            self.output_rgba.as_mut_slice(),
        );
        proof {
            let (w, h) = (self.width as int, self.height as int);
            let (g, out) = (self.gray@, self.output_rgba@);
            assert(is_luma_plane(g, self.input_rgba@));
            assert forall|x: int, y: int|
                #![trigger plane::index_of(w, x, y)]
                plane::in_plane(w, h, x, y) implies rgba_at(out, plane::index_of(w, x, y))
                == overlay_px(g[plane::index_of(w, x, y)], edge_at(g, w, h, x, y) as u8) by {
                plane::lemma_index_bounds(w, h, x, y);
                let i = plane::index_of(w, x, y);
                assert(rgba_at(out, i) == overlay_px(g[i], self.edges@[i]));
            }
        }
    }

    /// Still-frame rectification: detect Reference Marker(s) in the frame in the
    /// input buffer, estimate the wall-plane homography, and render the Rectified
    /// Wall Image. `correction_factor` is the session's print-scale factor;
    /// `turn` gives sine and cosine of the angle of a direction. `None` when no
    /// Reference Marker is detected.
    pub fn rectify_captured<T: Fn(Double, Double) -> (Double, Double)>(
        &self,
        turn: &T,
        correction_factor: Double,
    ) -> (image: Option<RectifiedWallImage>)
        requires
            self.wf(),
            rectify::is_factor(correction_factor) ==> detect::is_detectable(
                self.frame_width(),
                self.frame_height(),
            ),
            loop_closure::is_turn(turn),
        ensures
            exists|r: Option<Rectified>|
                {
                    &&& #[trigger] still::is_rectification(
                        turn,
                        self.input_frame(),
                        self.frame_width(),
                        self.frame_height(),
                        correction_factor,
                        r,
                    )
                    &&& match image {
                        Some(i) => r == Some(i.source()),
                        None => r is None,
                    }
                },
    {
        let rgba: &[u8] = self.input_rgba.as_slice();
        let out: Option<Rectified> = rectify_frame(
            turn,
            rgba,
            self.width,
            self.height,
            correction_factor,
        );
        let ghost found = out;
        assert(still::is_rectification(
            turn,
            self.input_frame(),
            self.frame_width(),
            self.frame_height(),
            correction_factor,
            found,
        ));
        match out {
            Some(r) => Some(RectifiedWallImage::from_core(r)),
            None => None,
        }
    }
}

/// `gray` is the luma plane of an RGBA frame.
pub open spec fn is_luma_plane(gray: Seq<u8>, rgba: Seq<u8>) -> bool {
    &&& rgba.len() == 4 * gray.len()
    &&& forall|i: int| 0 <= i < gray.len() ==> #[trigger] gray[i] == luma_at(rgba, i)
}

/// `out` is the overlay of a luma plane: green on strong edges, gray elsewhere.
pub open spec fn is_overlay(out: Seq<u8>, gray: Seq<u8>, w: int, h: int) -> bool {
    &&& out.len() == 4 * gray.len()
    &&& forall|x: int, y: int|
        #![trigger plane::index_of(w, x, y)]
        plane::in_plane(w, h, x, y) ==> rgba_at(out, plane::index_of(w, x, y)) == overlay_px(
            gray[plane::index_of(w, x, y)],
            edge_at(gray, w, h, x, y) as u8,
        )
}

/// Luma keeps gray levels, lies between the least and the greatest channel, and is
/// within two levels of the BT.601 weights 0.299, 0.587 and 0.114.
pub proof fn law_luma_is_weighted_brightness(r: u8, g: u8, b: u8)
    ensures
        r == g && g == b ==> luma(r, g, b) == r,
        r <= luma(r, g, b) || g <= luma(r, g, b) || b <= luma(r, g, b),
        luma(r, g, b) <= r || luma(r, g, b) <= g || luma(r, g, b) <= b,
        -2000 <= 1000 * luma(r, g, b) - (299 * r + 587 * g + 114 * b) <= 2000,
{
}

/// An edge is as strong from bright to dark as from dark to bright: inverting a plane
/// leaves its edges as they are.
pub proof fn law_edges_ignore_polarity(a: Seq<u8>, b: Seq<u8>, w: int, h: int, x: int, y: int)
    requires
        forall|i: int, j: int|
            plane::in_plane(w, h, i, j) ==> #[trigger] px(b, w, i, j) == 255 - px(a, w, i, j),
    ensures
        edge_at(b, w, h, x, y) == edge_at(a, w, h, x, y),
{
    if is_interior(w, h, x, y) {
        assert(forall|i: int, j: int|
            x - 1 <= i <= x + 1 && y - 1 <= j <= y + 1 ==> plane::in_plane(w, h, i, j));
    }
}

/// Brightening a plane leaves its edges as they are.
pub proof fn law_edges_ignore_brightness(
    a: Seq<u8>,
    b: Seq<u8>,
    w: int,
    h: int,
    level: int,
    x: int,
    y: int,
)
    requires
        forall|i: int, j: int|
            plane::in_plane(w, h, i, j) ==> #[trigger] px(b, w, i, j) == px(a, w, i, j) + level,
    ensures
        edge_at(b, w, h, x, y) == edge_at(a, w, h, x, y),
{
    if is_interior(w, h, x, y) {
        assert(forall|i: int, j: int|
            x - 1 <= i <= x + 1 && y - 1 <= j <= y + 1 ==> plane::in_plane(w, h, i, j));
    }
}

/// The edges of a plane mirrored left to right are its mirrored edges.
pub proof fn law_edges_mirror(a: Seq<u8>, b: Seq<u8>, w: int, h: int, x: int, y: int)
    requires
        forall|i: int, j: int|
            plane::in_plane(w, h, i, j) ==> #[trigger] px(b, w, i, j) == px(a, w, w - 1 - i, j),
    ensures
        edge_at(b, w, h, x, y) == edge_at(a, w, h, w - 1 - x, y),
{
    if is_interior(w, h, x, y) {
        assert(forall|i: int, j: int|
            x - 1 <= i <= x + 1 && y - 1 <= j <= y + 1 ==> plane::in_plane(w, h, i, j));
    }
}

/// The edges of a plane mirrored top to bottom are its mirrored edges.
pub proof fn law_edges_flip(a: Seq<u8>, b: Seq<u8>, w: int, h: int, x: int, y: int)
    requires
        forall|i: int, j: int|
            plane::in_plane(w, h, i, j) ==> #[trigger] px(b, w, i, j) == px(a, w, i, h - 1 - j),
    ensures
        edge_at(b, w, h, x, y) == edge_at(a, w, h, x, h - 1 - y),
{
    if is_interior(w, h, x, y) {
        assert(forall|i: int, j: int|
            x - 1 <= i <= x + 1 && y - 1 <= j <= y + 1 ==> plane::in_plane(w, h, i, j));
    }
}

/// Edges along columns count as edges along rows do: those of a plane with its rows and
/// columns exchanged are its edges with them exchanged.
pub proof fn law_edges_transpose(a: Seq<u8>, b: Seq<u8>, w: int, h: int, x: int, y: int)
    requires
        forall|i: int, j: int|
            plane::in_plane(h, w, i, j) ==> #[trigger] px(b, h, i, j) == px(a, w, j, i),
    ensures
        edge_at(b, h, w, y, x) == edge_at(a, w, h, x, y),
{
    if is_interior(w, h, x, y) {
        assert(forall|i: int, j: int|
            x - 1 <= i <= x + 1 && y - 1 <= j <= y + 1 ==> plane::in_plane(h, w, j, i));
    }
}

/// On a plane that changes by `p` levels per column and `q` per row, an inner pixel is an
/// edge of eight times both changes; the border is none.
pub proof fn law_edge_of_a_ramp(
    gray: Seq<u8>,
    w: int,
    h: int,
    level: int,
    p: int,
    q: int,
    x: int,
    y: int,
)
    requires
        plane::in_plane(w, h, x, y),
        forall|i: int, j: int|
            plane::in_plane(w, h, i, j) ==> #[trigger] px(gray, w, i, j) == level + p * i + q * j,
    ensures
        ({
            let change = 8 * (if p < 0 {
                -p
            } else {
                p
            }) + 8 * (if q < 0 {
                -q
            } else {
                q
            });
            edge_at(gray, w, h, x, y) == (if x == 0 || y == 0 || x == w - 1 || y == h - 1 {
                0
            } else if change < 255 {
                change
            } else {
                255
            })
        }),
{
    if is_interior(w, h, x, y) {
        assert(forall|i: int, j: int|
            x - 1 <= i <= x + 1 && y - 1 <= j <= y + 1 ==> plane::in_plane(w, h, i, j));
        assert(p * (x + 1) == p * x + p && p * (x - 1) == p * x - p) by (nonlinear_arith);
        assert(q * (y + 1) == q * y + q && q * (y - 1) == q * y - q) by (nonlinear_arith);
    }
}

/// One pixel that is off by `d` in an even surrounding is seen with twice that strength
/// from each of its eight neighbours, and not at all from itself.
pub proof fn law_edge_of_one_pixel(
    gray: Seq<u8>,
    w: int,
    h: int,
    level: int,
    at: (int, int),
    x: int,
    y: int,
)
    requires
        is_interior(w, h, x, y),
        plane::in_plane(w, h, at.0, at.1),
        forall|i: int, j: int|
            plane::in_plane(w, h, i, j) && (i, j) != at ==> #[trigger] px(gray, w, i, j) == level,
    ensures
        ({
            let d = px(gray, w, at.0, at.1) - level;
            let seen = if d < 0 {
                -2 * d
            } else {
                2 * d
            };
            let beside = x - 1 <= at.0 <= x + 1 && y - 1 <= at.1 <= y + 1 && at != (x, y);
            edge_at(gray, w, h, x, y) == (if !beside {
                0
            } else if seen < 255 {
                seen
            } else {
                255
            })
        }),
{
    assert(forall|i: int, j: int|
        x - 1 <= i <= x + 1 && y - 1 <= j <= y + 1 ==> plane::in_plane(w, h, i, j));
}

/// What the live pipeline shows of a frame: an opaque pixel that is gray at the luma of
/// the frame where the luma does not change around it, and of another colour, mostly
/// green, where the columns left and right of it, or the rows above and below it, differ
/// by 24 levels or more.
pub proof fn law_overlay_shows_luma_and_edges(
    out: Seq<u8>,
    gray: Seq<u8>,
    rgba: Seq<u8>,
    w: int,
    h: int,
    x: int,
    y: int,
    before: int,
    after: int,
)
    requires
        is_luma_plane(gray, rgba),
        is_overlay(out, gray, w, h),
        gray.len() == w * h,
        is_interior(w, h, x, y),
        (px(gray, w, x - 1, y - 1) == before && px(gray, w, x - 1, y) == before && px(
            gray,
            w,
            x - 1,
            y + 1,
        ) == before && px(gray, w, x + 1, y - 1) == after && px(gray, w, x + 1, y) == after && px(
            gray,
            w,
            x + 1,
            y + 1,
        ) == after && px(gray, w, x, y - 1) == px(gray, w, x, y + 1)) || (px(gray, w, x - 1, y - 1)
            == before && px(gray, w, x, y - 1) == before && px(gray, w, x + 1, y - 1) == before
            && px(gray, w, x - 1, y + 1) == after && px(gray, w, x, y + 1) == after && px(
            gray,
            w,
            x + 1,
            y + 1,
        ) == after && px(gray, w, x - 1, y) == px(gray, w, x + 1, y)),
    ensures
        ({
            let i = plane::index_of(w, x, y);
            let (r, g, b, a) = rgba_at(out, i);
            &&& a == 255
            &&& before - after < 24 && after - before < 24 ==> r == g && g == b && g == luma(
                rgba[4 * i],
                rgba[4 * i + 1],
                rgba[4 * i + 2],
            )
            &&& before - after >= 24 || after - before >= 24 ==> g == 255 && r == 0 && b < 128
        }),
{
    plane::lemma_index_bounds(w, h, x, y);
    let i = plane::index_of(w, x, y);
    assert(plane::in_plane(w, h, x, y));
    assert(gray[i] == luma_at(rgba, i));
    assert(rgba_at(out, i) == overlay_px(gray[i], edge_at(gray, w, h, x, y) as u8));
}

} // verus!

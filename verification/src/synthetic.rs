//! Synthetic ground-truth scenes: the real Reference Marker pattern projected
//! through a known wall -> image homography, with 3x3 supersampling (which
//! approximates optical blur) and optional additive noise, and the camera of
//! synthetic pans.
use vstd::prelude::*;

use crate::distortion;
use crate::distortion::Distortion;
use crate::double;
use crate::double::Double;
use crate::edge::Point;
use crate::homography;
use crate::homography::Homography;
use crate::integral;
use crate::lcg;
use crate::lcg::Lcg;
use crate::linalg;
use crate::linalg::{mat3_inv, Mat3};
use crate::marker;
use crate::marker::{marker_cells, CellGrid, CELLS_PER_SIDE};
use crate::plane;
use crate::pose;
use crate::pose::Trig;

verus! {

/// Luma of a reference dot: the bits of 25.0.
pub const DOT_LUMA: u64 = 0x4039_0000_0000_0000;

/// Luma of paper: the bits of 250.0.
pub const PAPER_LUMA: u64 = 0x406f_4000_0000_0000;

/// Luma of ink: the bits of 20.0.
pub const INK_LUMA: u64 = 0x4034_0000_0000_0000;

/// Luma of the painted wall: the bits of 205.0.
pub const WALL_LUMA: u64 = 0x4069_a000_0000_0000;

/// The bits of 0.5.
pub const ONE_HALF: u64 = 0x3fe0_0000_0000_0000;

/// The bits of 2.0.
pub const TWO: u64 = 0x4000_0000_0000_0000;

/// The bits of 3.0.
pub const THREE: u64 = 0x4008_0000_0000_0000;

/// The bits of 9.0.
pub const NINE: u64 = 0x4022_0000_0000_0000;

/// Cells along the side of a marker: the bits of 6.0.
pub const SIDE_CELLS: u64 = 0x4018_0000_0000_0000;

/// Cells of quiet zone around a marker: the bits of 1.0.
pub const QUIET_CELLS: u64 = 0x3ff0_0000_0000_0000;

/// Rate of the yaw wobble: the bits of 11.0.
pub const YAW_RATE: u64 = 0x4026_0000_0000_0000;

/// Rate of the pitch wobble: the bits of 8.5.
pub const PITCH_RATE: u64 = 0x4021_0000_0000_0000;

/// Phase of the pitch wobble: the bits of 1.2.
pub const PITCH_PHASE: u64 = 0x3ff3_3333_3333_3333;

/// Rate of the height wobble: the bits of 6.3.
pub const HEIGHT_RATE: u64 = 0x4019_3333_3333_3333;

/// Peak height wobble (mm): the bits of 12.0.
pub const HEIGHT_AMP: u64 = 0x4028_0000_0000_0000;

/// A marker placed on the synthetic wall.
pub struct SyntheticMarker {
    pub id: u16,
    /// Wall-plane mm of the printed square's top-left corner (unrotated).
    pub x_mm: Double,
    pub y_mm: Double,
    /// Physical side of the printed black square (mm).
    pub side_mm: Double,
    /// Pattern rotation in counter-clockwise quarter turns about the square's
    /// centre.
    pub rot_quarter: u8,
}

/// Scene description in wall-plane millimetres.
pub struct Scene {
    pub markers: Vec<SyntheticMarker>,
    /// Dark reference dots: (centre mm, radius mm).
    pub dots: Vec<(Point, Double)>,
}

/// A point lies on a dot.
pub open spec fn on_dot(dot: (Point, Double), x: Double, y: Double) -> bool {
    let (dx, dy) = (x - dot.0[0], y - dot.0[1]);
    (dx * dx + dy * dy).at_most(dot.1 * dot.1)
}

/// The cell that `v` cells from the edge is in.
pub open spec fn cell_index(v: Double) -> int {
    let i = integral::truncated(v);
    if i < 0 {
        0
    } else if i >= CELLS_PER_SIDE {
        CELLS_PER_SIDE - 1
    } else {
        i
    }
}

/// The cell of the unrotated pattern that is shown at row `r` and column `c` after
/// `k` quarter turns.
pub open spec fn turned_cell(r: int, c: int, k: int) -> (int, int)
    decreases k,
{
    if k <= 0 {
        (r, c)
    } else {
        turned_cell(c, CELLS_PER_SIDE - 1 - r, k - 1)
    }
}

/// The printed grid of `word` is black at row `r` and column `c`.
pub open spec fn is_inked(word: u16, r: int, c: int) -> bool {
    marker::is_border_cell(r, c) || !marker::white_at(word, r - 1, c - 1)
}

impl SyntheticMarker {
    /// Width of the quiet zone (mm).
    pub open spec fn quiet(self) -> Double {
        self.side_mm.per(Double { bits: SIDE_CELLS }) * Double { bits: QUIET_CELLS }
    }

    /// The paper covers a point.
    pub open spec fn covers(self, x: Double, y: Double) -> bool {
        let (lx, ly) = (x - self.x_mm, y - self.y_mm);
        let end = self.side_mm + self.quiet();
        &&& self.quiet().opposite().at_most(lx)
        &&& self.quiet().opposite().at_most(ly)
        &&& lx.less(end)
        &&& ly.less(end)
    }

    /// Luma of the print at a point that the paper covers.
    pub open spec fn printed(self, x: Double, y: Double) -> Double {
        let (lx, ly) = (x - self.x_mm, y - self.y_mm);
        let zero = Double { bits: 0 };
        let cell = self.side_mm.per(Double { bits: SIDE_CELLS });
        let at = turned_cell(
            cell_index(ly.per(cell)),
            cell_index(lx.per(cell)),
            self.rot_quarter as int % 4,
        );
        if lx.less(zero) || ly.less(zero) || self.side_mm.at_most(lx) || self.side_mm.at_most(ly) {
            Double { bits: PAPER_LUMA }
        } else if is_inked(marker::word_of(self.id)->0, at.0, at.1) {
            Double { bits: INK_LUMA }
        } else {
            Double { bits: PAPER_LUMA }
        }
    }

    fn luma(&self, x: Double, y: Double) -> (v: Option<Double>)
        requires
            marker::word_of(self.id) is Some,
        ensures
            v is Some <==> self.covers(x, y),
            v matches Some(l) ==> l == self.printed(x, y),
    {
        let cell: Double = self.side_mm / Double::from_bits(SIDE_CELLS);
        let quiet: Double = cell * Double::from_bits(QUIET_CELLS);
        let lx: Double = x - self.x_mm;
        let ly: Double = y - self.y_mm;
        let end: Double = self.side_mm + quiet;
        let start: Double = quiet.negate();
        if !(start.le(&lx) && start.le(&ly) && lx.lt(&end) && ly.lt(&end)) {
            return None;
        }
        let zero: Double = Double::from_bits(0);
        if lx.lt(&zero) || ly.lt(&zero) || self.side_mm.le(&lx) || self.side_mm.le(&ly) {
            return Some(Double::from_bits(PAPER_LUMA));
        }
        let cells: CellGrid = match marker_cells(self.id) {
            Some(cells) => cells,
            None => {
                return None;
            },
        };
        let mut r: usize = index_of_cell(ly / cell);
        let mut c: usize = index_of_cell(lx / cell);
        let ghost (row, column) = (r as int, c as int);
        let mut k: u8 = self.rot_quarter % 4;
        while k > 0
            invariant
                r < CELLS_PER_SIDE,
                c < CELLS_PER_SIDE,
                turned_cell(row, column, self.rot_quarter as int % 4) == turned_cell(
                    r as int,
                    c as int,
                    k as int,
                ),
            decreases k,
        {
            let next: usize = CELLS_PER_SIDE - 1 - r;
            r = c;
            c = next;
            k = k - 1;
        }
        proof {
            let word = marker::word_of(self.id)->0;
            if !marker::is_border_cell(r as int, c as int) {
                assert(marker::white_at(word, r - 1, c - 1) == !cells[r - 1 + 1][c - 1 + 1]);
            }
            assert(cells[r as int][c as int] == is_inked(word, r as int, c as int));
        }
        Some(
            Double::from_bits(
                if cells[r][c] {
                    INK_LUMA
                } else {
                    PAPER_LUMA
                },
            ),
        )
    }
}

fn index_of_cell(v: Double) -> (i: usize)
    ensures
        i == cell_index(v),
        i < CELLS_PER_SIDE,
{
    let n: i64 = v.truncate();
    if n < 0 {
        0
    } else if n >= CELLS_PER_SIDE as i64 {
        CELLS_PER_SIDE - 1
    } else {
        n as usize
    }
}

/// First marker from `k` on that covers a point, or the number of markers.
pub open spec fn first_covering(
    markers: Seq<SyntheticMarker>,
    x: Double,
    y: Double,
    k: int,
) -> int
    decreases markers.len() - k,
{
    if k >= markers.len() || markers[k].covers(x, y) {
        k
    } else {
        first_covering(markers, x, y, k + 1)
    }
}

impl Scene {
    /// Every marker is in the dictionary.
    pub open spec fn wf(self) -> bool {
        forall|i: int|
            0 <= i < self.markers@.len()
                ==> marker::word_of((#[trigger] self.markers@[i]).id) is Some
    }

    /// A dot is at a point.
    pub open spec fn is_dotted(self, x: Double, y: Double) -> bool {
        exists|i: int| 0 <= i < self.dots@.len() && on_dot(#[trigger] self.dots@[i], x, y)
    }

    /// Wall-plane luma at a point, before noise: dots lie on markers, markers on
    /// the wall, and of two markers the first is on top.
    pub open spec fn luma_at(self, x: Double, y: Double) -> Double {
        let k = first_covering(self.markers@, x, y, 0);
        if self.is_dotted(x, y) {
            Double { bits: DOT_LUMA }
        } else if k < self.markers@.len() {
            self.markers@[k].printed(x, y)
        } else {
            Double { bits: WALL_LUMA }
        }
    }

    fn luma(&self, x: Double, y: Double) -> (v: Double)
        requires
            self.wf(),
        ensures
            v == self.luma_at(x, y),
    {
        let mut i: usize = 0;
        while i < self.dots.len()
            invariant
                i <= self.dots@.len(),
                forall|j: int| 0 <= j < i ==> !on_dot(#[trigger] self.dots@[j], x, y),
            decreases self.dots@.len() - i,
        {
            let (centre, radius): (Point, Double) = self.dots[i];
            let dx: Double = x - centre[0];
            let dy: Double = y - centre[1];
            if (dx * dx + dy * dy).le(&(radius * radius)) {
                assert(on_dot(self.dots@[i as int], x, y));
                return Double::from_bits(DOT_LUMA);
            }
            i = i + 1;
        }
        let mut k: usize = 0;
        while k < self.markers.len()
            invariant
                self.wf(),
                !self.is_dotted(x, y),
                k <= self.markers@.len(),
                first_covering(self.markers@, x, y, 0) == first_covering(
                    self.markers@,
                    x,
                    y,
                    k as int,
                ),
            decreases self.markers@.len() - k,
        {
            match self.markers[k].luma(x, y) {
                Some(v) => {
                    return v;
                },
                None => {},
            }
            k = k + 1;
        }
        Double::from_bits(WALL_LUMA)
    }
}

/// Where sample `s` of three across pixel `i` is: the pixel's centre is at `i`.
pub open spec fn sample_at(i: int, s: int) -> Double {
    double::whole(i) - Double { bits: ONE_HALF } + (double::whole(s) + Double {
        bits: ONE_HALF,
    }).per(Double { bits: THREE })
}

/// Where on the wall a pixel position of a camera is, seen through a lens if there
/// is one.
pub open spec fn wall_at(back: Mat3, lens: Option<Distortion>, x: Double, y: Double) -> Option<
    (Double, Double),
> {
    match lens {
        Some(d) => homography::image_of(
            back,
            d.undistorted([x, y])[0],
            d.undistorted([x, y])[1],
        ),
        None => homography::image_of(back, x, y),
    }
}

/// Luma that a camera sees at a pixel position; the wall, where it sees none.
pub open spec fn seen_at(
    scene: Scene,
    back: Mat3,
    lens: Option<Distortion>,
    x: Double,
    y: Double,
) -> Double {
    match wall_at(back, lens, x, y) {
        Some((wx, wy)) => scene.luma_at(wx, wy),
        None => Double { bits: WALL_LUMA },
    }
}

/// The first `k` samples of a pixel, row by row, summed.
pub open spec fn samples_upto(
    scene: Scene,
    back: Mat3,
    lens: Option<Distortion>,
    px: int,
    py: int,
    k: int,
) -> Double
    decreases k,
{
    if k <= 0 {
        Double { bits: 0 }
    } else {
        samples_upto(scene, back, lens, px, py, k - 1) + seen_at(
            scene,
            back,
            lens,
            sample_at(px, (k - 1) % 3),
            sample_at(py, (k - 1) / 3),
        )
    }
}

/// Luma of a pixel with the noise that state `s` of the generator gives.
pub open spec fn noisy(mean: Double, sigma: Double, s: int) -> Double {
    if (Double { bits: 0 }).less(sigma) {
        mean + sigma * lcg::gauss_after(s)
    } else {
        mean
    }
}

/// The byte nearest to a luma.
pub open spec fn byte_of(v: Double) -> u8 {
    let n = integral::rounded(v);
    if n < 0 {
        0u8
    } else if n > 255 {
        255u8
    } else {
        n as u8
    }
}

/// Gray of pixel `i` of a rendered frame, row by row.
pub open spec fn gray_at(
    scene: Scene,
    back: Mat3,
    lens: Option<Distortion>,
    w: int,
    sigma: Double,
    seed: int,
    i: int,
) -> u8 {
    byte_of(
        noisy(
            samples_upto(scene, back, lens, i % w, i / w, 9).per(Double { bits: NINE }),
            sigma,
            lcg::steps(seed, (4 * i) as nat),
        ),
    )
}

/// `rgba` is the scene as a camera sees it.
pub open spec fn is_rendered(
    rgba: Seq<u8>,
    scene: Scene,
    back: Mat3,
    lens: Option<Distortion>,
    w: int,
    h: int,
    sigma: Double,
    seed: int,
) -> bool {
    &&& rgba.len() == w * h * 4
    &&& forall|i: int|
        #![trigger rgba[4 * i]]
        0 <= i < w * h ==> {
            let g = gray_at(scene, back, lens, w, sigma, seed, i);
            &&& rgba[4 * i] == g
            &&& rgba[4 * i + 1] == g
            &&& rgba[4 * i + 2] == g
            &&& rgba[4 * i + 3] == 255
        }
}

fn see(scene: &Scene, back: &Homography, lens: Option<&Distortion>, x: Double, y: Double) -> (v:
    Double)
    requires
        scene.wf(),
    ensures
        v == seen_at(
            *scene,
            back.0,
            match lens {
                Some(d) => Some(*d),
                None => None,
            },
            x,
            y,
        ),
{
    let at: Option<(Double, Double)> = match lens {
        Some(d) => {
            let u: Point = d.undistort([x, y]);
            back.apply(u[0], u[1])
        },
        None => back.apply(x, y),
    };
    match at {
        Some((wx, wy)) => scene.luma(wx, wy),
        None => Double::from_bits(WALL_LUMA),
    }
}

fn sample_position(i: usize, k: usize) -> (v: Double)
    requires
        i < 0x20_0000_0000_0000,
        k < 3,
    ensures
        v == sample_at(i as int, k as int),
{
    let half: Double = Double::from_bits(ONE_HALF);
    Double::from_count(i as u64) - half + (Double::from_count(k as u64) + half)
        / Double::from_bits(THREE)
}

fn nearest_byte(v: Double) -> (b: u8)
    ensures
        b == byte_of(v),
{
    let n: i64 = v.round();
    if n < 0 {
        0
    } else if n > 255 {
        255
    } else {
        n as u8
    }
}

/// Shared supersampling render loop.
#[verifier::rlimit(60)]
fn render_with(
    scene: &Scene,
    back: &Homography,
    lens: Option<&Distortion>,
    width: usize,
    height: usize,
    noise_sigma: Double,
    seed: u64,
) -> (rgba: Vec<u8>)
    requires
        scene.wf(),
        width < 0x20_0000_0000_0000,
        height < 0x20_0000_0000_0000,
        width * height * 4 <= usize::MAX,
    ensures
        is_rendered(
            rgba@,
            *scene,
            back.0,
            match lens {
                Some(d) => Some(*d),
                None => None,
            },
            width as int,
            height as int,
            noise_sigma,
            seed as int,
        ),
{
    let ghost view = match lens {
        Some(d) => Some(*d),
        None => None,
    };
    let ghost w = width as int;
    let noise: bool = Double::from_bits(0).lt(&noise_sigma);
    let mut rng: Lcg = Lcg(seed);
    let mut rgba: Vec<u8> = Vec::new();
    assert(width * height <= width * height * 4) by (nonlinear_arith)
        requires
            width >= 0,
            height >= 0,
    ;
    let n: usize = width * height;
    let mut i: usize = 0;
    while i < n
        invariant
            scene.wf(),
            view == (match lens {
                Some(d) => Some(*d),
                None => None,
            }),
            w == width,
            n == width * height,
            n * 4 <= usize::MAX,
            width < 0x20_0000_0000_0000,
            height < 0x20_0000_0000_0000,
            noise == (Double { bits: 0 }).less(noise_sigma),
            noise ==> rng.0 == lcg::steps(seed as int, (4 * i) as nat),
            i <= n,
            rgba@.len() == 4 * i,
            forall|j: int|
                #![trigger rgba@[4 * j]]
                0 <= j < i ==> {
                    let g = gray_at(*scene, back.0, view, w, noise_sigma, seed as int, j);
                    &&& rgba@[4 * j] == g
                    &&& rgba@[4 * j + 1] == g
                    &&& rgba@[4 * j + 2] == g
                    &&& rgba@[4 * j + 3] == 255
                },
        decreases n - i,
    {
        proof {
            assert(width > 0) by (nonlinear_arith)
                requires
                    i < width * height,
                    i >= 0,
                    width >= 0,
            ;
            plane::lemma_index_unsplit(w, height as int, i as int);
        }
        let (px, py): (usize, usize) = (i % width, i / width);
        let mut acc: Double = Double::from_bits(0);
        let mut k: usize = 0;
        while k < 9
            invariant
                scene.wf(),
                view == (match lens {
                    Some(d) => Some(*d),
                    None => None,
                }),
                px < 0x20_0000_0000_0000,
                py < 0x20_0000_0000_0000,
                k <= 9,
                acc == samples_upto(*scene, back.0, view, px as int, py as int, k as int),
            decreases 9 - k,
        {
            let x: Double = sample_position(px, k % 3);
            let y: Double = sample_position(py, k / 3);
            acc = acc + see(scene, back, lens, x, y);
            k = k + 1;
        }
        let mut v: Double = acc / Double::from_bits(NINE);
        if noise {
            v = v + noise_sigma * rng.next_gauss();
            proof {
                lcg::lemma_steps_compose(seed as int, (4 * i) as nat, 4);
            }
        }
        let g: u8 = nearest_byte(v);
        assert(g == gray_at(*scene, back.0, view, w, noise_sigma, seed as int, i as int));
        let ghost before = rgba@;
        rgba.push(g);
        rgba.push(g);
        rgba.push(g);
        rgba.push(255);
        proof {
            assert(rgba@ =~= before + seq![g, g, g, 255u8]);
            assert forall|j: int|
                #![trigger rgba@[4 * j]]
                0 <= j < i + 1 implies {
                let g = gray_at(*scene, back.0, view, w, noise_sigma, seed as int, j);
                &&& rgba@[4 * j] == g
                &&& rgba@[4 * j + 1] == g
                &&& rgba@[4 * j + 2] == g
                &&& rgba@[4 * j + 3] == 255
            } by {
                if j < i {
                    assert(rgba@[4 * j] == before[4 * j]);
                }
            }
        }
        i = i + 1;
    }
    rgba
}

/// Render the scene into a `width` x `height` RGBA frame through `h_true` (wall mm
/// -> image px). 3x3 supersampling per pixel; `noise_sigma` gray levels of
/// additive noise.
pub fn render_scene(
    scene: &Scene,
    h_true: &Mat3,
    width: usize,
    height: usize,
    noise_sigma: Double,
    seed: u64,
) -> (rgba: Vec<u8>)
    requires
        scene.wf(),
        linalg::inverse_of(*h_true) is Some,
        width < 0x20_0000_0000_0000,
        height < 0x20_0000_0000_0000,
        width * height * 4 <= usize::MAX,
    ensures
        is_rendered(
            rgba@,
            *scene,
            linalg::inverse_of(*h_true)->0,
            None,
            width as int,
            height as int,
            noise_sigma,
            seed as int,
        ),
{
    match mat3_inv(h_true) {
        Some(back) => render_with(
            scene,
            &Homography(back),
            None,
            width,
            height,
            noise_sigma,
            seed,
        ),
        None => Vec::new(),
    }
}

/// Render the scene through `h_true` and a real lens: the ideal pinhole projection
/// is bent by division-model radial distortion. Each output pixel lives in
/// distorted image coordinates; sampling undistorts the sample position before it
/// is put back on the wall.
pub fn render_scene_distorted(
    scene: &Scene,
    h_true: &Mat3,
    width: usize,
    height: usize,
    noise_sigma: Double,
    seed: u64,
    dist: &Distortion,
) -> (rgba: Vec<u8>)
    requires
        scene.wf(),
        linalg::inverse_of(*h_true) is Some,
        width < 0x20_0000_0000_0000,
        height < 0x20_0000_0000_0000,
        width * height * 4 <= usize::MAX,
    ensures
        is_rendered(
            rgba@,
            *scene,
            linalg::inverse_of(*h_true)->0,
            Some(*dist),
            width as int,
            height as int,
            noise_sigma,
            seed as int,
        ),
{
    match mat3_inv(h_true) {
        Some(back) => render_with(
            scene,
            &Homography(back),
            Some(dist),
            width,
            height,
            noise_sigma,
            seed,
        ),
        None => Vec::new(),
    }
}

proof fn lemma_same_samples(scene: Scene, back: Mat3, lens: Distortion, px: int, py: int, k: int)
    requires
        lens.k1.same(Double { bits: 0 }),
    ensures
        samples_upto(scene, back, Some(lens), px, py, k) == samples_upto(
            scene,
            back,
            None,
            px,
            py,
            k,
        ),
    decreases k,
{
    if k > 0 {
        lemma_same_samples(scene, back, lens, px, py, k - 1);
        distortion::law_no_distortion_is_identity(
            lens,
            [sample_at(px, (k - 1) % 3), sample_at(py, (k - 1) / 3)],
        );
    }
}

/// A scene looks the same through a lens without distortion as through none.
pub proof fn law_straight_lens_changes_nothing(
    rgba: Seq<u8>,
    scene: Scene,
    back: Mat3,
    lens: Distortion,
    w: int,
    h: int,
    sigma: Double,
    seed: int,
)
    requires
        lens.k1.same(Double { bits: 0 }),
    ensures
        is_rendered(rgba, scene, back, Some(lens), w, h, sigma, seed) == is_rendered(
            rgba,
            scene,
            back,
            None,
            w,
            h,
            sigma,
            seed,
        ),
{
    assert forall|i: int| 0 <= i < w * h implies #[trigger] gray_at(
        scene,
        back,
        Some(lens),
        w,
        sigma,
        seed,
        i,
    ) == gray_at(scene, back, None, w, sigma, seed, i) by {
        lemma_same_samples(scene, back, lens, i % w, i / w, 9);
    }
    if is_rendered(rgba, scene, back, Some(lens), w, h, sigma, seed) {
        assert(is_rendered(rgba, scene, back, None, w, h, sigma, seed));
    }
    if is_rendered(rgba, scene, back, None, w, h, sigma, seed) {
        assert(is_rendered(rgba, scene, back, Some(lens), w, h, sigma, seed));
    }
}

/// A scene and a seed determine what is rendered: the same noise is drawn again.
pub proof fn law_rendering_is_reproducible(
    one: Seq<u8>,
    other: Seq<u8>,
    scene: Scene,
    back: Mat3,
    lens: Option<Distortion>,
    w: int,
    h: int,
    sigma: Double,
    seed: int,
)
    requires
        is_rendered(one, scene, back, lens, w, h, sigma, seed),
        is_rendered(other, scene, back, lens, w, h, sigma, seed),
    ensures
        one == other,
{
    assert forall|j: int| 0 <= j < one.len() implies one[j] == other[j] by {
        let i = j / 4;
        assert(one[4 * i] == other[4 * i]);
        assert(j == 4 * i || j == 4 * i + 1 || j == 4 * i + 2 || j == 4 * i + 3);
    }
    assert(one =~= other);
}

/// Camera of synthetic pans: a pinhole camera at a distance from the wall plane
/// that translates along it, with a hand-held wobble in yaw, pitch and height. The
/// wall plane is z = 0, x right, y down (mm); the camera looks along +z.
pub struct PanCamera {
    /// Focal length in pixels.
    pub focal_px: Double,
    pub width: usize,
    pub height: usize,
    pub distance_mm: Double,
    pub start_center_mm: Point,
    pub end_center_mm: Point,
    /// Peak yaw wobble (radians) over the pan.
    pub yaw_amp: Double,
    /// Peak pitch wobble (radians).
    pub pitch_amp: Double,
}

/// Yaw, given by its sine and cosine, after pitch, row by row.
pub open spec fn view_of(yaw: (Double, Double), pitch: (Double, Double)) -> Mat3 {
    [
        yaw.1,
        yaw.0 * pitch.0,
        yaw.0 * pitch.1,
        Double { bits: 0 },
        pitch.1,
        pitch.0.opposite(),
        yaw.0.opposite(),
        yaw.1 * pitch.0,
        yaw.1 * pitch.1,
    ]
}

/// Row `k` of where a view puts the wall's origin as seen from `cam`.
pub open spec fn offset_of(r: Mat3, cam: [Double; 3], k: int) -> Double {
    (r[3 * k] * cam[0] + r[3 * k + 1] * cam[1] + r[3 * k + 2] * cam[2]).opposite()
}

/// The homography (wall mm -> image px) of a camera with this view: the intrinsics
/// times the first two columns of the view and the offset.
pub open spec fn camera_of(focal: Double, w: int, h: int, cam: [Double; 3], r: Mat3) -> Mat3 {
    let (u, v) = (distortion::half(w), distortion::half(h));
    [
        focal * r[0] + u * r[6],
        focal * r[1] + u * r[7],
        focal * offset_of(r, cam, 0) + u * offset_of(r, cam, 2),
        focal * r[3] + v * r[6],
        focal * r[4] + v * r[7],
        focal * offset_of(r, cam, 1) + v * offset_of(r, cam, 2),
        r[6],
        r[7],
        offset_of(r, cam, 2),
    ]
}

/// Homography (wall mm -> image px) of a pinhole camera at position `cam` (wall
/// frame; the camera sits at negative z) with this yaw and pitch, focal
/// `focal_px`, and the principal point at the frame centre.
pub fn pose_homography<SinCos: Fn(Double) -> (Double, Double)>(
    sin_cos: &SinCos,
    focal_px: Double,
    width: usize,
    height: usize,
    cam: [Double; 3],
    yaw: Double,
    pitch: Double,
) -> (m: Mat3)
    requires
        forall|a: Double| call_requires(sin_cos, (a,)),
        width < 0x20_0000_0000_0000,
        height < 0x20_0000_0000_0000,
    ensures
        forall|t: Trig| #[trigger]
            pose::is_sine(sin_cos, t) ==> m == camera_of(
                focal_px,
                width as int,
                height as int,
                cam,
                view_of((t.sin_cos)(yaw), (t.sin_cos)(pitch)),
            ),
{
    let turned: (Double, Double) = sin_cos(yaw);
    let tilted: (Double, Double) = sin_cos(pitch);
    let (sy, cy): (Double, Double) = turned;
    let (sp, cp): (Double, Double) = tilted;
    let r: Mat3 = [
        cy,
        sy * sp,
        sy * cp,
        Double::from_bits(0),
        cp,
        sp.negate(),
        sy.negate(),
        cy * sp,
        cy * cp,
    ];
    let t0: Double = (r[0] * cam[0] + r[1] * cam[1] + r[2] * cam[2]).negate();
    let t1: Double = (r[3] * cam[0] + r[4] * cam[1] + r[5] * cam[2]).negate();
    let t2: Double = (r[6] * cam[0] + r[7] * cam[1] + r[8] * cam[2]).negate();
    let two: Double = Double::from_bits(TWO);
    let u: Double = Double::from_count(width as u64) / two;
    let v: Double = Double::from_count(height as u64) / two;
    let f: Double = focal_px;
    let m: Mat3 = [
        f * r[0] + u * r[6],
        f * r[1] + u * r[7],
        f * t0 + u * t2,
        f * r[3] + v * r[6],
        f * r[4] + v * r[7],
        f * t1 + v * t2,
        r[6],
        r[7],
        t2,
    ];
    proof {
        assert(r =~= view_of(turned, tilted));
        assert(m =~= camera_of(focal_px, width as int, height as int, cam, r));
        assert(call_ensures(sin_cos, (yaw,), turned));
        assert(call_ensures(sin_cos, (pitch,), tilted));
    }
    m
}

impl PanCamera {
    /// Position between the ends of the pan.
    pub open spec fn centre_at(self, t: Double, axis: int) -> Double {
        self.start_center_mm[axis] + t * (self.end_center_mm[axis] - self.start_center_mm[axis])
    }

    /// The camera at pan progress `t`.
    pub open spec fn seen_from(self, trig: Trig, t: Double) -> Mat3 {
        let yaw = self.yaw_amp * (trig.sin_cos)(t * Double { bits: YAW_RATE }).0;
        let pitch = self.pitch_amp * (trig.sin_cos)(
            t * Double { bits: PITCH_RATE } + Double { bits: PITCH_PHASE },
        ).0;
        let sway = Double { bits: HEIGHT_AMP } * (trig.sin_cos)(t * Double { bits: HEIGHT_RATE }).0;
        camera_of(
            self.focal_px,
            self.width as int,
            self.height as int,
            [self.centre_at(t, 0), self.centre_at(t, 1) + sway, self.distance_mm.opposite()],
            view_of((trig.sin_cos)(yaw), (trig.sin_cos)(pitch)),
        )
    }

    /// Homography (wall mm -> image px) at pan progress `t` in [0, 1].
    pub fn homography_at<SinCos: Fn(Double) -> (Double, Double)>(
        &self,
        sin_cos: &SinCos,
        t: Double,
    ) -> (m: Mat3)
        requires
            forall|a: Double| call_requires(sin_cos, (a,)),
            self.width < 0x20_0000_0000_0000,
            self.height < 0x20_0000_0000_0000,
        ensures
            forall|trig: Trig| #[trigger]
                pose::is_sine(sin_cos, trig) ==> m == self.seen_from(trig, t),
    {
        let cx: Double = self.start_center_mm[0] + t * (self.end_center_mm[0]
            - self.start_center_mm[0]);
        let cy: Double = self.start_center_mm[1] + t * (self.end_center_mm[1]
            - self.start_center_mm[1]);
        let yaw_phase: Double = t * Double::from_bits(YAW_RATE);
        let pitch_phase: Double = t * Double::from_bits(PITCH_RATE) + Double::from_bits(
            PITCH_PHASE,
        );
        let height_phase: Double = t * Double::from_bits(HEIGHT_RATE);
        let yaw_sway: (Double, Double) = sin_cos(yaw_phase);
        let pitch_sway: (Double, Double) = sin_cos(pitch_phase);
        let height_sway: (Double, Double) = sin_cos(height_phase);
        let cam: [Double; 3] = [
            cx,
            cy + Double::from_bits(HEIGHT_AMP) * height_sway.0,
            self.distance_mm.negate(),
        ];
        let m: Mat3 = pose_homography(
            sin_cos,
            self.focal_px,
            self.width,
            self.height,
            cam,
            self.yaw_amp * yaw_sway.0,
            self.pitch_amp * pitch_sway.0,
        );
        proof {
            assert(call_ensures(sin_cos, (yaw_phase,), yaw_sway));
            assert(call_ensures(sin_cos, (pitch_phase,), pitch_sway));
            assert(call_ensures(sin_cos, (height_phase,), height_sway));
        }
        m
    }

    /// Progress of frame `i` of a pan of `n`: linearly spaced over [0, 1].
    pub open spec fn progress(i: int, n: int) -> Double {
        double::whole(i).per(
            double::whole(
                if n > 2 {
                    n - 1
                } else {
                    1
                },
            ),
        )
    }

    /// Homographies for an `n`-frame pan.
    pub fn sequence<SinCos: Fn(Double) -> (Double, Double)>(
        &self,
        sin_cos: &SinCos,
        n: usize,
    ) -> (list: Vec<Mat3>)
        requires
            forall|a: Double| call_requires(sin_cos, (a,)),
            self.width < 0x20_0000_0000_0000,
            self.height < 0x20_0000_0000_0000,
            n < 0x20_0000_0000_0000,
        ensures
            list@.len() == n,
            forall|trig: Trig, i: int|
                #![trigger pose::is_sine(sin_cos, trig), list@[i]]
                pose::is_sine(sin_cos, trig) && 0 <= i < n ==> list@[i] == self.seen_from(
                    trig,
                    Self::progress(i, n as int),
                ),
    {
        let last: usize = if n > 2 {
            n - 1
        } else {
            1
        };
        let mut list: Vec<Mat3> = Vec::new();
        let mut i: usize = 0;
        while i < n
            invariant
                forall|a: Double| call_requires(sin_cos, (a,)),
                self.width < 0x20_0000_0000_0000,
                self.height < 0x20_0000_0000_0000,
                n < 0x20_0000_0000_0000,
                last == (if n > 2 {
                    n - 1
                } else {
                    1
                }),
                i <= n,
                list@.len() == i,
                forall|trig: Trig, j: int|
                    #![trigger pose::is_sine(sin_cos, trig), list@[j]]
                    pose::is_sine(sin_cos, trig) && 0 <= j < i ==> list@[j] == self.seen_from(
                        trig,
                        Self::progress(j, n as int),
                    ),
            decreases n - i,
        {
            let t: Double = Double::from_count(i as u64) / Double::from_count(last as u64);
            let m: Mat3 = self.homography_at(sin_cos, t);
            list.push(m);
            i = i + 1;
        }
        list
    }
}

/// Project a wall-plane point through a raw homography (mm -> px).
pub fn project(h: &Mat3, x: Double, y: Double) -> (p: Point)
    ensures
        p == [
            (h[0] * x + h[1] * y + h[2]).per(homography::weight(*h, x, y)),
            (h[3] * x + h[4] * y + h[5]).per(homography::weight(*h, x, y)),
        ],
{
    let w: Double = h[6] * x + h[7] * y + h[8];
    [(h[0] * x + h[1] * y + h[2]) / w, (h[3] * x + h[4] * y + h[5]) / w]
}

/// Corner `k` of a marker's square, clockwise from its own top left.
pub open spec fn footprint_corner(m: SyntheticMarker, k: int) -> Point {
    [
        if k == 1 || k == 2 {
            m.x_mm + m.side_mm
        } else {
            m.x_mm
        },
        if k == 2 || k == 3 {
            m.y_mm + m.side_mm
        } else {
            m.y_mm
        },
    ]
}

/// Wall-plane position of a marker's printed top-left corner: the pattern rotates
/// about the square's centre, so that it lands on a different corner of the square
/// for each quarter turn.
pub fn printed_top_left(m: &SyntheticMarker) -> (p: Point)
    ensures
        p == footprint_corner(*m, (4 - m.rot_quarter as int % 4) % 4),
{
    let k: u8 = (4 - m.rot_quarter % 4) % 4;
    let right: Double = m.x_mm + m.side_mm;
    let below: Double = m.y_mm + m.side_mm;
    [
        if k == 1 || k == 2 {
            right
        } else {
            m.x_mm
        },
        if k == 2 || k == 3 {
            below
        } else {
            m.y_mm
        },
    ]
}

/// Row of the cell in corner `k` of the grid, clockwise from the top left.
pub open spec fn corner_row(k: int) -> int {
    if k == 2 || k == 3 {
        CELLS_PER_SIDE - 1
    } else {
        0
    }
}

/// Column of the cell in corner `k` of the grid.
pub open spec fn corner_column(k: int) -> int {
    if k == 1 || k == 2 {
        CELLS_PER_SIDE - 1
    } else {
        0
    }
}

/// The corner that holds the printed top left after some quarter turns shows the
/// first cell of the pattern.
pub proof fn law_printed_corner_shows_first_cell(quarters: int)
    requires
        0 <= quarters < 4,
    ensures
        ({
            let k = (4 - quarters) % 4;
            turned_cell(corner_row(k), corner_column(k), quarters) == (0int, 0int)
        }),
{
    reveal_with_fuel(turned_cell, 4);
}

} // verus!

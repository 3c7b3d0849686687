//! Outer contours of dark components: the quad candidates of marker detection.
use vstd::prelude::*;

use crate::components;
use crate::components::flood_fill;
use crate::plane;

verus! {

/// Components smaller than this (half of a 14 px square) cannot be a marker.
pub const MIN_COMPONENT_AREA: usize = 98;

/// Contours shorter than this cannot be a marker.
pub const MIN_CONTOUR_LEN: usize = 16;

/// 8 directions, clockwise starting from west (screen coords, y down).
pub open spec fn direction(d: int) -> (int, int) {
    if d == 0 {
        (-1, 0)
    } else if d == 1 {
        (-1, -1)
    } else if d == 2 {
        (0, -1)
    } else if d == 3 {
        (1, -1)
    } else if d == 4 {
        (1, 0)
    } else if d == 5 {
        (1, 1)
    } else if d == 6 {
        (0, 1)
    } else {
        (-1, 1)
    }
}

/// The neighbour of `p` in direction `d`.
pub open spec fn neighbour(p: (int, int), d: int) -> (int, int) {
    (p.0 + direction(d).0, p.1 + direction(d).1)
}

/// `p` is a pixel of the region.
pub open spec fn inside(region: Set<int>, w: int, h: int, p: (int, int)) -> bool {
    plane::in_plane(w, h, p.0, p.1) && region.contains(plane::index_of(w, p.0, p.1))
}

/// The first direction, clockwise from `k` past `back`, in which `p` has a
/// neighbour inside the region.
pub open spec fn scan(region: Set<int>, w: int, h: int, p: (int, int), back: int, k: int) -> Option<
    int,
>
    decreases 9 - k,
{
    if k > 8 {
        None
    } else if inside(region, w, h, neighbour(p, (back + k) % 8)) {
        Some((back + k) % 8)
    } else {
        scan(region, w, h, p, back, k + 1)
    }
}

/// The rest of a Moore-neighbour walk that came over `walked`, the last step
/// having left direction `back` behind: always on to the first inside
/// neighbour clockwise from there, until the walk closes, is stuck, or has
/// more than `cap` pixels.
pub open spec fn walk(
    region: Set<int>,
    w: int,
    h: int,
    walked: Seq<(int, int)>,
    back: int,
    cap: int,
) -> Seq<(int, int)>
    decreases cap - walked.len(),
{
    match scan(region, w, h, walked.last(), back, 1) {
        None => walked,
        Some(d) => {
            let next = neighbour(walked.last(), d);
            if next == walked[0] && walked.len() > 2 {
                walked
            } else if walked.len() + 1 > cap {
                walked.push(next)
            } else {
                walk(region, w, h, walked.push(next), (d + 4) % 8, cap)
            }
        },
    }
}

/// Most pixels a contour can have before the walk is given up.
pub open spec fn contour_cap(w: int, h: int) -> int {
    16 * (w + h)
}

/// The outer contour of a region from its top-left-most pixel `start`: the
/// pixel above it is outside, so the scan begins there.
pub open spec fn outer_contour(region: Set<int>, w: int, h: int, start: (int, int)) -> Seq<
    (int, int),
> {
    walk(region, w, h, seq![start], 2, contour_cap(w, h))
}

/// A list of pixels, as mathematical integers.
pub open spec fn points(pixels: Seq<[i32; 2]>) -> Seq<(int, int)> {
    pixels.map_values(|p: [i32; 2]| (p[0] as int, p[1] as int))
}

/// Pixels that carry `label`.
pub open spec fn labelled(labels: Seq<u32>, label: u32) -> Set<int> {
    Set::new(|p: int| 0 <= p < labels.len() && labels[p] == label)
}

/// `pixels` stays in the region and moves to an 8-neighbour at every step.
pub open spec fn is_walk_inside(
    region: Set<int>,
    w: int,
    h: int,
    pixels: Seq<(int, int)>,
) -> bool {
    &&& forall|i: int| 0 <= i < pixels.len() ==> inside(region, w, h, #[trigger] pixels[i])
    &&& forall|i: int, j: int|
        #![trigger pixels[i], pixels[j]]
        0 <= i && j == i + 1 && j < pixels.len() ==> are_neighbours(pixels[i], pixels[j])
}

/// `q` is one of the 8 neighbours of `p`.
pub open spec fn are_neighbours(p: (int, int), q: (int, int)) -> bool {
    exists|d: int| 0 <= d < 8 && q == #[trigger] neighbour(p, d)
}

/// The scan finds an inside neighbour.
proof fn lemma_scan(region: Set<int>, w: int, h: int, p: (int, int), back: int, k: int)
    requires
        0 <= back < 8,
        1 <= k <= 9,
    ensures
        scan(region, w, h, p, back, k) matches Some(d) ==> 0 <= d < 8 && inside(
            region,
            w,
            h,
            neighbour(p, d),
        ),
    decreases 9 - k,
{
    if k <= 8 {
        lemma_scan(region, w, h, p, back, k + 1);
    }
}

/// A walk stays a walk when it moves on to an inside neighbour.
proof fn lemma_walk_extends(
    region: Set<int>,
    w: int,
    h: int,
    pixels: Seq<(int, int)>,
    next: (int, int),
)
    requires
        is_walk_inside(region, w, h, pixels),
        pixels.len() > 0,
        are_neighbours(pixels.last(), next),
        inside(region, w, h, next),
    ensures
        is_walk_inside(region, w, h, pixels.push(next)),
{
    let longer = pixels.push(next);
    assert forall|i: int, j: int|
        #![trigger longer[i], longer[j]]
        0 <= i && j == i + 1 && j < longer.len() implies are_neighbours(longer[i], longer[j]) by {
        if j < pixels.len() {
            assert(are_neighbours(pixels[i], pixels[j]));
        }
    }
}

fn step_x(d: usize) -> (dx: i32)
    requires
        d < 8,
    ensures
        dx == direction(d as int).0,
{
    if d == 0 || d == 1 || d == 7 {
        -1
    } else if d == 2 || d == 6 {
        0
    } else {
        1
    }
}

fn step_y(d: usize) -> (dy: i32)
    requires
        d < 8,
    ensures
        dy == direction(d as int).1,
{
    if d == 1 || d == 2 || d == 3 {
        -1
    } else if d == 0 || d == 4 {
        0
    } else {
        1
    }
}

/// Whether (x, y) is a pixel that carries `label`.
fn is_inside(labels: &[u32], width: usize, height: usize, label: u32, x: i32, y: i32) -> (r: bool)
    requires
        labels@.len() == width * height,
        width <= i32::MAX,
        height <= i32::MAX,
    ensures
        r == inside(labelled(labels@, label), width as int, height as int, (x as int, y as int)),
{
    if x < 0 || y < 0 || x as usize >= width || y as usize >= height {
        return false;
    }
    proof {
        plane::lemma_index_bounds(width as int, height as int, x as int, y as int);
        assert(labels@.len() == labels.len());
    }
    labels[y as usize * width + x as usize] == label
}

/// Moore-neighbor outer contour trace (8-connected walk around a 4-connected
/// component), starting from its top-left-most pixel.
pub fn trace_contour(
    labels: &[u32],
    width: usize,
    height: usize,
    label: u32,
    sx: usize,
    sy: usize,
) -> (contour: Vec<[i32; 2]>)
    requires
        labels@.len() == width * height,
        width <= i32::MAX,
        height <= i32::MAX,
        contour_cap(width as int, height as int) <= usize::MAX,
        inside(
            labelled(labels@, label),
            width as int,
            height as int,
            (sx as int, sy as int),
        ),
    ensures
        points(contour@) == outer_contour(
            labelled(labels@, label),
            width as int,
            height as int,
            (sx as int, sy as int),
        ),
        is_walk_inside(
            labelled(labels@, label),
            width as int,
            height as int,
            points(contour@),
        ),
{
    let ghost w = width as int;
    let ghost h = height as int;
    let ghost region = labelled(labels@, label);
    let start: [i32; 2] = [sx as i32, sy as i32];
    let mut contour: Vec<[i32; 2]> = Vec::new();
    contour.push(start);
    let mut cur: [i32; 2] = start;
    // The pixel above the start is outside (top-most row of the component):
    // begin the neighborhood scan from it.
    let mut back: usize = 2;
    let cap: usize = 4 * (width + height) * 4;
    proof {
        assert(points(contour@) =~= seq![(sx as int, sy as int)]);
    }
    loop
        invariant_except_break
            w == width,
            h == height,
            labels@.len() == width * height,
            width <= i32::MAX,
            height <= i32::MAX,
            region == labelled(labels@, label),
            cap == contour_cap(w, h),
            back < 8,
            contour@.len() >= 1,
            contour@.len() <= cap,
            cur == contour@.last(),
            start == contour@[0],
            inside(region, w, h, (cur[0] as int, cur[1] as int)),
            is_walk_inside(region, w, h, points(contour@)),
            walk(region, w, h, points(contour@), back as int, cap as int) == outer_contour(
                region,
                w,
                h,
                (sx as int, sy as int),
            ),
        ensures
            points(contour@) == outer_contour(region, w, h, (sx as int, sy as int)),
            is_walk_inside(region, w, h, points(contour@)),
        decreases cap - contour@.len(),
    {
        let ghost walked = points(contour@);
        let ghost here = (cur[0] as int, cur[1] as int);
        let mut found: bool = false;
        let mut dir: usize = 0;
        let mut k: usize = 1;
        while k <= 8 && !found
            invariant
                w == width,
                h == height,
                labels@.len() == width * height,
                width <= i32::MAX,
                height <= i32::MAX,
                region == labelled(labels@, label),
                back < 8,
                1 <= k <= 9,
                here == (cur[0] as int, cur[1] as int),
                inside(region, w, h, here),
                found ==> dir < 8 && scan(region, w, h, here, back as int, 1) == Some(dir as int),
                !found ==> scan(region, w, h, here, back as int, 1) == scan(
                    region,
                    w,
                    h,
                    here,
                    back as int,
                    k as int,
                ),
            decreases 9 - k + (if found { 0int } else { 1int }),
        {
            let d: usize = (back + k) % 8;
            if is_inside(labels, width, height, label, cur[0] + step_x(d), cur[1] + step_y(d)) {
                dir = d;
                found = true;
            } else {
                k = k + 1;
            }
        }
        proof {
            assert(walked.last() == here);
        }
        if !found {
            break ;
        }
        let nx: i32 = cur[0] + step_x(dir);
        let ny: i32 = cur[1] + step_y(dir);
        let ghost next = (nx as int, ny as int);
        proof {
            lemma_scan(region, w, h, here, back as int, 1);
            assert(next == neighbour(here, dir as int));
            assert(walked[0] == (start[0] as int, start[1] as int));
        }
        if nx == start[0] && ny == start[1] && contour.len() > 2 {
            break ;
        }
        cur = [nx, ny];
        contour.push(cur);
        proof {
            assert(points(contour@) =~= walked.push(next));
            assert(are_neighbours(here, next));
            lemma_walk_extends(region, w, h, walked, next);
        }
        if contour.len() > cap {
            break ;
        }
        back = (dir + 4) % 8;
    }
    contour
}

/// `p` is the first pixel of its dark component in raster order: top-most,
/// then left-most.
pub open spec fn is_first_pixel(mask: Seq<u8>, w: int, p: int) -> bool {
    &&& components::is_dark(mask, p)
    &&& forall|q: int| #[trigger] components::connected(mask, w, p, q) ==> p <= q
}

/// The outer contour of the component whose first pixel is `p`.
pub open spec fn contour_at(mask: Seq<u8>, w: int, h: int, p: int) -> Seq<(int, int)> {
    outer_contour(components::component(mask, w, p), w, h, (p % w, p / w))
}

/// A component of plausible area with a contour of plausible length starts at
/// pixel `p`.
pub open spec fn is_candidate(mask: Seq<u8>, w: int, h: int, p: int) -> bool {
    &&& is_first_pixel(mask, w, p)
    &&& MIN_COMPONENT_AREA <= components::component(mask, w, p).len() <= w * h * 9 / 10
    &&& contour_at(mask, w, h, p).len() >= MIN_CONTOUR_LEN
}

/// The contours of the candidates that start before pixel `n`, in raster order.
pub open spec fn candidates_before(mask: Seq<u8>, w: int, h: int, n: int) -> Seq<Seq<(int, int)>>
    decreases n,
{
    if n <= 0 {
        Seq::empty()
    } else if is_candidate(mask, w, h, n - 1) {
        candidates_before(mask, w, h, n - 1).push(contour_at(mask, w, h, n - 1))
    } else {
        candidates_before(mask, w, h, n - 1)
    }
}

/// A list of contours, as mathematical integers.
pub open spec fn contours(list: Seq<Vec<[i32; 2]>>) -> Seq<Seq<(int, int)>> {
    list.map_values(|c: Vec<[i32; 2]>| points(c@))
}

/// Connected pixels carry the same label when components are labelled whole.
proof fn lemma_connected_same_label(mask: Seq<u8>, w: int, labels: Seq<u32>, p: int, q: int)
    requires
        components::labels_whole_components(mask, w, labels),
        components::connected(mask, w, p, q),
    ensures
        labels[p] == labels[q],
        components::is_dark(mask, p),
        components::is_dark(mask, q),
{
    let path = choose|path: Seq<int>| #[trigger]
        components::is_dark_path(mask, w, path) && path[0] == p && path.last() == q;
    assert(components::is_dark(mask, path[0]));
    let set = Set::new(|a: int| components::is_dark(mask, a) && labels[a] == labels[p]);
    components::lemma_closed_set_holds_component(mask, w, set, p, q);
}

/// The contours of all candidate components of a 0/1 mask, in raster order of
/// their first pixels.
pub fn find_contours(mask: &[u8], width: usize, height: usize) -> (found: Vec<Vec<[i32; 2]>>)
    requires
        mask@.len() == width * height,
        forall|p: int| 0 <= p < mask@.len() ==> #[trigger] mask@[p] <= 1,
        width <= i32::MAX,
        height <= i32::MAX,
        contour_cap(width as int, height as int) <= usize::MAX,
        width * height * 9 <= usize::MAX,
        width * height < u32::MAX,
    ensures
        contours(found@) == candidates_before(
            mask@,
            width as int,
            height as int,
            width * height,
        ),
        forall|i: int|
            0 <= i < found@.len() ==> (#[trigger] found@[i])@.len() >= MIN_CONTOUR_LEN,
        forall|i: int, k: int|
            #![trigger found@[i]@[k]]
            0 <= i < found@.len() && 0 <= k < found@[i]@.len() ==> 0 <= found@[i]@[k][0] < width
                && 0
                <= found@[i]@[k][1] < height,
{
    let ghost w = width as int;
    let ghost h = height as int;
    let total: usize = mask.len();
    let mut labels: Vec<u32> = vec![0u32; total];
    let mut found: Vec<Vec<[i32; 2]>> = Vec::new();
    let mut next_label: u32 = 1;
    let max_area: usize = total * 9 / 10;
    let mut si: usize = 0;
    proof {
        assert(contours(found@) =~= Seq::<Seq<(int, int)>>::empty());
    }
    while si < total
        invariant
            w == width,
            h == height,
            total == width * height,
            mask@.len() == total,
            forall|p: int| 0 <= p < mask@.len() ==> #[trigger] mask@[p] <= 1,
            width <= i32::MAX,
            height <= i32::MAX,
            contour_cap(w, h) <= usize::MAX,
            total < u32::MAX,
            max_area == w * h * 9 / 10,
            si <= total,
            1 <= next_label <= si + 1,
            components::labels_whole_components(mask@, w, labels@),
            forall|p: int| 0 <= p < labels@.len() ==> #[trigger] labels@[p] < next_label,
            forall|p: int| 0 <= p < si && components::is_dark(mask@, p)
                ==> #[trigger] labels@[p] != 0,
            forall|p: int|
                0 <= p < labels@.len() && #[trigger] labels@[p] != 0 ==> exists|q: int|
                    q < si && #[trigger] components::connected(mask@, w, q, p),
            contours(found@) == candidates_before(mask@, w, h, si as int),
            forall|i: int|
                0 <= i < found@.len() ==> (#[trigger] found@[i])@.len() >= MIN_CONTOUR_LEN,
            forall|i: int, k: int|
                #![trigger found@[i]@[k]]
                0 <= i < found@.len() && 0 <= k < found@[i]@.len() ==> 0 <= found@[i]@[k][0]
                    < width && 0 <= found@[i]@[k][1] < height,
        decreases total - si,
    {
        let ghost p = si as int;
        if mask[si] == 0 || labels[si] != 0 {
            proof {
                if components::is_dark(mask@, p) {
                    let q = choose|q: int| q < si
                        && #[trigger] components::connected(mask@, w, q, p);
                    assert(w > 0) by (nonlinear_arith)
                        requires
                            w >= 0,
                            0 < w * h,
                    ;
                    components::lemma_connected_symmetric(mask@, w, q, p);
                }
                assert(!is_first_pixel(mask@, w, p));
            }
            si = si + 1;
            continue ;
        }
        assert(w > 0) by (nonlinear_arith)
            requires
                w >= 0,
                0 < w * h,
        ;
        let sx: usize = si % width;
        let sy: usize = si / width;
        let ghost before = labels@;
        let ghost comp = components::component(mask@, w, p);
        proof {
            plane::lemma_index_unsplit(w, h, p);
            assert forall|q: int| #[trigger] components::connected(mask@, w, p, q) implies p
                <= q by {
                lemma_connected_same_label(mask@, w, labels@, p, q);
            }
            assert(is_first_pixel(mask@, w, p));
        }
        let label: u32 = next_label;
        let fill = flood_fill(mask, &mut labels, width, height, sx, sy, label);
        next_label = next_label + 1;
        proof {
            assert(labelled(labels@, label) =~= comp) by {
                assert forall|q: int| comp.contains(q) implies labelled(labels@, label).contains(q) by {
                    lemma_connected_same_label(mask@, w, before, p, q);
                }
            }
            components::lemma_connected_to_self(mask@, w, p);
            plane::lemma_index_split(w, fill.x as int, fill.y as int);
            let first = plane::index_of(w, fill.x as int, fill.y as int);
            assert(comp.contains(p) && comp.contains(first));
            assert(components::connected(mask@, w, p, first));
            assert(first == p);
            assert forall|q: int| 0 <= q < p + 1
                && components::is_dark(mask@, q) implies #[trigger] labels@[q] != 0 by {
                if q == p {
                    assert(comp.contains(p));
                } else {
                    assert(before[q] != 0);
                }
            }
            assert forall|q: int|
                0 <= q < labels@.len() && #[trigger] labels@[q] != 0 implies exists|r: int|
                    r < p + 1 && #[trigger] components::connected(mask@, w, r, q) by {
                if comp.contains(q) {
                    assert(components::connected(mask@, w, p, q));
                } else {
                    assert(before[q] != 0);
                    let r = choose|r: int| r < si
                        && #[trigger] components::connected(mask@, w, r, q);
                    assert(components::connected(mask@, w, r, q));
                }
            }
        }
        si = si + 1;
        if fill.count < MIN_COMPONENT_AREA || fill.count > max_area {
            continue ;
        }
        let contour = trace_contour(labels.as_slice(), width, height, label, fill.x, fill.y);
        if contour.len() < MIN_CONTOUR_LEN {
            continue ;
        }
        let ghost found_before = contours(found@);
        let ghost traced = points(contour@);
        proof {
            assert forall|k: int|
                #![trigger contour@[k]]
                0 <= k < contour@.len() implies 0 <= contour@[k][0] < width && 0 <= contour@[k][1]
                < height by {
                assert(inside(labelled(labels@, label), w, h, traced[k]));
            }
        }
        found.push(contour);
        proof {
            assert(contours(found@) =~= found_before.push(traced));
        }
    }
    found
}

} // verus!

//! Connected dark components of a thresholded frame (4-connectivity).
use vstd::prelude::*;

use crate::plane;

verus! {

/// Pixel `p` of the mask is dark.
pub open spec fn is_dark(mask: Seq<u8>, p: int) -> bool {
    0 <= p < mask.len() && mask[p] == 1
}

/// Pixels `p` and `q` of a plane of width `w` share an edge.
pub open spec fn adjacent(w: int, p: int, q: int) -> bool {
    ||| q == p + 1 && (p + 1) % w != 0
    ||| q == p - 1 && p % w != 0
    ||| q == p + w
    ||| q == p - w
}

/// `path` walks over dark pixels, each sharing an edge with the next.
pub open spec fn is_dark_path(mask: Seq<u8>, w: int, path: Seq<int>) -> bool {
    &&& path.len() > 0
    &&& forall|i: int| 0 <= i < path.len() ==> is_dark(mask, #[trigger] path[i])
    &&& forall|i: int, j: int|
        #![trigger path[i], path[j]]
        0 <= i && j == i + 1 && j < path.len() ==> adjacent(w, path[i], path[j])
}

/// A path of dark pixels leads from `p` to `q`.
pub open spec fn connected(mask: Seq<u8>, w: int, p: int, q: int) -> bool {
    exists|path: Seq<int>|
        #[trigger] is_dark_path(mask, w, path) && path[0] == p && path.last() == q
}

/// The dark component that pixel `p` belongs to.
pub open spec fn component(mask: Seq<u8>, w: int, p: int) -> Set<int> {
    Set::new(|q: int| connected(mask, w, p, q))
}

/// A dark pixel is connected to itself.
pub proof fn lemma_connected_to_self(mask: Seq<u8>, w: int, p: int)
    requires
        is_dark(mask, p),
    ensures
        connected(mask, w, p, p),
{
    assert(is_dark_path(mask, w, seq![p]));
}

/// A path can be extended by a dark neighbour of its end.
proof fn lemma_connected_extend(mask: Seq<u8>, w: int, p: int, q: int, r: int)
    requires
        connected(mask, w, p, q),
        is_dark(mask, r),
        adjacent(w, q, r),
    ensures
        connected(mask, w, p, r),
{
    let path = choose|path: Seq<int>| #[trigger]
        is_dark_path(mask, w, path) && path[0] == p && path.last() == q;
    assert(is_dark_path(mask, w, path.push(r)));
    assert(path.push(r)[0] == p);
    assert(path.push(r).last() == r);
}

/// A set of pixels that holds `p` and all dark neighbours of its members holds
/// everything connected to `p`.
pub proof fn lemma_closed_set_holds_component(mask: Seq<u8>, w: int, set: Set<int>, p: int, q: int)
    requires
        set.contains(p),
        forall|a: int, b: int|
            set.contains(a) && is_dark(mask, b) && #[trigger] adjacent(w, a, b) ==> set.contains(b),
        connected(mask, w, p, q),
    ensures
        set.contains(q),
{
    let path = choose|path: Seq<int>| #[trigger]
        is_dark_path(mask, w, path) && path[0] == p && path.last() == q;
    lemma_closed_set_holds_path(mask, w, set, path, path.len() - 1);
}

proof fn lemma_closed_set_holds_path(mask: Seq<u8>, w: int, set: Set<int>, path: Seq<int>, i: int)
    requires
        is_dark_path(mask, w, path),
        set.contains(path[0]),
        forall|a: int, b: int|
            set.contains(a) && is_dark(mask, b) && #[trigger] adjacent(w, a, b) ==> set.contains(b),
        0 <= i < path.len(),
    ensures
        set.contains(path[i]),
    decreases i,
{
    if i > 0 {
        lemma_closed_set_holds_path(mask, w, set, path, i - 1);
        assert(adjacent(w, path[i - 1], path[i]));
        assert(is_dark(mask, path[i]));
    }
}

/// Being connected is symmetric.
pub proof fn lemma_connected_symmetric(mask: Seq<u8>, w: int, p: int, q: int)
    requires
        w > 0,
        connected(mask, w, p, q),
    ensures
        connected(mask, w, q, p),
{
    let path = choose|path: Seq<int>| #[trigger]
        is_dark_path(mask, w, path) && path[0] == p && path.last() == q;
    let back = path.reverse();
    assert forall|i: int, j: int|
        #![trigger back[i], back[j]]
        0 <= i && j == i + 1 && j < back.len() implies adjacent(w, back[i], back[j]) by {
        let a = path[path.len() - 1 - j];
        let b = path[path.len() - 1 - i];
        assert(adjacent(w, a, b));
    }
    assert(is_dark_path(mask, w, back));
    assert(back[0] == q && back.last() == p);
}

/// Every component is labelled as a whole or not at all.
pub open spec fn labels_whole_components(mask: Seq<u8>, w: int, labels: Seq<u32>) -> bool {
    &&& labels.len() == mask.len()
    &&& forall|p: int, q: int|
        is_dark(mask, p) && is_dark(mask, q) && #[trigger] adjacent(w, p, q) ==> labels[p]
            == labels[q]
}

/// What a flood fill finds out about a component.
pub struct Component {
    /// Number of pixels.
    pub count: usize,
    /// Top-most, then left-most pixel.
    pub x: usize,
    pub y: usize,
}

/// Pixels on the fill's stack, as indices.
spec fn stack_pixel(w: int, entry: (usize, usize)) -> int {
    plane::index_of(w, entry.0 as int, entry.1 as int)
}

/// The state of a flood fill of `label` from pixel `seed`: every pixel that
/// carries the label is connected to the seed, and the dark neighbours of
/// every pixel that is no longer on the stack, `current` excepted, carry it
/// too.
spec fn fill_state(
    mask: Seq<u8>,
    w: int,
    h: int,
    before: Seq<u32>,
    labels: Seq<u32>,
    label: u32,
    seed: int,
    filled: Set<int>,
    stack: Seq<(usize, usize)>,
    done: int,
    current: int,
) -> bool {
    &&& labels.len() == mask.len()
    &&& filled.finite()
    &&& filled.contains(seed)
    &&& filled.len() == done + stack.len()
    &&& forall|p: int| #[trigger]
        filled.contains(p) ==> connected(mask, w, seed, p) && is_dark(mask, p) && before[p] == 0
    &&& forall|p: int|
        0 <= p < labels.len() ==> #[trigger] labels[p] == (if filled.contains(p) {
            label
        } else {
            before[p]
        })
    &&& forall|i: int|
        0 <= i < stack.len() ==> plane::in_plane(
            w,
            h,
            (#[trigger] stack[i]).0 as int,
            stack[i].1 as int,
        ) && filled.contains(stack_pixel(w, stack[i])) && stack_pixel(w, stack[i]) != current
    &&& forall|i: int, j: int|
        0 <= i < j < stack.len() ==> stack_pixel(w, #[trigger] stack[i]) != stack_pixel(
            w,
            #[trigger] stack[j],
        )
    &&& forall|p: int, q: int|
        filled.contains(p) && p != current && !on_stack(w, stack, p) && is_dark(mask, q)
            && #[trigger] adjacent(w, p, q) ==> filled.contains(q)
}

spec fn on_stack(w: int, stack: Seq<(usize, usize)>, p: int) -> bool {
    exists|i: int| 0 <= i < stack.len() && stack_pixel(w, #[trigger] stack[i]) == p
}

/// Label neighbour (nx, ny) of the current pixel and put it on the stack, if
/// it is dark and not labelled yet.
fn visit(
    mask: &[u8],
    labels: &mut Vec<u32>,
    stack: &mut Vec<(usize, usize)>,
    width: usize,
    height: usize,
    nx: usize,
    ny: usize,
    label: u32,
    Ghost(before): Ghost<Seq<u32>>,
    Ghost(seed): Ghost<int>,
    Ghost(filled): Ghost<Set<int>>,
    Ghost(done): Ghost<int>,
    Ghost(current): Ghost<int>,
) -> (grown: Ghost<Set<int>>)
    requires
        mask@.len() == width * height,
        labels_whole_components(mask@, width as int, before),
        label != 0,
        plane::in_plane(width as int, height as int, nx as int, ny as int),
        adjacent(width as int, current, plane::index_of(width as int, nx as int, ny as int)),
        filled.contains(current),
        fill_state(
            mask@,
            width as int,
            height as int,
            before,
            old(labels)@,
            label,
            seed,
            filled,
            old(stack)@,
            done,
            current,
        ),
    ensures
        fill_state(
            mask@,
            width as int,
            height as int,
            before,
            final(labels)@,
            label,
            seed,
            grown@,
            final(stack)@,
            done,
            current,
        ),
        filled.subset_of(grown@),
        forall|p: int|
            #![trigger grown@.contains(p)]
            grown@.contains(p) && !on_stack(width as int, final(stack)@, p) ==> filled.contains(p)
                && !on_stack(width as int, old(stack)@, p),
        is_dark(mask@, plane::index_of(width as int, nx as int, ny as int)) ==> grown@.contains(
            plane::index_of(width as int, nx as int, ny as int),
        ),
{
    let ghost w = width as int;
    let ghost n = plane::index_of(w, nx as int, ny as int);
    proof {
        plane::lemma_index_bounds(w, height as int, nx as int, ny as int);
        assert(mask@.len() == mask.len());
    }
    let ni: usize = ny * width + nx;
    if mask[ni] == 1 && labels[ni] == 0 {
        proof {
            lemma_connected_extend(mask@, w, seed, current, n);
            assert(before[current] == before[n]);
            assert(!filled.contains(n));
        }
        let ghost stack_before = stack@;
        let ghost grown = filled.insert(n);
        labels.set(ni, label);
        stack.push((nx, ny));
        proof {
            assert(stack_pixel(w, stack@[stack_before.len() as int]) == n);
            assert forall|p: int, q: int|
                grown.contains(p) && p != current && !on_stack(w, stack@, p) && is_dark(mask@, q)
                    && #[trigger] adjacent(w, p, q) implies grown.contains(q) by {
                if p == n {
                    assert(on_stack(w, stack@, p));
                } else if on_stack(w, stack_before, p) {
                    let i = choose|i: int|
                        0 <= i < stack_before.len()
                            && stack_pixel(w, #[trigger] stack_before[i]) == p;
                    assert(stack@[i] == stack_before[i]);
                    assert(on_stack(w, stack@, p));
                }
            }
            assert forall|p: int| #![trigger grown.contains(p)]
                grown.contains(p) && !on_stack(w, stack@, p) implies filled.contains(p)
                    && !on_stack(w, stack_before, p) by {
                if p == n {
                    assert(on_stack(w, stack@, p));
                } else if on_stack(w, stack_before, p) {
                    let i = choose|i: int|
                        0 <= i < stack_before.len()
                            && stack_pixel(w, #[trigger] stack_before[i]) == p;
                    assert(stack@[i] == stack_before[i]);
                }
            }
            assert(n != current) by {
                if n == current {
                    assert(filled.contains(n));
                }
            }
        }
        Ghost(grown)
    } else {
        proof {
            if is_dark(mask@, n) {
                assert(before[current] == before[n]);
                assert(before[current] == 0);
            }
        }
        Ghost(filled)
    }
}

/// Flood-fill the dark component of pixel (sx, sy) with `label`.
pub fn flood_fill(
    mask: &[u8],
    labels: &mut Vec<u32>,
    width: usize,
    height: usize,
    sx: usize,
    sy: usize,
    label: u32,
) -> (found: Component)
    requires
        mask@.len() == width * height,
        labels_whole_components(mask@, width as int, old(labels)@),
        label != 0,
        plane::in_plane(width as int, height as int, sx as int, sy as int),
        is_dark(mask@, plane::index_of(width as int, sx as int, sy as int)),
        old(labels)@[plane::index_of(width as int, sx as int, sy as int)] == 0,
        forall|p: int| 0 <= p < old(labels)@.len() ==> #[trigger] old(labels)@[p] != label,
    ensures
        final(labels)@.len() == old(labels)@.len(),
        forall|p: int|
            0 <= p < final(labels)@.len() ==> #[trigger] final(labels)@[p] == (if component(
                mask@,
                width as int,
                plane::index_of(width as int, sx as int, sy as int),
            ).contains(p) {
                label
            } else {
                old(labels)@[p]
            }),
        labels_whole_components(mask@, width as int, final(labels)@),
        component(
            mask@,
            width as int,
            plane::index_of(width as int, sx as int, sy as int),
        ).finite(),
        found.count == component(
            mask@,
            width as int,
            plane::index_of(width as int, sx as int, sy as int),
        ).len(),
        plane::in_plane(width as int, height as int, found.x as int, found.y as int),
        component(
            mask@,
            width as int,
            plane::index_of(width as int, sx as int, sy as int),
        ).contains(plane::index_of(width as int, found.x as int, found.y as int)),
        forall|p: int| #[trigger]
            component(
                mask@,
                width as int,
                plane::index_of(width as int, sx as int, sy as int),
            ).contains(p) ==> plane::index_of(width as int, found.x as int, found.y as int) <= p,
{
    let ghost w = width as int;
    let ghost h = height as int;
    let ghost seed = plane::index_of(w, sx as int, sy as int);
    let ghost before = labels@;
    proof {
        plane::lemma_index_bounds(w, h, sx as int, sy as int);
        lemma_connected_to_self(mask@, w, seed);
        assert(mask@.len() == mask.len());
    }
    labels.set(sy * width + sx, label);
    let mut stack: Vec<(usize, usize)> = Vec::new();
    stack.push((sx, sy));
    let mut count: usize = 0;
    let mut cx: usize = sx;
    let mut cy: usize = sy;
    let ghost mut filled = Set::<int>::empty().insert(seed);
    proof {
        assert(stack_pixel(w, stack@[0]) == seed);
        assert(on_stack(w, stack@, seed));
    }
    loop
        invariant
            w == width,
            h == height,
            mask@.len() == width * height,
            labels_whole_components(mask@, w, before),
            label != 0,
            seed == plane::index_of(w, sx as int, sy as int),
            plane::in_plane(w, h, cx as int, cy as int),
            filled.contains(plane::index_of(w, cx as int, cy as int)),
            forall|p: int| #[trigger]
                filled.contains(p) && !on_stack(w, stack@, p)
                    ==> plane::index_of(w, cx as int, cy as int) <= p,
            fill_state(mask@, w, h, before, labels@, label, seed, filled, stack@, count as int, -1),
        ensures
            stack@.len() == 0,
        decreases width * height - count,
    {
        let ghost stack_before = stack@;
        let (x, y) = match stack.pop() {
            Some(entry) => entry,
            None => {
                break;
            },
        };
        let ghost current = plane::index_of(w, x as int, y as int);
        proof {
            assert(stack_before.last() == (x, y));
            assert(stack_pixel(w, stack_before.last()) == current);
            plane::lemma_index_bounds(w, h, x as int, y as int);
            plane::lemma_index_bounds(w, h, cx as int, cy as int);
            plane::lemma_index_split(w, x as int, y as int);
            assert(mask@.len() == mask.len());
            vstd::set_lib::lemma_int_range(0, mask@.len() as int);
            assert(filled.subset_of(vstd::set_lib::set_int_range(0, mask@.len() as int)));
            vstd::set_lib::lemma_len_subset(
                filled,
                vstd::set_lib::set_int_range(0, mask@.len() as int),
            );
        }
        count = count + 1;
        let ghost (ox, oy) = (cx as int, cy as int);
        if y < cy || (y == cy && x < cx) {
            cx = x;
            cy = y;
        }
        proof {
            lemma_raster_order(w, x as int, y as int, ox, oy);
            assert forall|p: int| #[trigger]
                filled.contains(p) && p != current
                    && !on_stack(w, stack@, p) implies !on_stack(w, stack_before, p) by {
                if on_stack(w, stack_before, p) {
                    let i = choose|i: int|
                        0 <= i < stack_before.len()
                            && stack_pixel(w, #[trigger] stack_before[i]) == p;
                    if i < stack@.len() {
                        assert(stack@[i] == stack_before[i]);
                    }
                }
            }
            assert(fill_state(
                mask@,
                w,
                h,
                before,
                labels@,
                label,
                seed,
                filled,
                stack@,
                count as int,
                current,
            ));
        }
        let ghost mut grown = filled;
        if x > 0 {
            let Ghost(g) = visit(mask, labels, &mut stack, width, height, x - 1, y, label,
                Ghost(before), Ghost(seed), Ghost(grown), Ghost(count as int), Ghost(current));
            proof { grown = g; }
        }
        if x + 1 < width {
            proof {
                lemma_right_neighbour(w, x as int, y as int);
            }
            let Ghost(g) = visit(mask, labels, &mut stack, width, height, x + 1, y, label,
                Ghost(before), Ghost(seed), Ghost(grown), Ghost(count as int), Ghost(current));
            proof { grown = g; }
        }
        if y > 0 {
            proof {
                assert((y - 1) * w == y * w - w) by (nonlinear_arith);
            }
            let Ghost(g) = visit(mask, labels, &mut stack, width, height, x, y - 1, label,
                Ghost(before), Ghost(seed), Ghost(grown), Ghost(count as int), Ghost(current));
            proof { grown = g; }
        }
        if y + 1 < height {
            proof {
                assert((y + 1) * w == y * w + w) by (nonlinear_arith);
            }
            let Ghost(g) = visit(mask, labels, &mut stack, width, height, x, y + 1, label,
                Ghost(before), Ghost(seed), Ghost(grown), Ghost(count as int), Ghost(current));
            proof { grown = g; }
        }
        proof {
            assert forall|q: int| is_dark(mask@, q)
                && #[trigger] adjacent(w, current, q) implies grown.contains(q) by {
                lemma_neighbours(w, h, x as int, y as int, q);
            }
            filled = grown;
        }
    }
    proof {
        let comp = component(mask@, w, seed);
        assert forall|p: int| comp.contains(p) implies filled.contains(p) by {
            assert forall|a: int, b: int|
                filled.contains(a) && is_dark(mask@, b)
                    && #[trigger] adjacent(w, a, b) implies filled.contains(b) by {
                assert(!on_stack(w, stack@, a));
            }
            lemma_closed_set_holds_component(mask@, w, filled, seed, p);
        }
        assert(comp =~= filled);
        assert forall|p: int, q: int|
            is_dark(mask@, p) && is_dark(mask@, q)
                && #[trigger] adjacent(w, p, q) implies labels@[p]
            == labels@[q] by {
            assert(adjacent(w, q, p));
            if comp.contains(p) {
                lemma_connected_extend(mask@, w, seed, p, q);
            }
            if comp.contains(q) {
                lemma_connected_extend(mask@, w, seed, q, p);
            }
        }
    }
    Component { count, x: cx, y: cy }
}

/// Raster order of pixels is the order of their indices.
proof fn lemma_raster_order(w: int, x: int, y: int, x2: int, y2: int)
    requires
        0 <= x < w,
        0 <= x2 < w,
    ensures
        (y < y2 || (y == y2 && x < x2)) <==> plane::index_of(w, x, y) < plane::index_of(w, x2, y2),
{
    if y < y2 {
        assert(y * w + w <= y2 * w) by (nonlinear_arith)
            requires
                y < y2,
                w > 0,
        ;
    } else if y > y2 {
        assert(y2 * w + w <= y * w) by (nonlinear_arith)
            requires
                y > y2,
                w > 0,
        ;
    }
}

/// The pixel to the right, when there is one, is adjacent.
proof fn lemma_right_neighbour(w: int, x: int, y: int)
    requires
        0 <= x,
        x + 1 < w,
        0 <= y,
    ensures
        adjacent(w, plane::index_of(w, x, y), plane::index_of(w, x + 1, y)),
{
    plane::lemma_index_split(w, x + 1, y);
}

/// Every adjacent index inside the plane is one of the four neighbours.
proof fn lemma_neighbours(w: int, h: int, x: int, y: int, q: int)
    requires
        plane::in_plane(w, h, x, y),
        0 <= q < w * h,
        adjacent(w, plane::index_of(w, x, y), q),
    ensures
        (x > 0 && q == plane::index_of(w, x - 1, y)) || (x + 1 < w && q == plane::index_of(
            w,
            x + 1,
            y,
        )) || (y > 0 && q == plane::index_of(w, x, y - 1)) || (y + 1 < h && q == plane::index_of(
            w,
            x,
            y + 1,
        )),
{
    let p = plane::index_of(w, x, y);
    plane::lemma_index_split(w, x, y);
    assert((y - 1) * w == y * w - w) by (nonlinear_arith);
    assert((y + 1) * w == y * w + w) by (nonlinear_arith);
    if q == p + 1 && (p + 1) % w != 0 {
        if x + 1 == w {
            plane::lemma_index_split(w, 0, y + 1);
        }
    } else if q == p + w {
        if y + 1 == h {
            assert(h * w == w * h) by (nonlinear_arith);
        }
    } else if q == p - w {
        if y == 0 {
            assert(y * w == 0) by (nonlinear_arith)
                requires
                    y == 0,
            ;
        }
    }
}

} // verus!

//! What looking for outlines and corners promises, whichever way up and however bright a
//! frame is.
use vstd::prelude::*;

use crate::components;
use crate::contour;
use crate::double;
use crate::double::Double;
use crate::features;
use crate::features::{BestTwo, Feature, Part};
use crate::plane;
use crate::shift;
use crate::sorting;

verus! {

/// Two pixels belong together if and only if they are next to each other in a row or in a
/// column: not where only their corners touch, and not across the end of a row.
pub proof fn law_dark_pixels_join_along_edges(w: int, h: int, x: int, y: int, x1: int, y1: int)
    requires
        plane::in_plane(w, h, x, y),
        plane::in_plane(w, h, x1, y1),
    ensures
        components::adjacent(w, plane::index_of(w, x, y), plane::index_of(w, x1, y1)) <==> (x == x1
            && (y1 == y + 1 || y1 == y - 1)) || (y == y1 && (x1 == x + 1 || x1 == x - 1)),
{
    let (p, q) = (plane::index_of(w, x, y), plane::index_of(w, x1, y1));
    plane::lemma_index_split(w, x, y);
    plane::lemma_index_split(w, x1, y1);
    assert((y + 1) * w == y * w + w && (y - 1) * w == y * w - w) by (nonlinear_arith);
    if q == p + 1 && (p + 1) % w != 0 {
        if x + 1 < w {
            plane::lemma_index_split(w, x + 1, y);
        } else {
            plane::lemma_index_split(w, 0, y + 1);
        }
    }
    if q == p - 1 && p % w != 0 {
        plane::lemma_index_split(w, x - 1, y);
    }
    if q == p + w {
        plane::lemma_index_split(w, x, y + 1);
    }
    if q == p - w && y > 0 {
        plane::lemma_index_split(w, x, y - 1);
    }
    if y == y1 && x1 == x + 1 {
        assert(q == p + 1);
    }
    if y == 0 && q == p - w {
        assert(0 * w == 0);
    }
}

/// A walk looks around clockwise: each direction is an eighth of a turn on from the one
/// before, and the fourth after it is the opposite one.
pub proof fn law_directions_turn_clockwise(d: int)
    requires
        0 <= d < 8,
    ensures
        ({
            let (a, b, c) = (
                contour::direction(d),
                contour::direction((d + 1) % 8),
                contour::direction((d + 4) % 8),
            );
            &&& c == (-a.0, -a.1)
            &&& a.0 * b.1 - a.1 * b.0 == 1
            &&& a.0 * b.0 + a.1 * b.1 == 1
        }),
{
}

/// A candidate outline is that of a dark component of at least 98 pixels and at most nine
/// tenths of the frame, and is at least 16 pixels long.
pub proof fn law_candidates_are_of_marker_size(mask: Seq<u8>, w: int, h: int, p: int)
    requires
        contour::is_candidate(mask, w, h, p),
    ensures
        98 <= components::component(mask, w, p).len(),
        10 * components::component(mask, w, p).len() <= 9 * (w * h),
        contour::contour_at(mask, w, h, p).len() >= 16,
{
}

/// Plane `b` shows what plane `a` shows, inverted.
pub open spec fn is_inverted(a: Seq<u8>, b: Seq<u8>, w: int, h: int) -> bool {
    forall|x: int, y: int|
        plane::in_plane(w, h, x, y) ==> #[trigger] features::luma(b, w, x, y) == 255
            - features::luma(a, w, x, y)
}

proof fn lemma_inverted_window(
    a: Seq<u8>,
    b: Seq<u8>,
    w: int,
    h: int,
    x: int,
    y: int,
    part: Part,
    n: int,
)
    requires
        is_inverted(a, b, w, h),
        features::is_inner(w, h, x, y),
        n <= 25,
    ensures
        features::window_sum(b, w, x, y, part, n) == features::window_sum(a, w, x, y, part, n),
    decreases n,
{
    if n > 0 {
        lemma_inverted_window(a, b, w, h, x, y, part, n - 1);
        let (c, r) = (x - 2 + (n - 1) % 5, y - 2 + (n - 1) / 5);
        let gx = features::luma(a, w, c + 1, r) - features::luma(a, w, c - 1, r);
        let gy = features::luma(a, w, c, r + 1) - features::luma(a, w, c, r - 1);
        assert(features::luma(b, w, c + 1, r) - features::luma(b, w, c - 1, r) == -gx);
        assert(features::luma(b, w, c, r + 1) - features::luma(b, w, c, r - 1) == -gy);
        assert((-gx) * (-gx) == gx * gx && (-gy) * (-gy) == gy * gy && (-gx) * (-gy) == gx * gy)
            by (nonlinear_arith);
    }
}

/// A corner responds as strongly in the negative as in the frame.
pub proof fn law_corners_ignore_polarity(a: Seq<u8>, b: Seq<u8>, w: int, h: int, x: int, y: int)
    requires
        is_inverted(a, b, w, h),
        features::is_inner(w, h, x, y),
    ensures
        features::response_at(b, w, x, y) == features::response_at(a, w, x, y),
{
    lemma_inverted_window(a, b, w, h, x, y, Part::XX, 25);
    lemma_inverted_window(a, b, w, h, x, y, Part::YY, 25);
    lemma_inverted_window(a, b, w, h, x, y, Part::XY, 25);
}

/// Plane `b` is plane `a` with rows and columns exchanged.
pub open spec fn is_transposed(a: Seq<u8>, b: Seq<u8>, w: int, h: int) -> bool {
    forall|x: int, y: int|
        plane::in_plane(w, h, x, y) ==> #[trigger] features::luma(b, h, y, x) == features::luma(
            a,
            w,
            x,
            y,
        )
}

/// The component of the structure tensor that exchanging rows and columns gives.
spec fn exchanged(part: Part) -> Part {
    match part {
        Part::XX => Part::YY,
        Part::YY => Part::XX,
        Part::XY => Part::XY,
    }
}

proof fn lemma_transposed_product(
    a: Seq<u8>,
    b: Seq<u8>,
    w: int,
    h: int,
    x: int,
    y: int,
    part: Part,
)
    requires
        is_transposed(a, b, w, h),
        1 <= x < w - 1,
        1 <= y < h - 1,
    ensures
        features::gradient_product(b, h, y, x, exchanged(part)) == features::gradient_product(
            a,
            w,
            x,
            y,
            part,
        ),
{
    let gx = features::luma(a, w, x + 1, y) - features::luma(a, w, x - 1, y);
    let gy = features::luma(a, w, x, y + 1) - features::luma(a, w, x, y - 1);
    assert(features::luma(b, h, y, x + 1) - features::luma(b, h, y, x - 1) == gx);
    assert(features::luma(b, h, y + 1, x) - features::luma(b, h, y - 1, x) == gy);
    assert(gx * gy == gy * gx) by (nonlinear_arith);
}

/// Row `j` of a window, summed.
spec fn row_of(gray: Seq<u8>, w: int, x: int, y: int, part: Part) -> int {
    features::gradient_product(gray, w, x - 2, y, part) + features::gradient_product(
        gray,
        w,
        x - 1,
        y,
        part,
    ) + features::gradient_product(gray, w, x, y, part) + features::gradient_product(
        gray,
        w,
        x + 1,
        y,
        part,
    ) + features::gradient_product(gray, w, x + 2, y, part)
}

proof fn lemma_row_of(gray: Seq<u8>, w: int, x: int, y: int, part: Part, j: int)
    requires
        0 <= j < 5,
    ensures
        features::window_sum(gray, w, x, y, part, 5 * j + 5) == features::window_sum(
            gray,
            w,
            x,
            y,
            part,
            5 * j,
        ) + row_of(gray, w, x, y - 2 + j, part),
{
    reveal_with_fuel(features::window_sum, 6);
    assert((5 * j) % 5 == 0 && (5 * j) / 5 == j);
    assert((5 * j + 1) % 5 == 1 && (5 * j + 1) / 5 == j);
    assert((5 * j + 2) % 5 == 2 && (5 * j + 2) / 5 == j);
    assert((5 * j + 3) % 5 == 3 && (5 * j + 3) / 5 == j);
    assert((5 * j + 4) % 5 == 4 && (5 * j + 4) / 5 == j);
}

proof fn lemma_rows(gray: Seq<u8>, w: int, x: int, y: int, part: Part)
    ensures
        features::tensor(gray, w, x, y, part) == row_of(gray, w, x, y - 2, part) + row_of(
            gray,
            w,
            x,
            y - 1,
            part,
        ) + row_of(gray, w, x, y, part) + row_of(gray, w, x, y + 1, part) + row_of(
            gray,
            w,
            x,
            y + 2,
            part,
        ),
{
    lemma_row_of(gray, w, x, y, part, 0);
    lemma_row_of(gray, w, x, y, part, 1);
    lemma_row_of(gray, w, x, y, part, 2);
    lemma_row_of(gray, w, x, y, part, 3);
    lemma_row_of(gray, w, x, y, part, 4);
}

proof fn lemma_transposed_tensor(
    a: Seq<u8>,
    b: Seq<u8>,
    w: int,
    h: int,
    x: int,
    y: int,
    part: Part,
)
    requires
        is_transposed(a, b, w, h),
        features::is_inner(w, h, x, y),
    ensures
        features::tensor(b, h, y, x, exchanged(part)) == features::tensor(a, w, x, y, part),
{
    lemma_rows(a, w, x, y, part);
    lemma_rows(b, h, y, x, exchanged(part));
    assert forall|i: int, j: int|
        -2 <= i <= 2 && -2 <= j <= 2 implies #[trigger] features::gradient_product(
        b,
        h,
        y + j,
        x + i,
        exchanged(part),
    ) == features::gradient_product(a, w, x + i, y + j, part) by {
        lemma_transposed_product(a, b, w, h, x + i, y + j, part);
    }
    lemma_column(a, b, w, h, x, y, part, -2);
    lemma_column(a, b, w, h, x, y, part, -1);
    lemma_column(a, b, w, h, x, y, part, 0);
    lemma_column(a, b, w, h, x, y, part, 1);
    lemma_column(a, b, w, h, x, y, part, 2);
}

/// Row `i` of the exchanged window is column `i` of the window.
proof fn lemma_column(
    a: Seq<u8>,
    b: Seq<u8>,
    w: int,
    h: int,
    x: int,
    y: int,
    part: Part,
    i: int,
)
    requires
        is_transposed(a, b, w, h),
        features::is_inner(w, h, x, y),
        -2 <= i <= 2,
    ensures
        row_of(b, h, y, x + i, exchanged(part)) == features::gradient_product(
            a,
            w,
            x + i,
            y - 2,
            part,
        ) + features::gradient_product(a, w, x + i, y - 1, part) + features::gradient_product(
            a,
            w,
            x + i,
            y,
            part,
        ) + features::gradient_product(a, w, x + i, y + 1, part) + features::gradient_product(
            a,
            w,
            x + i,
            y + 2,
            part,
        ),
{
    lemma_transposed_product(a, b, w, h, x + i, y - 2, part);
    lemma_transposed_product(a, b, w, h, x + i, y - 1, part);
    lemma_transposed_product(a, b, w, h, x + i, y, part);
    lemma_transposed_product(a, b, w, h, x + i, y + 1, part);
    lemma_transposed_product(a, b, w, h, x + i, y + 2, part);
}

proof fn lemma_commutes(a: Double, b: Double)
    ensures
        a * b == b * a,
        a + b == b + a,
{
    double::lemma_product(a, b);
    double::lemma_product(b, a);
    let (m, n) = (
        crate::magnitude::units(a.magnitude()),
        crate::magnitude::units(b.magnitude()),
    );
    assert(m * n == n * m) by (nonlinear_arith);
    double::lemma_product_unique(a, b, double::product(a, b), double::product(b, a));
    double::lemma_sum(a, b);
    double::lemma_sum(b, a);
    double::lemma_sum_unique(a, b, double::sum(a, b), double::sum(b, a));
}

/// A corner responds as strongly in a frame turned on its side: rows and columns count
/// alike.
pub proof fn law_corners_ignore_orientation(
    a: Seq<u8>,
    b: Seq<u8>,
    w: int,
    h: int,
    x: int,
    y: int,
)
    requires
        is_transposed(a, b, w, h),
        features::is_inner(w, h, x, y),
    ensures
        features::response_at(b, h, y, x) == features::response_at(a, w, x, y),
{
    lemma_transposed_tensor(a, b, w, h, x, y, Part::XX);
    lemma_transposed_tensor(a, b, w, h, x, y, Part::YY);
    lemma_transposed_tensor(a, b, w, h, x, y, Part::XY);
    lemma_commutes(
        shift::signed_whole(features::tensor(a, w, x, y, Part::XX)),
        shift::signed_whole(features::tensor(a, w, x, y, Part::YY)),
    );
}

/// The best feature of a cell is the strongest pixel that was looked at in it, and stronger
/// than nothing.
pub proof fn law_best_feature_is_the_strongest(gray: Seq<u8>, w: int, h: int, c: int, k: int)
    requires
        forall|j: int|
            0 <= j < k ==> !(#[trigger] features::lattice_response(gray, w, h, c, j)).nan(),
    ensures
        !features::best_of(gray, w, h, c, k).first.0.nan(),
        (Double { bits: 0 }).at_most(features::best_of(gray, w, h, c, k).first.0),
        forall|j: int|
            0 <= j < k ==> (#[trigger] features::lattice_response(gray, w, h, c, j)).at_most(
                features::best_of(gray, w, h, c, k).first.0,
            ),
    decreases k,
{
    if k > 0 {
        law_best_feature_is_the_strongest(gray, w, h, c, k - 1);
        assert(!features::lattice_response(gray, w, h, c, k - 1).nan());
    }
}

/// Two strong pixels of a cell are both kept where they are more than six pixels apart,
/// and the weaker one is dropped where they are not.
pub proof fn law_features_are_kept_apart(best: BestTwo, r: Double, x: int, y: int)
    requires
        !r.nan(),
        best.second.0.at_most(best.first.0),
        0 <= x <= usize::MAX,
        0 <= y <= usize::MAX,
    ensures
        ({
            let next = features::best_with(best, r, x, y);
            let apart = features::separation(best.first, x, y) > 6;
            &&& next.second.0.at_most(next.first.0)
            &&& best.first.0.less(r) ==> next.first == (r, [x as usize, y as usize]) && (if apart {
                next.second == best.first
            } else {
                next.second == best.second
            })
            &&& !best.first.0.less(r) && apart && best.second.0.less(r) ==> next.first
                == best.first && next.second == (r, [x as usize, y as usize])
            &&& !best.first.0.less(r) && !apart ==> next == best
            &&& !best.second.0.less(r) ==> next == best
        }),
{
}

/// Every strong feature is one of the list, with its response negated.
proof fn lemma_strong(list: Seq<Feature>, least: Double, n: int, i: int)
    requires
        0 <= n <= list.len(),
        0 <= i < features::strong_of(list, least, n).len(),
    ensures
        exists|k: int|
            0 <= k < n && least.less((#[trigger] list[k]).0) && features::strong_of(
                list,
                least,
                n,
            )[i] == (list[k].0.opposite(), list[k].1),
    decreases n,
{
    if n > 0 {
        let before = features::strong_of(list, least, n - 1);
        if i < before.len() {
            lemma_strong(list, least, n - 1, i);
            let k = choose|k: int|
                0 <= k < n - 1 && least.less((#[trigger] list[k]).0) && before[i] == (
                    list[k].0.opposite(),
                    list[k].1,
                );
            assert(least.less(list[k].0));
        } else {
            assert(least.less(list[n - 1].0));
        }
    }
}

/// The strongest features come first: of two corners that are kept, the earlier responds
/// no less than the later, and both respond more than the least that counts.
pub proof fn law_strongest_corners_come_first(
    list: Seq<Feature>,
    least: Double,
    cap: int,
    i: int,
    j: int,
)
    requires
        0 <= i < j < features::strongest(list, least, cap).len(),
        0 <= cap,
    ensures
        features::strongest(list, least, cap).len() <= cap,
        exists|a: int, b: int|
            0 <= a < list.len() && 0 <= b < list.len() && (#[trigger] list[a]).1
                == features::strongest(list, least, cap)[i] && (#[trigger] list[b]).1
                == features::strongest(list, least, cap)[j] && list[b].0.at_most(list[a].0)
                && least.less(list[b].0),
{
    let n = list.len() as int;
    let strong = features::strong_of(list, least, n);
    sorting::law_sorted(strong);
    let s = sorting::sorted(strong);
    assert forall|k: int| 0 <= k < strong.len() implies !(#[trigger] strong[k]).0.nan() by {
        lemma_strong(list, least, n, k);
        let a = choose|a: int|
            0 <= a < n && least.less((#[trigger] list[a]).0) && strong[k] == (
                list[a].0.opposite(),
                list[a].1,
            );
        double::lemma_opposite_value(list[a].0);
    }
    let a = lemma_origin(list, least, s, i);
    let b = lemma_origin(list, least, s, j);
    assert(!s[j].0.less(s[i].0));
    double::lemma_opposite_value(list[a].0);
    double::lemma_opposite_value(list[b].0);
    assert(list[a].1 == features::strongest(list, least, cap)[i]);
    assert(list[b].1 == features::strongest(list, least, cap)[j]);
}

proof fn lemma_origin(list: Seq<Feature>, least: Double, s: Seq<Feature>, i: int) -> (a: int)
    requires
        s == sorting::sorted(features::strong_of(list, least, list.len() as int)),
        0 <= i < s.len(),
    ensures
        0 <= a < list.len(),
        least.less(list[a].0),
        s[i] == (list[a].0.opposite(), list[a].1),
{
    let n = list.len() as int;
    let strong = features::strong_of(list, least, n);
    sorting::law_sorted(strong);
    vstd::seq_lib::to_multiset_contains(s, s[i]);
    vstd::seq_lib::to_multiset_contains(strong, s[i]);
    assert(s.contains(s[i]));
    let k = choose|k: int| 0 <= k < strong.len() && strong[k] == s[i];
    lemma_strong(list, least, n, k);
    choose|a: int|
        0 <= a < n && least.less((#[trigger] list[a]).0) && strong[k] == (
            list[a].0.opposite(),
            list[a].1,
        )
}

} // verus!

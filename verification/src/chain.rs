//! The keyframe chain: wall-to-keyframe homographies composed outward from the
//! anchor, and where the keyframes look at on the wall.
use vstd::prelude::*;

use crate::distortion;
use crate::double::Double;
use crate::edge::Point;
use crate::homography;
use crate::homography::Homography;
use crate::linalg;
use crate::linalg::{mat3_inv, mat3_mul, Mat3};
use crate::pan::PanError;

verus! {

/// W[i], which maps wall mm to px of keyframe i: the anchor's own homography at
/// `ka`, every other one chained from its neighbour on the anchor's side.
/// `links[i]` maps px of keyframe i to px of keyframe i + 1.
pub open spec fn chain_at(links: Seq<Mat3>, anchor: Mat3, ka: int, i: int) -> Mat3
    decreases
            if i >= ka {
                i - ka
            } else {
                ka - i
            },
{
    if i == ka {
        anchor
    } else if i > ka {
        linalg::mat_product(links[i - 1], chain_at(links, anchor, ka, i - 1))
    } else {
        linalg::mat_product(
            linalg::adjugate_inverse(links[i]),
            chain_at(links, anchor, ka, i + 1),
        )
    }
}

/// A link in front of the anchor cannot be inverted.
pub open spec fn is_broken(links: Seq<Mat3>, ka: int) -> bool {
    exists|i: int| 0 <= i < ka && linalg::is_singular(#[trigger] links[i])
}

/// Chain the links outward from the anchor.
pub fn build_chain(links: &Vec<Mat3>, anchor: &Mat3, ka: usize) -> (chain: Result<
    Vec<Mat3>,
    PanError,
>)
    requires
        ka <= links@.len(),
        links@.len() < usize::MAX,
    ensures
        chain is Err <==> is_broken(links@, ka as int),
        chain matches Err(e) ==> e == PanError::DegenerateExtent,
        chain matches Ok(w) ==> w@ == Seq::new(
            links@.len() + 1,
            |i: int| chain_at(links@, *anchor, ka as int, i),
        ),
{
    let n: usize = links.len() + 1;
    let zero: Double = Double::from_bits(0);
    let mut w: Vec<Mat3> = vec![[zero; 9]; n];
    w.set(ka, *anchor);
    let mut i: usize = ka + 1;
    while i < n
        invariant
            n == links@.len() + 1,
            w@.len() == n,
            ka < i <= n,
            forall|k: int|
                ka <= k < i ==> #[trigger] w@[k] == chain_at(links@, *anchor, ka as int, k),
        decreases n - i,
    {
        let m: Mat3 = mat3_mul(&links[i - 1], &w[i - 1]);
        w.set(i, m);
        i = i + 1;
    }
    let mut j: usize = ka;
    while j > 0
        invariant
            n == links@.len() + 1,
            w@.len() == n,
            j <= ka < n,
            forall|k: int|
                j <= k < n ==> #[trigger] w@[k] == chain_at(links@, *anchor, ka as int, k),
            forall|k: int| j <= k < ka ==> !linalg::is_singular(#[trigger] links@[k]),
        decreases j,
    {
        j = j - 1;
        match mat3_inv(&links[j]) {
            None => {
                return Err(PanError::DegenerateExtent);
            },
            Some(inv) => {
                let m: Mat3 = mat3_mul(&inv, &w[j + 1]);
                w.set(j, m);
            },
        }
    }
    assert(w@ =~= Seq::new(
        links@.len() + 1,
        |i: int| chain_at(links@, *anchor, ka as int, i),
    ));
    Ok(w)
}

/// A link carries the chain across: where it is not broken, keyframe `i + 1`
/// behind the anchor is keyframe `i` followed by link `i`, and keyframe `i` in
/// front of it is keyframe `i + 1` followed by the inverse of link `i`. The
/// anchor keeps its own homography.
pub proof fn law_chain_follows_links(links: Seq<Mat3>, anchor: Mat3, ka: int, i: int)
    requires
        0 <= ka <= links.len(),
        0 <= i < links.len(),
    ensures
        chain_at(links, anchor, ka, ka) == anchor,
        i >= ka ==> chain_at(links, anchor, ka, i + 1) == linalg::mat_product(
            links[i],
            chain_at(links, anchor, ka, i),
        ),
        i < ka ==> chain_at(links, anchor, ka, i) == linalg::mat_product(
            linalg::adjugate_inverse(links[i]),
            chain_at(links, anchor, ka, i + 1),
        ),
{
}

/// The wall position that the centre of a keyframe looks at.
pub open spec fn centre_on_wall(w: Mat3, width: int, height: int) -> Option<(Double, Double)> {
    match linalg::inverse_of(w) {
        None => None,
        Some(inv) => homography::image_of(
            inv,
            distortion::half(width),
            distortion::half(height),
        ),
    }
}

/// The wall position that the centre of a keyframe looks at.
pub fn keyframe_centre(w: &Mat3, cx: &Double, cy: &Double) -> (p: Option<(Double, Double)>)
    ensures
        p == (match linalg::inverse_of(*w) {
            None => None::<(Double, Double)>,
            Some(inv) => homography::image_of(inv, *cx, *cy),
        }),
{
    match mat3_inv(w) {
        None => None,
        Some(inv) => Homography(inv).apply(*cx, *cy),
    }
}

/// Wall positions that the keyframes look at.
pub fn wall_centres(chain: &Vec<Mat3>, width: usize, height: usize) -> (centres: Result<
    Vec<Point>,
    PanError,
>)
    requires
        width < 0x20_0000_0000_0000,
        height < 0x20_0000_0000_0000,
    ensures
        centres is Err <==> exists|i: int|
            0 <= i < chain@.len() && centre_on_wall(
                #[trigger] chain@[i],
                width as int,
                height as int,
            ) is None,
        centres matches Err(e) ==> e == PanError::DegenerateExtent,
        centres matches Ok(c) ==> c@.len() == chain@.len() && forall|i: int|
            0 <= i < c@.len() ==> centre_on_wall(chain@[i], width as int, height as int) == Some(
                ((#[trigger] c@[i])[0], c@[i][1]),
            ),
{
    let two: Double = Double::from_bits(distortion::TWO);
    let cx: Double = Double::from_count(width as u64) / two;
    let cy: Double = Double::from_count(height as u64) / two;
    let mut centres: Vec<Point> = Vec::new();
    let mut i: usize = 0;
    while i < chain.len()
        invariant
            cx == distortion::half(width as int),
            cy == distortion::half(height as int),
            i <= chain@.len(),
            centres@.len() == i,
            forall|k: int|
                0 <= k < i ==> centre_on_wall(chain@[k], width as int, height as int) == Some(
                    ((#[trigger] centres@[k])[0], centres@[k][1]),
                ),
        decreases chain@.len() - i,
    {
        match keyframe_centre(&chain[i], &cx, &cy) {
            None => {
                assert(centre_on_wall(chain@[i as int], width as int, height as int) is None);
                return Err(PanError::DegenerateExtent);
            },
            Some((x, y)) => {
                centres.push([x, y]);
            },
        }
        i = i + 1;
    }
    proof {
        assert forall|k: int| 0 <= k < chain@.len() implies centre_on_wall(
            #[trigger] chain@[k],
            width as int,
            height as int,
        ) is Some by {
            assert(centres@[k] == centres@[k]);
        }
    }
    Ok(centres)
}

/// Distance of two wall positions.
pub open spec fn gap(p: Point, q: Point) -> Double {
    ((p[0] - q[0]) * (p[0] - q[0]) + (p[1] - q[1]) * (p[1] - q[1])).root()
}

/// Distance of two wall positions.
pub fn distance(p: &Point, q: &Point) -> (d: Double)
    ensures
        d == gap(*p, *q),
{
    let dx: Double = p[0] - q[0];
    let dy: Double = p[1] - q[1];
    (dx * dx + dy * dy).sqrt()
}

/// Signed along-chain distance of keyframe `i` from the anchor.
pub open spec fn along_chain(centres: Seq<Point>, ka: int, i: int) -> Double
    decreases
            if i >= ka {
                i - ka
            } else {
                ka - i
            },
{
    if i == ka {
        Double { bits: 0 }
    } else if i > ka {
        along_chain(centres, ka, i - 1) + gap(centres[i], centres[i - 1])
    } else {
        along_chain(centres, ka, i + 1) - gap(centres[i], centres[i + 1])
    }
}

/// Signed along-chain distances from the anchor keyframe.
pub open spec fn distances_from(centres: Seq<Point>, ka: int) -> Seq<Double> {
    Seq::new(centres.len(), |i: int| along_chain(centres, ka, i))
}

/// Signed along-chain distances from the anchor keyframe.
pub fn chain_distances(centres: &Vec<Point>, ka: usize) -> (s: Vec<Double>)
    requires
        ka < centres@.len(),
    ensures
        s@ == distances_from(centres@, ka as int),
{
    let n: usize = centres.len();
    let mut s: Vec<Double> = vec![Double::from_bits(0); n];
    let mut i: usize = ka + 1;
    while i < n
        invariant
            n == centres@.len(),
            s@.len() == n,
            ka < i <= n,
            forall|k: int| ka <= k < i ==> #[trigger] s@[k] == along_chain(centres@, ka as int, k),
        decreases n - i,
    {
        let d: Double = s[i - 1] + distance(&centres[i], &centres[i - 1]);
        s.set(i, d);
        i = i + 1;
    }
    let mut j: usize = ka;
    while j > 0
        invariant
            n == centres@.len(),
            s@.len() == n,
            j <= ka < n,
            forall|k: int| j <= k < n ==> #[trigger] s@[k] == along_chain(centres@, ka as int, k),
        decreases j,
    {
        j = j - 1;
        let d: Double = s[j + 1] - distance(&centres[j], &centres[j + 1]);
        s.set(j, d);
    }
    assert(s@ =~= distances_from(centres@, ka as int));
    s
}

} // verus!

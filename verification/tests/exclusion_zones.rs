use geometry_core::double::Double;
use geometry_core::exclusion::{exclusion_zone, exclusion_zones, exclusion_zones_flat, RectMm};

fn d(v: f64) -> Double {
    Double::from_bits(v.to_bits())
}

fn f(v: Double) -> f64 {
    f64::from_bits(v.bits)
}

fn ds(v: &[f64]) -> Vec<Double> {
    v.iter().map(|x| d(*x)).collect()
}

fn rect(left: f64, top: f64, right: f64, bottom: f64) -> RectMm {
    RectMm::new(d(left), d(top), d(right), d(bottom))
}

fn flat(outlines: &[f64], buffers: &[f64], wall: &[f64]) -> Result<Vec<f64>, &'static str> {
    exclusion_zones_flat(&ds(outlines), &ds(buffers), &ds(wall))
        .map(|zones| zones.into_iter().map(f).collect())
}

/// A generous wall so unclipped tests exercise pure inflation: 6000 mm wide, top
/// at -500 mm, Floor Line at 2700 mm.
fn wall() -> RectMm {
    rect(0.0, -500.0, 6000.0, 2700.0)
}

#[test]
fn window_buffer_inflates_every_side_by_600mm() {
    let outline = rect(1000.0, 800.0, 1600.0, 2000.0);
    let zone = exclusion_zone(&outline, d(600.0), &wall()).expect("inside the wall");
    assert_eq!(zone, rect(400.0, 200.0, 2200.0, 2600.0));
}

#[test]
fn zero_buffer_zone_is_exactly_the_outline() {
    let outline = rect(2500.0, 100.0, 2560.0, 2400.0);
    let zone = exclusion_zone(&outline, d(0.0), &wall()).expect("inside the wall");
    assert_eq!(zone, outline);
}

#[test]
fn overlapping_zones_stay_separate_rects() {
    // Two windows 400 mm apart: their 600 mm zones overlap by 800 mm. One zone
    // per Obstruction, same order, no union.
    let outlines = [rect(1000.0, 500.0, 1500.0, 1500.0), rect(1900.0, 500.0, 2400.0, 1500.0)];
    let zones =
        exclusion_zones(&outlines, &ds(&[600.0, 600.0]), &wall()).expect("both inside");
    assert_eq!(zones.len(), 2);
    assert_eq!(zones[0], rect(400.0, -100.0, 2100.0, 2100.0));
    assert_eq!(zones[1], rect(1300.0, -100.0, 3000.0, 2100.0));
    // They do overlap, and both are still reported whole.
    assert!(f(zones[0].right) > f(zones[1].left));
}

#[test]
fn zone_is_clipped_by_the_wall_edges() {
    let outline = rect(100.0, -300.0, 1000.0, 1800.0);
    let zone = exclusion_zone(&outline, d(600.0), &wall()).expect("inside the wall");
    assert_eq!(zone, rect(0.0, -500.0, 1600.0, 2400.0));
}

#[test]
fn buffer_past_the_floor_line_is_cut_at_the_floor() {
    let outline = rect(3000.0, 1900.0, 3900.0, 2500.0);
    let zone = exclusion_zone(&outline, d(600.0), &wall()).expect("inside the wall");
    assert_eq!(f(zone.bottom), 2700.0, "zone must stop at the Floor Line");
    assert_eq!(zone, rect(2400.0, 1300.0, 4500.0, 2700.0));
}

#[test]
fn outline_entirely_outside_the_wall_yields_none() {
    let outline = rect(7000.0, 100.0, 7500.0, 600.0);
    assert_eq!(exclusion_zone(&outline, d(0.0), &wall()), None);
    // A large buffer that reaches back over the wall still produces a real
    // overlapping zone; only true non-overlap is None.
    let zone = exclusion_zone(&outline, d(1200.0), &wall()).expect("buffer reaches the wall");
    assert_eq!(zone, rect(5800.0, -500.0, 6000.0, 1800.0));
}

#[test]
fn batch_preserves_order_and_refuses_when_any_zone_is_empty() {
    let outlines = [
        rect(100.0, 100.0, 200.0, 200.0),
        rect(9000.0, 100.0, 9100.0, 200.0), // outside the wall
    ];
    assert_eq!(exclusion_zones(&outlines, &ds(&[0.0, 0.0]), &wall()), None);
    let inside = [outlines[0]];
    let zones = exclusion_zones(&inside, &ds(&[50.0]), &wall()).expect("inside");
    assert_eq!(zones, vec![rect(50.0, 50.0, 250.0, 250.0)]);
}

#[test]
fn flat_form_computes_and_flattens_in_order() {
    // A window (600 mm buffer) and a pipe (0 mm): the window's zone is clipped at
    // the Floor Line (y = 2700).
    let outlines = [
        1000.0, 1900.0, 1600.0, 2500.0, // window, buffer runs past the floor
        2500.0, 100.0, 2560.0, 2400.0, // pipe
    ];
    let zones = flat(&outlines, &[600.0, 0.0], &[0.0, -500.0, 6000.0, 2700.0]).expect("valid input");
    assert_eq!(
        zones,
        vec![
            400.0, 1300.0, 2200.0, 2700.0, // clipped at the Floor Line
            2500.0, 100.0, 2560.0, 2400.0, // zero buffer: zone == outline
        ],
    );
    // No obstructions is a valid state (a blank wall), not an error.
    assert_eq!(flat(&[], &[], &[0.0, 0.0, 100.0, 100.0]).expect("empty ok"), Vec::<f64>::new());
}

#[test]
fn flat_form_refuses_malformed_input() {
    let wall = [0.0, 0.0, 1000.0, 1000.0];
    let outline = [100.0, 100.0, 200.0, 200.0];
    // Length mismatch between outlines and buffers.
    assert!(flat(&outline, &[0.0, 0.0], &wall).is_err());
    assert!(flat(&outline[..3], &[0.0], &wall).is_err());
    // Wall must be [left, top, right, floor], finite, with area.
    assert!(flat(&outline, &[0.0], &[0.0, 0.0, 1000.0]).is_err());
    assert!(flat(&outline, &[0.0], &[0.0, 0.0, 0.0, 1000.0]).is_err());
    assert!(flat(&outline, &[0.0], &[f64::NAN, 0.0, 1000.0, 1000.0]).is_err());
    // Degenerate / non-finite outlines and negative buffers.
    assert!(flat(&[100.0, 100.0, 100.0, 200.0], &[0.0], &wall).is_err());
    assert!(flat(&[100.0, f64::NAN, 200.0, 200.0], &[0.0], &wall).is_err());
    assert!(flat(&outline, &[-1.0], &wall).is_err());
    // An outline entirely outside the wall is a caller bug, not a zone.
    assert!(flat(&[2000.0, 100.0, 2100.0, 200.0], &[0.0], &wall).is_err());
}

#[test]
fn empty_and_finite_checks() {
    assert!(rect(0.0, 0.0, 0.0, 10.0).is_empty());
    assert!(rect(0.0, 0.0, 10.0, 0.0).is_empty());
    assert!(rect(10.0, 0.0, 0.0, 10.0).is_empty());
    assert!(!rect(0.0, 0.0, 1.0, 1.0).is_empty());
    assert!(!rect(0.0, f64::NAN, 1.0, 1.0).is_finite());
    assert!(!rect(f64::INFINITY, 0.0, 1.0, 1.0).is_finite());
}

#[test]
fn each_refusal_says_what_is_wrong() {
    let wall = [0.0, 0.0, 1000.0, 1000.0];
    let outline = [100.0, 100.0, 200.0, 200.0];
    assert_eq!(
        flat(&outline, &[], &wall),
        Err("outlines_mm must hold 4 values per obstruction and match buffers_mm")
    );
    assert_eq!(flat(&outline, &[0.0], &wall[..3]), Err("wall_mm must be [left, top, right, floor]"));
    assert_eq!(
        flat(&outline, &[0.0], &[5.0, 0.0, 5.0, 9.0]),
        Err("wall bounds are degenerate or non-finite")
    );
    assert_eq!(
        flat(&[1.0, 1.0, 1.0, 2.0], &[0.0], &wall),
        Err("an obstruction outline is degenerate or non-finite")
    );
    assert_eq!(
        flat(&outline, &[f64::INFINITY], &wall),
        Err("buffers must be finite and non-negative")
    );
    assert_eq!(
        flat(&[2000.0, 1.0, 2001.0, 2.0], &[0.0], &wall),
        Err("an obstruction outline lies entirely outside the wall bounds")
    );
}

#[test]
fn a_larger_buffer_gives_a_larger_zone_on_the_wall() {
    let outline = rect(1000.0, 800.0, 1600.0, 2000.0);
    let mut last = exclusion_zone(&outline, d(0.0), &wall()).unwrap();
    for buffer in [1.0, 250.0, 600.0, 5000.0] {
        let zone = exclusion_zone(&outline, d(buffer), &wall()).unwrap();
        assert!(f(zone.left) <= f(last.left) && f(zone.top) <= f(last.top));
        assert!(f(zone.right) >= f(last.right) && f(zone.bottom) >= f(last.bottom));
        assert!(f(zone.left) >= 0.0 && f(zone.bottom) <= 2700.0);
        last = zone;
    }
    assert_eq!(last, wall());
}

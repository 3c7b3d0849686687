# geometry-core

The geometry behind measuring a wall from photographs: two printed Reference
Markers give scale and plane, a captured frame or a recorded pan becomes a
fronto-parallel metric image of the wall, and an Error Bound says how far a
distance read from it can be off. The library is written in Verus: every function
states what it computes, and the statement is proved.

## Numbers

Lengths, pixels and angles are doubles. `double::Double` holds one by its bit
pattern; sums, products, quotients and square roots are computed on integers and
proved to be the correctly rounded results, so that contracts can say exactly what
comes out. Only transcendental functions (`sin`, `cos`, `acos`, `atan2`, `pow`,
`hypot`) are not computed here: functions that need one take it as an argument.

## Layout

- `src/double.rs`, `magnitude.rs`, `arith.rs`, `order.rs`, `integral.rs`,
  `single.rs`: the arithmetic of doubles; `rounding.rs`: how far its results are from
  the exact ones.
- `marker.rs`, `pdf.rs`, `text.rs`: the marker dictionary and the printable PDF.
- `frame.rs`, `analysis.rs`: the live overlay, thumbnails and sharpness.
- `threshold.rs`, `components.rs`, `contour.rs`, `quad.rs`, `decode.rs`, `edge.rs`,
  `blur.rs`, `detect.rs`: marker detection.
- `linalg.rs`, `eigen.rs`, `solve.rs`, `dlt.rs`, `ransac.rs`, `lm.rs`,
  `least_squares.rs`, `refine.rs`, `homography.rs`, `estimate.rs`: homography
  estimation; `fit_error.rs`, `fit_law.rs`: what rounding can cost a refinement.
- `rectify.rs`, `render.rs`, `still.rs`, `image.rs`: the still path.
- `pan.rs`, `coach.rs`, `shift.rs`, `overlap.rs`, `capture.rs`: keyframe selection
  and live coaching while a pan is recorded.
- `features.rs`, `ncc.rs`, `links.rs`, `chain.rs`, `passes.rs`, `panorama.rs`:
  tracking and chaining of keyframes.
- `calib.rs`, `bundle.rs`, `pose.rs`, `distortion.rs`: self-calibration;
  `round_trip.rs`: distorting undoes undistorting.
- `closure.rs`, `loop_closure.rs`, `bound.rs`, `wall.rs`: loop closure, the Error
  Bound and the stitched wall.
- `vision.rs`, `finish.rs`: what the pan pipeline asks for, and the library's own
  answers.
- `exclusion.rs`: Exclusion Zones around traced Obstructions.
- `synthetic.rs`, `lcg.rs`: scenes with known ground truth.

`app/` writes the PDF, exports the library to JavaScript and supplies the
transcendental functions. `tests/pipeline.rs` records and coaches small rendered pans
with the library itself, runs the pipeline on long ones with native floating-point
kernels behind the traits of `vision.rs`, and checks that the library agrees with
them bit for bit.

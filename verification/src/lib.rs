//! Wallstimator geometry core.

pub mod analysis;
pub mod arith;
pub mod blur;
pub mod bound;
pub mod bundle;
pub mod calib;
pub mod capture;
pub mod chain;
pub mod closure;
pub mod coach;
pub mod components;
pub mod contour;
pub mod decode;
pub mod detect;
pub mod distortion;
pub mod dlt;
pub mod double;
pub mod edge;
pub mod eigen;
pub mod estimate;
pub mod exclusion;
pub mod features;
pub mod finish;
pub mod fit_error;
pub mod fit_law;
pub mod frame;
pub mod homography;
pub mod image;
pub mod integral;
pub mod lcg;
pub mod least_squares;
pub mod linalg;
pub mod links;
pub mod lm;
pub mod loop_closure;
pub mod magnitude;
pub mod marker;
pub mod ncc;
pub mod order;
pub mod overlap;
pub mod pan;
pub mod panorama;
pub mod passes;
pub mod pdf;
pub mod plane;
pub mod pose;
pub mod quad;
pub mod ransac;
pub mod rectify;
pub mod refine;
pub mod render;
pub mod round_trip;
pub mod rounding;
pub mod sample;
pub mod shift;
pub mod single;
pub mod solve;
pub mod sorting;
pub mod still;
pub mod synthetic;
pub mod text;
pub mod threshold;
pub mod vision;
pub mod wall;
pub mod analysis_law;
pub mod bound_law;
pub mod closure_law;
pub mod coach_law;
pub mod detect_law;
pub mod edge_law;
pub mod estimate_law;
pub mod extent_law;
pub mod features_law;
pub mod lens_law;
pub mod links_law;
pub mod ordinary;
pub mod pan_law;
pub mod pdf_law;
pub mod quad_law;
pub mod render_law;
pub mod sample_law;
pub mod significand;
pub mod track_law;
pub mod wall_law;

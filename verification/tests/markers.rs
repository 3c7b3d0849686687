use geometry_core::decode::{canonical_corners, decode_grid};
use geometry_core::marker::{
    marker_cells, marker_pattern, marker_side_mm, marker_word, rotate_word_ccw, ruler_nominal_mm,
    CELLS_PER_SIDE, DATA_CELLS, LEFT_MARKER_ID, MARKER_SIDE_MM, QUIET_ZONE_CELLS, RIGHT_MARKER_ID,
    RULER_LENGTH_MM,
};

/// The dictionary packs bits row-major, MSB first, 1 = white.
fn word_from_opencv_bytes(bytes: [u8; 2]) -> u16 {
    u16::from_be_bytes(bytes)
}

#[test]
fn words_match_opencv_dict_4x4_50() {
    assert_eq!(marker_word(LEFT_MARKER_ID), Some(word_from_opencv_bytes([181, 50])));
    assert_eq!(marker_word(RIGHT_MARKER_ID), Some(word_from_opencv_bytes([15, 154])));
    assert_eq!(marker_word(2), None, "only two Reference Markers exist");
}

#[test]
fn rotations_match_opencv_rotation_entries() {
    // Successive entries are 90 degrees counter-clockwise from the previous one.
    let expected: [(u16, [[u8; 2]; 3]); 2] = [
        (0, [[235, 72], [76, 173], [18, 215]]),
        (1, [[101, 71], [89, 240], [226, 166]]),
    ];
    for (id, rotations) in expected {
        let mut w = marker_word(id).unwrap();
        for bytes in rotations {
            w = rotate_word_ccw(w);
            assert_eq!(w, word_from_opencv_bytes(bytes), "marker {id} rotation mismatch");
        }
        assert_eq!(
            rotate_word_ccw(w),
            marker_word(id).unwrap(),
            "four rotations must return to the canonical word"
        );
    }
}

#[test]
fn markers_are_distinct_under_all_rotations() {
    let mut a = marker_word(LEFT_MARKER_ID).unwrap();
    for _ in 0..4 {
        let mut b = marker_word(RIGHT_MARKER_ID).unwrap();
        for _ in 0..4 {
            assert_ne!(a, b);
            b = rotate_word_ccw(b);
        }
        a = rotate_word_ccw(a);
    }
}

#[test]
fn cells_have_black_border_and_word_interior() {
    for id in [LEFT_MARKER_ID, RIGHT_MARKER_ID] {
        let cells = marker_cells(id).unwrap();
        let word = marker_word(id).unwrap();
        for i in 0..CELLS_PER_SIDE {
            assert!(cells[0][i] && cells[CELLS_PER_SIDE - 1][i], "top/bottom border black");
            assert!(cells[i][0] && cells[i][CELLS_PER_SIDE - 1], "left/right border black");
        }
        for r in 0..DATA_CELLS {
            for c in 0..DATA_CELLS {
                let white = (word >> (15 - (r * DATA_CELLS + c))) & 1 == 1;
                assert_eq!(cells[r + 1][c + 1], !white, "marker {id} cell ({r},{c})");
            }
        }
    }
    assert!(marker_cells(2).is_none());
}

#[test]
fn print_geometry_is_sane() {
    // Quiet zone per ArUco convention, and marker + quiet zone must fit an A4
    // page width (210 mm).
    assert!(QUIET_ZONE_CELLS >= 1);
    let side = MARKER_SIDE_MM as f64;
    let cell_mm = side / CELLS_PER_SIDE as f64;
    let total = side + 2.0 * cell_mm * QUIET_ZONE_CELLS as f64;
    assert!(total <= 210.0, "marker + quiet zone exceeds A4 width: {total} mm");
    assert!(RULER_LENGTH_MM as f64 >= 200.0);
    assert!(RULER_LENGTH_MM as f64 <= 210.0, "ruler strip must fit A4 width");
}

#[test]
fn nominal_lengths_are_published() {
    assert_eq!(marker_side_mm(), 150);
    assert_eq!(ruler_nominal_mm(), 200);
}

#[test]
fn pattern_is_the_row_major_cell_grid() {
    let pattern = marker_pattern(LEFT_MARKER_ID).unwrap();
    let expected: [u8; 36] = [
        1, 1, 1, 1, 1, 1, //
        1, 0, 1, 0, 0, 1, //
        1, 1, 0, 1, 0, 1, //
        1, 1, 1, 0, 0, 1, //
        1, 1, 1, 0, 1, 1, //
        1, 1, 1, 1, 1, 1,
    ];
    assert_eq!(pattern, expected.to_vec());
    assert_eq!(marker_pattern(7), None);
}

/// The white cells of a grid turned a quarter clockwise.
fn turned(grid: &[[bool; 6]; 6]) -> [[bool; 6]; 6] {
    let mut out = [[false; 6]; 6];
    for r in 0..6 {
        for c in 0..6 {
            out[c][5 - r] = grid[r][c];
        }
    }
    out
}

#[test]
fn every_printed_rotation_decodes_to_its_id() {
    for id in [LEFT_MARKER_ID, RIGHT_MARKER_ID] {
        let mut white = marker_cells(id).unwrap();
        for row in white.iter_mut() {
            for cell in row.iter_mut() {
                *cell = !*cell;
            }
        }
        let mut seen: Vec<usize> = Vec::new();
        for _ in 0..4 {
            let (got, turns) = decode_grid(&white).expect("a printed marker decodes");
            assert_eq!(got, id);
            seen.push(turns);
            white = turned(&white);
        }
        seen.sort();
        assert_eq!(seen, vec![0, 1, 2, 3]);
    }
}

#[test]
fn white_border_or_foreign_word_does_not_decode() {
    let mut white = [[false; 6]; 6];
    assert_eq!(decode_grid(&white), None, "an all-black square is no marker");
    let cells = marker_cells(LEFT_MARKER_ID).unwrap();
    for r in 0..6 {
        for c in 0..6 {
            white[r][c] = !cells[r][c];
        }
    }
    assert_eq!(decode_grid(&white), Some((LEFT_MARKER_ID, 0)));
    white[0][3] = true;
    assert_eq!(decode_grid(&white), None, "the border must be black");
}

#[test]
fn canonical_corners_start_at_the_printed_top_left() {
    assert_eq!(canonical_corners(&['a', 'b', 'c', 'd'], 0), ['a', 'b', 'c', 'd']);
    let mut starts: Vec<char> = (0..4).map(|t| canonical_corners(&['a', 'b', 'c', 'd'], t)[0]).collect();
    starts.sort();
    assert_eq!(starts, vec!['a', 'b', 'c', 'd']);
}

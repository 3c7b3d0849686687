//! Decoding of a sampled 6x6 cell grid against the marker dictionary, in all
//! four rotations.
use vstd::prelude::*;

use crate::marker;
use crate::marker::{marker_word, rotate_word_ccw, CellGrid, CELLS_PER_SIDE, DATA_CELLS};
use crate::marker::{LEFT_MARKER_ID, LEFT_WORD, RIGHT_MARKER_ID, RIGHT_WORD};

verus! {

/// Where the cell in row `r`, column `c` came from, `j` quarter turns
/// counter-clockwise ago.
pub open spec fn turned_from(j: int, r: int, c: int) -> (int, int) {
    if j == 0 {
        (r, c)
    } else if j == 1 {
        (c, 3 - r)
    } else if j == 2 {
        (3 - r, 3 - c)
    } else {
        (3 - c, r)
    }
}

/// Whether a data cell (row, column) of a sampled grid is white.
pub open spec fn payload(white: CellGrid, cell: (int, int)) -> bool {
    white[cell.0 + 1][cell.1 + 1]
}

/// The border ring of a sampled grid is entirely black.
pub open spec fn border_is_black(white: CellGrid) -> bool {
    forall|r: int, c: int| #![trigger white[r][c]] marker::is_border_cell(r, c) ==> !white[r][c]
}

/// The cell in row `r`, column `c` of a sampled grid that was turned `j`
/// quarter turns counter-clockwise is the cell that marker `id` prints there.
pub open spec fn cell_agrees(white: CellGrid, id: u16, j: int, r: int, c: int) -> bool {
    marker::white_at(marker::word_of(id)->0, r, c) == payload(white, turned_from(j, r, c))
}

/// The data cells of a sampled grid, turned `j` quarter turns
/// counter-clockwise, are the printed data cells of marker `id`.
pub open spec fn shows_marker(white: CellGrid, id: u16, j: int) -> bool {
    &&& marker::word_of(id) is Some
    &&& 0 <= j < 4
    &&& forall|r: int, c: int|
        marker::is_data_cell(r, c) ==> #[trigger] cell_agrees(white, id, j, r, c)
}

/// What a sampled grid decodes to: the marker ID, and the number of quarter
/// turns counter-clockwise that bring the sample to print orientation.
pub open spec fn decodes_to(white: CellGrid, id: u16, j: int) -> bool {
    border_is_black(white) && shows_marker(white, id, j)
}

proof fn lemma_word_cells()
    ensures
        forall|r: int, c: int|
            #![trigger marker::white_at(LEFT_WORD, r, c)]
            marker::is_data_cell(r, c) ==> marker::white_at(LEFT_WORD, r, c) == (seq![
                true, false, true, true,
                false, true, false, true,
                false, false, true, true,
                false, false, true, false])[4 * r + c],
        forall|r: int, c: int|
            #![trigger marker::white_at(RIGHT_WORD, r, c)]
            marker::is_data_cell(r, c) ==> marker::white_at(RIGHT_WORD, r, c) == (seq![
                false, false, false, false,
                true, true, true, true,
                true, false, false, true,
                true, false, true, false])[4 * r + c],
{
    assert(marker::bit_at(0xB532, 15) && !marker::bit_at(0xB532, 14)
        && marker::bit_at(0xB532, 13) && marker::bit_at(0xB532, 12)
        && !marker::bit_at(0xB532, 11) && marker::bit_at(0xB532, 10)
        && !marker::bit_at(0xB532, 9) && marker::bit_at(0xB532, 8) && !marker::bit_at(0xB532, 7)
        && !marker::bit_at(0xB532, 6) && marker::bit_at(0xB532, 5) && marker::bit_at(0xB532, 4)
        && !marker::bit_at(0xB532, 3) && !marker::bit_at(0xB532, 2) && marker::bit_at(0xB532, 1)
        && !marker::bit_at(0xB532, 0) && !marker::bit_at(0x0F9A, 15)
        && !marker::bit_at(0x0F9A, 14) && !marker::bit_at(0x0F9A, 13)
        && !marker::bit_at(0x0F9A, 12) && marker::bit_at(0x0F9A, 11)
        && marker::bit_at(0x0F9A, 10) && marker::bit_at(0x0F9A, 9) && marker::bit_at(0x0F9A, 8)
        && marker::bit_at(0x0F9A, 7) && !marker::bit_at(0x0F9A, 6) && !marker::bit_at(0x0F9A, 5)
        && marker::bit_at(0x0F9A, 4) && marker::bit_at(0x0F9A, 3) && !marker::bit_at(0x0F9A, 2)
        && marker::bit_at(0x0F9A, 1) && !marker::bit_at(0x0F9A, 0)) by (bit_vector);
}

/// A grid shows at most one marker, and in at most one rotation: the markers
/// stay distinct under all rotations, and neither has a rotational symmetry.
pub proof fn law_decoding_is_unique(white: CellGrid, id1: u16, j1: int, id2: u16, j2: int)
    requires
        shows_marker(white, id1, j1),
        shows_marker(white, id2, j2),
    ensures
        id1 == id2,
        j1 == j2,
{
    lemma_word_cells();
    assert(j1 == 0 || j1 == 1 || j1 == 2 || j1 == 3);
    assert(j2 == 0 || j2 == 1 || j2 == 2 || j2 == 3);
    assert(cell_agrees(white, id1, j1, 0, 0) && cell_agrees(white, id1, j1, 0, 1)
        && cell_agrees(white, id1, j1, 0, 2) && cell_agrees(white, id1, j1, 0, 3));
    assert(cell_agrees(white, id1, j1, 1, 0) && cell_agrees(white, id1, j1, 1, 1)
        && cell_agrees(white, id1, j1, 1, 2) && cell_agrees(white, id1, j1, 1, 3));
    assert(cell_agrees(white, id1, j1, 2, 0) && cell_agrees(white, id1, j1, 2, 1)
        && cell_agrees(white, id1, j1, 2, 2) && cell_agrees(white, id1, j1, 2, 3));
    assert(cell_agrees(white, id1, j1, 3, 0) && cell_agrees(white, id1, j1, 3, 1)
        && cell_agrees(white, id1, j1, 3, 2) && cell_agrees(white, id1, j1, 3, 3));
    assert(cell_agrees(white, id2, j2, 0, 0) && cell_agrees(white, id2, j2, 0, 1)
        && cell_agrees(white, id2, j2, 0, 2) && cell_agrees(white, id2, j2, 0, 3));
    assert(cell_agrees(white, id2, j2, 1, 0) && cell_agrees(white, id2, j2, 1, 1)
        && cell_agrees(white, id2, j2, 1, 2) && cell_agrees(white, id2, j2, 1, 3));
    assert(cell_agrees(white, id2, j2, 2, 0) && cell_agrees(white, id2, j2, 2, 1)
        && cell_agrees(white, id2, j2, 2, 2) && cell_agrees(white, id2, j2, 2, 3));
    assert(cell_agrees(white, id2, j2, 3, 0) && cell_agrees(white, id2, j2, 3, 1)
        && cell_agrees(white, id2, j2, 3, 2) && cell_agrees(white, id2, j2, 3, 3));
}

/// Where the grid cell in row `r`, column `c` came from, `j` quarter turns
/// counter-clockwise ago, border included.
pub open spec fn grid_turned_from(j: int, r: int, c: int) -> (int, int) {
    if j == 0 {
        (r, c)
    } else if j == 1 {
        (c, 5 - r)
    } else if j == 2 {
        (5 - r, 5 - c)
    } else {
        (5 - c, r)
    }
}

/// `white` is what a camera samples of the printed grid `cells` (black is
/// `true`) when `j` quarter turns counter-clockwise bring the sample upright.
pub open spec fn samples(white: CellGrid, cells: CellGrid, j: int) -> bool {
    forall|r: int, c: int|
        #![trigger cells[r][c]]
        0 <= r < 6 && 0 <= c < 6 ==> white[grid_turned_from(j, r, c).0][grid_turned_from(
            j,
            r,
            c,
        ).1] == !cells[r][c]
}

/// A printed marker decodes to its own ID whichever way up it was taped, and
/// the decoded turn count says which way that was.
pub proof fn law_printed_marker_decodes(white: CellGrid, cells: CellGrid, id: u16, j: int)
    requires
        marker::word_of(id) is Some,
        marker::prints_word(cells, marker::word_of(id)->0),
        0 <= j < 4,
        samples(white, cells, j),
    ensures
        decodes_to(white, id, j),
{
    assert forall|r: int, c: int| #![trigger white[r][c]] marker::is_border_cell(r, c) implies
        !white[r][c] by {
        let back = grid_turned_from((4 - j) % 4, r, c);
        assert(marker::is_border_cell(back.0, back.1));
        assert(cells[back.0][back.1]);
        assert(grid_turned_from(j, back.0, back.1) == (r, c));
    }
    assert forall|r: int, c: int| marker::is_data_cell(r, c) implies #[trigger] cell_agrees(
        white,
        id,
        j,
        r,
        c,
    ) by {
        assert(marker::white_at(marker::word_of(id)->0, r, c) == !cells[r + 1][c + 1]);
        let to = turned_from(j, r, c);
        assert(grid_turned_from(j, r + 1, c + 1) == (to.0 + 1, to.1 + 1));
    }
}

/// `w` holds the sampled data cells turned `j` quarter turns counter-clockwise.
spec fn is_sampled_word(white: CellGrid, j: int, w: u16) -> bool {
    forall|r: int, c: int|
        marker::is_data_cell(r, c) ==> #[trigger] marker::white_at(w, r, c) == payload(
            white,
            turned_from(j, r, c),
        )
}

/// The border cells at index `i` of each side are black.
spec fn border_is_black_at(white: CellGrid, i: int) -> bool {
    !white[0][i] && !white[5][i] && !white[i][0] && !white[i][5]
}

/// Payload word of a sampled grid, in sampled orientation.
fn sampled_word(white: &CellGrid) -> (word: u16)
    ensures
        is_sampled_word(*white, 0, word),
{
    let mut word: u16 = 0;
    let mut i: usize = 0;
    while i < DATA_CELLS * DATA_CELLS
        invariant
            i <= 16,
            forall|k: int|
                0 <= k < i ==> #[trigger] marker::appended(word, i as int, k) == payload(
                    *white,
                    (k / 4, k % 4),
                ),
        decreases 16 - i,
    {
        let r: usize = i / DATA_CELLS;
        let c: usize = i % DATA_CELLS;
        let bit: u16 = if white[r + 1][c + 1] {
            1
        } else {
            0
        };
        let ghost before = word;
        word = (word << 1) | bit;
        proof {
            marker::lemma_append_bit(before, bit, 0);
            assert forall|k: int| 0 <= k < i + 1 implies #[trigger] marker::appended(
                word,
                i + 1,
                k,
            ) == payload(*white, (k / 4, k % 4)) by {
                if k < i {
                    marker::lemma_append_bit(before, bit, (i - 1 - k) as u16);
                    assert(marker::appended(before, i as int, k) == payload(
                        *white,
                        (k / 4, k % 4),
                    ));
                }
            }
        }
        i = i + 1;
    }
    proof {
        assert forall|r: int, c: int| marker::is_data_cell(r, c) implies #[trigger]
        marker::white_at(word, r, c) == payload(*white, turned_from(0, r, c)) by {
            assert(marker::appended(word, 16, 4 * r + c) == payload(
                *white,
                ((4 * r + c) / 4, (4 * r + c) % 4),
            ));
        }
    }
    word
}

/// The quarter turns that bring a sampled word to the word of marker `id`.
fn matching_turns(word: u16, id: u16, Ghost(white): Ghost<CellGrid>) -> (turns: Option<usize>)
    requires
        is_sampled_word(white, 0, word),
        marker::word_of(id) is Some,
    ensures
        turns matches Some(j) ==> shows_marker(white, id, j as int),
        turns is None ==> forall|j: int| !shows_marker(white, id, j),
{
    let canonical: u16 = match marker_word(id) {
        Some(canonical) => canonical,
        None => {
            return None;
        },
    };
    let mut w: u16 = word;
    let mut j: usize = 0;
    while j < 4
        invariant
            j <= 4,
            j < 4 ==> is_sampled_word(white, j as int, w),
            marker::word_of(id) == Some(canonical),
            forall|k: int| 0 <= k < j ==> !shows_marker(white, id, k),
        decreases 4 - j,
    {
        if w == canonical {
            assert forall|r: int, c: int| marker::is_data_cell(r, c) implies #[trigger]
            cell_agrees(white, id, j as int, r, c) by {
                assert(marker::white_at(w, r, c) == payload(white, turned_from(j as int, r, c)));
            }
            return Some(j);
        }
        proof {
            if shows_marker(white, id, j as int) {
                assert forall|r: int, c: int| marker::is_data_cell(r, c) implies #[trigger]
                marker::white_at(w, r, c) == marker::white_at(canonical, r, c) by {
                    assert(cell_agrees(white, id, j as int, r, c));
                }
                marker::lemma_word_determined_by_cells(w, canonical);
            }
        }
        let next: u16 = rotate_word_ccw(w);
        proof {
            if j < 3 {
                assert forall|r: int, c: int| marker::is_data_cell(r, c) implies #[trigger]
                marker::white_at(next, r, c) == payload(white, turned_from(j + 1, r, c)) by {
                    assert(marker::white_at(w, c, 3 - r) == payload(
                        white,
                        turned_from(j as int, c, 3 - r),
                    ));
                }
            }
        }
        w = next;
        j = j + 1;
    }
    None
}

/// Decode a sampled 6x6 grid (`true` is a white cell, row 0 is the quad's top
/// edge): the border ring must be entirely black and the payload must be the
/// word of one of the Reference Markers in one of the four rotations. With
/// `Some((id, j))` the printed top-left corner sits at quad corner `j`.
pub fn decode_grid(white: &CellGrid) -> (decoded: Option<(u16, usize)>)
    ensures
        forall|id: u16, j: usize|
            #![trigger decodes_to(*white, id, j as int)]
            decoded == Some((id, j)) <==> decodes_to(*white, id, j as int),
        decoded matches Some((id, j)) ==> marker::word_of(id) is Some && j < 4,
{
    let mut i: usize = 0;
    while i < CELLS_PER_SIDE
        invariant
            i <= 6,
            forall|k: int| 0 <= k < i ==> #[trigger] border_is_black_at(*white, k),
        decreases 6 - i,
    {
        if white[0][i] || white[CELLS_PER_SIDE - 1][i] || white[i][0] || white[i][CELLS_PER_SIDE
            - 1] {
            assert(marker::is_border_cell(0, i as int) && marker::is_border_cell(5, i as int)
                && marker::is_border_cell(i as int, 0) && marker::is_border_cell(i as int, 5));
            assert(!border_is_black(*white));
            return None;
        }
        i = i + 1;
    }
    assert(border_is_black(*white)) by {
        assert forall|r: int, c: int|
            #![trigger white[r][c]]
            marker::is_border_cell(r, c) implies !white[r][c] by {
            assert(border_is_black_at(*white, r) && border_is_black_at(*white, c));
        }
    }
    let word: u16 = sampled_word(white);
    match matching_turns(word, LEFT_MARKER_ID, Ghost(*white)) {
        Some(j) => {
            proof {
                assert forall|id: u16, k: usize|
                    #![trigger decodes_to(*white, id, k as int)]
                    Some((LEFT_MARKER_ID, j)) == Some((id, k)) <==> decodes_to(
                        *white,
                        id,
                        k as int,
                    ) by {
                    if decodes_to(*white, id, k as int) {
                        law_decoding_is_unique(*white, LEFT_MARKER_ID, j as int, id, k as int);
                    }
                }
            }
            return Some((LEFT_MARKER_ID, j));
        },
        None => {},
    }
    match matching_turns(word, RIGHT_MARKER_ID, Ghost(*white)) {
        Some(j) => {
            proof {
                assert forall|id: u16, k: usize|
                    #![trigger decodes_to(*white, id, k as int)]
                    Some((RIGHT_MARKER_ID, j)) == Some((id, k)) <==> decodes_to(
                        *white,
                        id,
                        k as int,
                    ) by {
                    if decodes_to(*white, id, k as int) {
                        law_decoding_is_unique(*white, RIGHT_MARKER_ID, j as int, id, k as int);
                    }
                }
            }
            Some((RIGHT_MARKER_ID, j))
        },
        None => None,
    }
}

/// Quad corners reordered to print orientation: canonical corner `i` is quad
/// corner `(turns + i) % 4`.
pub fn canonical_corners<T: Copy>(quad: &[T; 4], turns: usize) -> (ordered: [T; 4])
    requires
        turns < 4,
    ensures
        forall|i: int| 0 <= i < 4 ==> #[trigger] ordered[i] == quad[(turns + i) % 4],
{
    [quad[turns], quad[(turns + 1) % 4], quad[(turns + 2) % 4], quad[(turns + 3) % 4]]
}

} // verus!

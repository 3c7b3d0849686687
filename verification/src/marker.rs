//! Reference Marker definitions: ArUco DICT_4X4_50 patterns and the nominal
//! print geometry of the two-page marker PDF.
//!
//! Single source of truth for the marker dictionary: the PDF generator renders
//! these patterns and the detector matches camera frames against the same
//! words. A word holds the 4x4 data cells row-major from the top-left cell,
//! most significant bit first, and a **1 bit is a white cell**. The printed
//! marker surrounds the data cells with a one-cell black border, and the page
//! keeps a white quiet zone of at least one cell around that border.
use vstd::prelude::*;

verus! {

/// Data cells per side (the "4x4" in DICT_4X4_50).
pub const DATA_CELLS: usize = 4;

/// Cells per side of the printed black square: data cells plus the one-cell
/// black border on each side.
pub const CELLS_PER_SIDE: usize = 6;

/// Minimum white quiet zone around the printed marker, in cells.
pub const QUIET_ZONE_CELLS: usize = 1;

/// Nominal printed side length of the marker's black square, in millimetres.
pub const MARKER_SIDE_MM: u32 = 150;

/// Nominal printed length of the print-scale verification ruler strip, in
/// millimetres. Measured / nominal is the session's print-scale correction
/// factor.
pub const RULER_LENGTH_MM: u32 = 200;

/// Marker taped at the LEFT end of the wall area (page 1 of the PDF).
pub const LEFT_MARKER_ID: u16 = 0;

/// Marker taped at the RIGHT end of the wall area (page 2 of the PDF).
pub const RIGHT_MARKER_ID: u16 = 1;

/// Dictionary word of the left marker.
pub const LEFT_WORD: u16 = 0xB532;

/// Dictionary word of the right marker.
pub const RIGHT_WORD: u16 = 0x0F9A;

/// A full printed grid, border included.
pub type CellGrid = [[bool; CELLS_PER_SIDE]; CELLS_PER_SIDE];

/// The dictionary: which word each marker ID carries.
pub open spec fn word_of(id: u16) -> Option<u16> {
    if id == LEFT_MARKER_ID {
        Some(LEFT_WORD)
    } else if id == RIGHT_MARKER_ID {
        Some(RIGHT_WORD)
    } else {
        None
    }
}

/// Whether bit `i` (0 is least significant) of `word` is set.
pub open spec fn bit_at(word: u16, i: u16) -> bool {
    (word >> i) & 1 == 1
}

/// Whether the data cell in row `r`, column `c` of `word` is white.
pub open spec fn white_at(word: u16, r: int, c: int) -> bool {
    bit_at(word, (15 - (4 * r + c)) as u16)
}

/// `r` and `c` name a data cell.
pub open spec fn is_data_cell(r: int, c: int) -> bool {
    0 <= r < 4 && 0 <= c < 4
}

/// `turned` shows the cells of `word` after a quarter turn counter-clockwise.
pub open spec fn is_quarter_turn_ccw(word: u16, turned: u16) -> bool {
    forall|r: int, c: int|
        is_data_cell(r, c) ==> (#[trigger] white_at(turned, r, c)) == white_at(word, c, 3 - r)
}

/// `r` and `c` name a cell of the black border ring.
pub open spec fn is_border_cell(r: int, c: int) -> bool {
    &&& 0 <= r < 6
    &&& 0 <= c < 6
    &&& (r == 0 || r == 5 || c == 0 || c == 5)
}

/// `cells` is the printed grid of `word`: black border around the data cells,
/// a data cell black exactly where its bit is 0.
pub open spec fn prints_word(cells: CellGrid, word: u16) -> bool {
    &&& forall|r: int, c: int| #![trigger cells[r][c]] is_border_cell(r, c) ==> cells[r][c]
    &&& forall|r: int, c: int|
        is_data_cell(r, c) ==> (#[trigger] white_at(word, r, c)) == !cells[r + 1][c + 1]
}

/// Dictionary word for a marker ID, or `None` for IDs that are not used (only
/// [`LEFT_MARKER_ID`] and [`RIGHT_MARKER_ID`] exist in a session).
pub fn marker_word(id: u16) -> (word: Option<u16>)
    ensures
        word == word_of(id),
{
    if id == LEFT_MARKER_ID {
        Some(LEFT_WORD)
    } else if id == RIGHT_MARKER_ID {
        Some(RIGHT_WORD)
    } else {
        None
    }
}

/// Appending a bit shifts the earlier ones up by one place.
pub proof fn lemma_append_bit(out: u16, bit: u16, k: u16)
    requires
        bit <= 1,
        k < 15,
    ensures
        bit_at((out << 1) | bit, 0) == (bit == 1),
        bit_at((out << 1) | bit, (k + 1) as u16) == bit_at(out, k),
{
    assert((((out << 1) | bit) >> 0u16) & 1 == bit) by (bit_vector)
        requires
            bit <= 1,
    ;
    assert((((out << 1) | bit) >> ((k + 1) as u16)) & 1 == (out >> k) & 1) by (bit_vector)
        requires
            bit <= 1,
            k < 15,
    ;
}

/// Two words with the same cells are the same word.
pub proof fn lemma_word_determined_by_cells(a: u16, b: u16)
    requires
        forall|r: int, c: int|
            is_data_cell(r, c) ==> #[trigger] white_at(a, r, c) == white_at(b, r, c),
    ensures
        a == b,
{
    assert forall|i: u16| i < 16 implies #[trigger] bit_at(a, i) == bit_at(b, i) by {
        let k = 15 - i;
        assert(is_data_cell(k / 4, k % 4));
        assert(white_at(a, k / 4, k % 4) == white_at(b, k / 4, k % 4));
        assert((15 - (4 * (k / 4) + k % 4)) as u16 == i);
    }
    lemma_word_determined_by_bits(a, b);
}

proof fn lemma_word_determined_by_bits(a: u16, b: u16)
    requires
        forall|i: u16| i < 16 ==> #[trigger] bit_at(a, i) == bit_at(b, i),
    ensures
        a == b,
{
    assert(bit_at(a, 0) == bit_at(b, 0) && bit_at(a, 1) == bit_at(b, 1) && bit_at(a, 2) == bit_at(
        b,
        2,
    ) && bit_at(a, 3) == bit_at(b, 3) && bit_at(a, 4) == bit_at(b, 4) && bit_at(a, 5) == bit_at(
        b,
        5,
    ) && bit_at(a, 6) == bit_at(b, 6) && bit_at(a, 7) == bit_at(b, 7) && bit_at(a, 8) == bit_at(
        b,
        8,
    ) && bit_at(a, 9) == bit_at(b, 9) && bit_at(a, 10) == bit_at(b, 10) && bit_at(a, 11) == bit_at(
        b,
        11,
    ) && bit_at(a, 12) == bit_at(b, 12) && bit_at(a, 13) == bit_at(b, 13) && bit_at(a, 14)
        == bit_at(b, 14) && bit_at(a, 15) == bit_at(b, 15));
    assert(a == b) by (bit_vector)
        requires
            bit_at(a, 0) == bit_at(b, 0),
            bit_at(a, 1) == bit_at(b, 1),
            bit_at(a, 2) == bit_at(b, 2),
            bit_at(a, 3) == bit_at(b, 3),
            bit_at(a, 4) == bit_at(b, 4),
            bit_at(a, 5) == bit_at(b, 5),
            bit_at(a, 6) == bit_at(b, 6),
            bit_at(a, 7) == bit_at(b, 7),
            bit_at(a, 8) == bit_at(b, 8),
            bit_at(a, 9) == bit_at(b, 9),
            bit_at(a, 10) == bit_at(b, 10),
            bit_at(a, 11) == bit_at(b, 11),
            bit_at(a, 12) == bit_at(b, 12),
            bit_at(a, 13) == bit_at(b, 13),
            bit_at(a, 14) == bit_at(b, 14),
            bit_at(a, 15) == bit_at(b, 15),
    ;
}

/// Cell `k` (row-major) of a word of `n` cells, as they are appended one by one.
pub(crate) open spec fn appended(out: u16, n: int, k: int) -> bool {
    bit_at(out, (n - 1 - k) as u16)
}

/// Rotate a 4x4 word 90 degrees counter-clockwise.
pub fn rotate_word_ccw(word: u16) -> (out: u16)
    ensures
        is_quarter_turn_ccw(word, out),
{
    let mut out: u16 = 0;
    let mut i: usize = 0;
    while i < DATA_CELLS * DATA_CELLS
        invariant
            i <= 16,
            forall|k: int|
                0 <= k < i ==> #[trigger] appended(out, i as int, k) == white_at(
                    word,
                    k % 4,
                    3 - k / 4,
                ),
        decreases 16 - i,
    {
        let r: usize = i / DATA_CELLS;
        let c: usize = i % DATA_CELLS;
        // new(r, c) = old(c, N-1-r)
        let shift: u16 = (15 - (c * DATA_CELLS + (DATA_CELLS - 1 - r))) as u16;
        let bit: u16 = (word >> shift) & 1;
        assert(bit <= 1) by (bit_vector)
            requires
                bit == (word >> shift) & 1,
        ;
        let ghost before = out;
        out = (out << 1) | bit;
        proof {
            lemma_append_bit(before, bit, 0);
            assert forall|k: int| 0 <= k < i + 1 implies #[trigger] appended(out, i + 1, k)
                == white_at(word, k % 4, 3 - k / 4) by {
                if k < i {
                    lemma_append_bit(before, bit, (i - 1 - k) as u16);
                    assert(appended(before, i as int, k) == white_at(word, k % 4, 3 - k / 4));
                }
            }
        }
        i = i + 1;
    }
    proof {
        assert forall|r: int, c: int| is_data_cell(r, c) implies (#[trigger] white_at(out, r, c))
            == white_at(word, c, 3 - r) by {
            assert(appended(out, 16, 4 * r + c) == white_at(
                word,
                (4 * r + c) % 4,
                3 - (4 * r + c) / 4,
            ));
        }
    }
    out
}

/// Full printed cell grid ([`CELLS_PER_SIDE`]²) for a marker ID, including
/// the black border; `true` means a black (inked) cell. Row 0 is the top of
/// the printed marker. The quiet zone is *not* part of the grid: the renderer
/// keeps [`QUIET_ZONE_CELLS`] cells of white around it.
pub fn marker_cells(id: u16) -> (cells: Option<CellGrid>)
    ensures
        cells is Some <==> word_of(id) is Some,
        cells matches Some(grid) ==> prints_word(grid, word_of(id)->0),
{
    let word: u16 = match marker_word(id) {
        Some(word) => word,
        None => {
            return None;
        },
    };
    let mut cells: CellGrid = [[true; CELLS_PER_SIDE]; CELLS_PER_SIDE];
    let mut r: usize = 0;
    while r < DATA_CELLS
        invariant
            r <= 4,
            forall|r2: int, c2: int|
                #![trigger cells[r2][c2]]
                is_border_cell(r2, c2) ==> cells[r2][c2],
            forall|r2: int, c2: int|
                is_data_cell(r2, c2) && r2 < r ==> (#[trigger] white_at(word, r2, c2)) == !cells[r2
                    + 1][c2 + 1],
        decreases 4 - r,
    {
        let mut c: usize = 0;
        while c < DATA_CELLS
            invariant
                r < 4,
                c <= 4,
                forall|r2: int, c2: int|
                    #![trigger cells[r2][c2]]
                    is_border_cell(r2, c2) ==> cells[r2][c2],
                forall|r2: int, c2: int|
                    is_data_cell(r2, c2) && 4 * r2 + c2 < 4 * r + c ==> (#[trigger] white_at(
                        word,
                        r2,
                        c2,
                    )) == !cells[r2 + 1][c2 + 1],
            decreases 4 - c,
        {
            let shift: u16 = (15 - (r * DATA_CELLS + c)) as u16;
            let bit: u16 = (word >> shift) & 1;
            assert(bit == 0 || bit == 1) by (bit_vector)
                requires
                    bit == (word >> shift) & 1,
            ;
            // 1 = white, so black when 0
            cells[r + 1][c + 1] = bit == 0;
            c = c + 1;
        }
        r = r + 1;
    }
    Some(cells)
}

/// Four quarter turns give the word back.
pub proof fn law_four_quarter_turns_are_identity(w0: u16, w1: u16, w2: u16, w3: u16, w4: u16)
    requires
        is_quarter_turn_ccw(w0, w1),
        is_quarter_turn_ccw(w1, w2),
        is_quarter_turn_ccw(w2, w3),
        is_quarter_turn_ccw(w3, w4),
    ensures
        w4 == w0,
{
    assert forall|r: int, c: int| is_data_cell(r, c) implies #[trigger] white_at(w4, r, c)
        == white_at(w0, r, c) by {
        assert(white_at(w4, r, c) == white_at(w3, c, 3 - r));
        assert(white_at(w3, c, 3 - r) == white_at(w2, 3 - r, 3 - c));
        assert(white_at(w2, 3 - r, 3 - c) == white_at(w1, 3 - c, r));
        assert(white_at(w1, 3 - c, r) == white_at(w0, r, c));
    }
    lemma_word_determined_by_cells(w4, w0);
}

/// The printed cells row by row, 1 for black, as the capture page draws them.
pub open spec fn is_pattern(bytes: Seq<u8>, cells: CellGrid) -> bool {
    &&& bytes.len() == 36
    &&& forall|r: int, c: int|
        #![trigger cells[r][c]]
        0 <= r < 6 && 0 <= c < 6 ==> bytes[6 * r + c] == (if cells[r][c] {
            1u8
        } else {
            0u8
        })
}

/// Marker cells for the capture page: 36 bytes row by row, 1 for black.
pub fn marker_pattern(id: u16) -> (pattern: Option<Vec<u8>>)
    ensures
        pattern is Some <==> word_of(id) is Some,
        pattern matches Some(bytes) ==> exists|cells: CellGrid| #[trigger]
            prints_word(cells, word_of(id)->0) && is_pattern(bytes@, cells),
{
    let cells: CellGrid = match marker_cells(id) {
        None => {
            return None;
        },
        Some(cells) => cells,
    };
    let mut bytes: Vec<u8> = Vec::new();
    let mut i: usize = 0;
    while i < CELLS_PER_SIDE * CELLS_PER_SIDE
        invariant
            i <= 36,
            bytes@.len() == i,
            forall|r: int, c: int|
                #![trigger cells[r][c]]
                0 <= r < 6 && 0 <= c < 6 && 6 * r + c < i ==> bytes@[6 * r + c] == (
                if cells[r][c] {
                    1u8
                } else {
                    0u8
                }),
        decreases 36 - i,
    {
        let black: bool = cells[i / CELLS_PER_SIDE][i % CELLS_PER_SIDE];
        bytes.push(
            if black {
                1
            } else {
                0
            },
        );
        i = i + 1;
    }
    assert(is_pattern(bytes@, cells));
    Some(bytes)
}

/// Nominal length of the printed ruler (mm), which the print-scale factor is
/// measured against.
pub fn ruler_nominal_mm() -> (mm: u32)
    ensures
        mm == RULER_LENGTH_MM,
{
    RULER_LENGTH_MM
}

/// Nominal side of a printed marker (mm).
pub fn marker_side_mm() -> (mm: u32)
    ensures
        mm == MARKER_SIDE_MM,
{
    MARKER_SIDE_MM
}

} // verus!

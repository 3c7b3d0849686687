//! Reference Marker PDF: a deterministic two-page A4 document, one ArUco
//! Reference Marker per page (LEFT / RIGHT end of the wall area) plus a 200 mm
//! ruler strip the Homeowner measures to self-verify print scale.
//!
//! The writer is a minimal hand-rolled PDF 1.4 emitter: vector rectangles for
//! marker cells and ruler ticks, standard Helvetica for text, no compression,
//! no timestamps, so the output is byte-for-byte reproducible.
//!
//! Lengths are whole micrometres. A PDF point is 1/72 inch, so a micrometre is
//! 36/127 hundredths of a point; coordinates are printed in points with two
//! decimals.
use vstd::prelude::*;

use crate::marker;
use crate::marker::{marker_cells, CellGrid};
use crate::marker::{CELLS_PER_SIDE, LEFT_MARKER_ID, MARKER_SIDE_MM, QUIET_ZONE_CELLS};
use crate::marker::{RIGHT_MARKER_ID, RULER_LENGTH_MM};
use crate::text;
use crate::text::{append_decimal, append_hundredths, append_padded};

verus! {

/// A4 portrait, micrometres.
pub const PAGE_W_UM: u64 = 210_000;

pub const PAGE_H_UM: u64 = 297_000;

/// Left margin of the text lines.
pub const MARGIN_UM: u64 = 15_000;

/// Height of the ruler's baseline band.
pub const BASELINE_UM: u64 = 500;

/// Width of a ruler tick.
pub const TICK_UM: u64 = 350;

/// Finest length a coordinate can have: 1/635 of a hundredth of a point. A
/// micrometre is 180 of them.
pub const FINE_PER_UM: u64 = 180;

pub const FINE_PER_HUNDREDTH: u64 = 635;

/// Half the width of a Helvetica digit of size 6, which is 556/1000 em wide.
pub const FINE_PER_HALF_DIGIT: u64 = 105_918;

/// A fine length in hundredths of a point, rounded to nearest. (No length is
/// exactly halfway between two hundredths: 635 is odd.)
pub open spec fn to_hundredths(fine: int) -> int {
    (2 * fine + FINE_PER_HUNDREDTH) / (2 * FINE_PER_HUNDREDTH as int)
}

/// A length in micrometres, printed in points.
pub open spec fn points(um: int) -> Seq<char> {
    text::hundredths(to_hundredths(um * FINE_PER_UM))
}

/// Page layout, all in micrometres, vertical positions measured from the page
/// TOP (converted to PDF's bottom-left origin only at emission time).
#[derive(Clone, Copy, Debug, PartialEq, Eq, Structural)]
pub struct Layout {
    /// Side of one marker cell.
    pub cell_um: u64,
    /// White quiet zone kept clear around the marker's black square.
    pub quiet_um: u64,
    /// Left edge of the marker's black square (horizontally centred).
    pub marker_x_um: u64,
    /// Top edge of the marker's black square.
    pub marker_top_um: u64,
    /// Left edge of the ruler strip (position of the 0 mm mark).
    pub ruler_x_um: u64,
    /// Top edge of the ruler baseline band.
    pub ruler_top_um: u64,
}

pub open spec fn page_layout() -> Layout {
    Layout {
        cell_um: 25_000,
        quiet_um: 25_000,
        marker_x_um: 30_000,
        marker_top_um: 97_000,
        ruler_x_um: 5_000,
        ruler_top_um: 56_000,
    }
}

/// The page layout, from the marker's nominal print geometry.
pub fn layout() -> (l: Layout)
    ensures
        l == page_layout(),
{
    let side: u64 = MARKER_SIDE_MM as u64 * 1000;
    let ruler: u64 = RULER_LENGTH_MM as u64 * 1000;
    let cell: u64 = side / CELLS_PER_SIDE as u64;
    assert(cell == 25_000) by (nonlinear_arith)
        requires
            cell == side / 6,
            side == 150_000,
    ;
    assert(cell * QUIET_ZONE_CELLS == cell) by (nonlinear_arith)
        requires
            QUIET_ZONE_CELLS == 1,
    ;
    Layout {
        cell_um: cell,
        quiet_um: cell * QUIET_ZONE_CELLS as u64,
        marker_x_um: (PAGE_W_UM - side) / 2,
        marker_top_um: 97_000,
        ruler_x_um: (PAGE_W_UM - ruler) / 2,
        ruler_top_um: 56_000,
    }
}

/// The quiet zone is one cell, it and the marker fit the page, and so does the
/// ruler at its full nominal length; ruler and footer stay out of the quiet
/// zone.
pub proof fn law_layout_fits_page()
    ensures
        ({
            let l = page_layout();
            let side = MARKER_SIDE_MM * 1000;
            &&& l.cell_um * CELLS_PER_SIDE == side
            &&& l.quiet_um >= l.cell_um * QUIET_ZONE_CELLS
            &&& l.quiet_um <= l.marker_x_um
            &&& l.marker_x_um + side + l.quiet_um <= PAGE_W_UM
            &&& l.ruler_top_um + 10_000 < l.marker_top_um - l.quiet_um
            &&& l.marker_top_um + side + l.quiet_um < PAGE_H_UM
            &&& l.ruler_x_um + RULER_LENGTH_MM * 1000 <= PAGE_W_UM
        }),
{
}

/// A drawing operation: filled rectangles and single-line Helvetica text.
#[verifier::ext_equal]
pub enum Op {
    /// `y` is the rectangle's top edge measured from the top of the page.
    Rect { x: int, y: int, w: int, h: int, white: bool },
    /// `x` is in fine units; `baseline` is measured from the top of the page.
    Text { x: int, baseline: int, size: int, bold: bool, line: Seq<char> },
}

/// A line of text with the characters that delimit PDF strings escaped.
pub open spec fn escaped(line: Seq<char>) -> Seq<char>
    decreases line.len(),
{
    if line.len() == 0 {
        Seq::empty()
    } else {
        let c = line.last();
        let before = escaped(line.drop_last());
        if c == '(' || c == ')' || c == '\\' {
            before.push('\\').push(c)
        } else {
            before.push(c)
        }
    }
}

/// What an operation is in a content stream.
pub open spec fn rendered(op: Op) -> Seq<char> {
    match op {
        Op::Rect { x, y, w, h, white } => (if white {
            "1.000 g\n"@
        } else {
            "0.000 g\n"@
        }) + points(x) + " "@ + points(PAGE_H_UM - y - h) + " "@ + points(w) + " "@ + points(h)
            + " re f\n"@,
        Op::Text { x, baseline, size, bold, line } => (if bold {
            "BT /F2 "@
        } else {
            "BT /F1 "@
        }) + text::decimal(size) + ".0 Tf 0 g "@ + text::hundredths(to_hundredths(x)) + " "@
            + points(PAGE_H_UM - baseline) + " Td ("@ + escaped(line) + ") Tj ET\n"@,
    }
}

/// A content stream: its operations one after the other.
pub open spec fn stream_of(ops: Seq<Op>) -> Seq<char>
    decreases ops.len(),
{
    if ops.len() == 0 {
        Seq::empty()
    } else {
        stream_of(ops.drop_last()) + rendered(ops.last())
    }
}

/// Content-stream builder.
pub struct Content {
    pub ops: String,
}

impl Content {
    pub fn new() -> (c: Content)
        ensures
            c.ops@ == Seq::<char>::empty(),
    {
        Content { ops: String::new() }
    }

    /// Filled rectangle; `y_top_um` is the rectangle's top edge measured from
    /// the top of the page.
    pub fn fill_rect(&mut self, x_um: u64, y_top_um: u64, w_um: u64, h_um: u64, white: bool)
        requires
            x_um <= PAGE_W_UM,
            w_um <= PAGE_W_UM,
            y_top_um + h_um <= PAGE_H_UM,
        ensures
            final(self).ops@ == old(self).ops@ + rendered(
                Op::Rect {
                    x: x_um as int,
                    y: y_top_um as int,
                    w: w_um as int,
                    h: h_um as int,
                    white,
                },
            ),
    {
        if white {
            self.ops.append("1.000 g\n");
        } else {
            self.ops.append("0.000 g\n");
        }
        append_points(&mut self.ops, x_um);
        self.ops.append(" ");
        append_points(&mut self.ops, PAGE_H_UM - y_top_um - h_um);
        self.ops.append(" ");
        append_points(&mut self.ops, w_um);
        self.ops.append(" ");
        append_points(&mut self.ops, h_um);
        self.ops.append(" re f\n");
        assert(self.ops@ =~= old(self).ops@ + rendered(
            Op::Rect {
                x: x_um as int,
                y: y_top_um as int,
                w: w_um as int,
                h: h_um as int,
                white,
            },
        ));
    }

    /// Single line of text; `baseline_um` is the text baseline measured from
    /// the top of the page.
    pub fn text(&mut self, x_um: u64, baseline_um: u64, size_pt: u64, bold: bool, s: &str)
        requires
            x_um <= PAGE_W_UM,
            baseline_um <= PAGE_H_UM,
        ensures
            final(self).ops@ == old(self).ops@ + rendered(
                Op::Text {
                    x: x_um * FINE_PER_UM,
                    baseline: baseline_um as int,
                    size: size_pt as int,
                    bold,
                    line: s@,
                },
            ),
    {
        self.text_at(x_um * FINE_PER_UM, baseline_um, size_pt, bold, s);
    }

    fn text_at(&mut self, x_fine: u64, baseline_um: u64, size_pt: u64, bold: bool, s: &str)
        requires
            x_fine <= PAGE_W_UM * FINE_PER_UM,
            baseline_um <= PAGE_H_UM,
        ensures
            final(self).ops@ == old(self).ops@ + rendered(
                Op::Text {
                    x: x_fine as int,
                    baseline: baseline_um as int,
                    size: size_pt as int,
                    bold,
                    line: s@,
                },
            ),
    {
        if bold {
            self.ops.append("BT /F2 ");
        } else {
            self.ops.append("BT /F1 ");
        }
        append_decimal(&mut self.ops, size_pt);
        self.ops.append(".0 Tf 0 g ");
        append_hundredths(&mut self.ops, rounded_hundredths(x_fine));
        self.ops.append(" ");
        append_points(&mut self.ops, PAGE_H_UM - baseline_um);
        self.ops.append(" Td (");
        append_escaped(&mut self.ops, s);
        self.ops.append(") Tj ET\n");
        assert(self.ops@ =~= old(self).ops@ + rendered(
            Op::Text {
                x: x_fine as int,
                baseline: baseline_um as int,
                size: size_pt as int,
                bold,
                line: s@,
            },
        ));
    }

    /// Digits-only label of size 6 centred on `x_center_um`. Exact for
    /// Helvetica: every digit has width 556/1000 em.
    pub fn digits_centered(&mut self, x_center_um: u64, baseline_um: u64, n: u64)
        requires
            x_center_um <= PAGE_W_UM,
            baseline_um <= PAGE_H_UM,
            text::decimal(n as int).len() * FINE_PER_HALF_DIGIT <= x_center_um * FINE_PER_UM,
        ensures
            final(self).ops@ == old(self).ops@ + rendered(
                label(x_center_um as int, baseline_um as int, n as int),
            ),
    {
        let mut s: String = String::new();
        append_decimal(&mut s, n);
        assert(s@ =~= text::decimal(n as int));
        let len: usize = s.as_str().unicode_len();
        self.text_at(
            x_center_um * FINE_PER_UM - len as u64 * FINE_PER_HALF_DIGIT,
            baseline_um,
            6,
            false,
            s.as_str(),
        );
    }
}

/// A number centred on a position.
pub open spec fn label(x_center: int, baseline: int, n: int) -> Op {
    Op::Text {
        x: x_center * FINE_PER_UM - text::decimal(n).len() * FINE_PER_HALF_DIGIT,
        baseline,
        size: 6,
        bold: false,
        line: text::decimal(n),
    }
}

fn rounded_hundredths(fine: u64) -> (h: u64)
    requires
        fine <= 0x1_0000_0000,
    ensures
        h == to_hundredths(fine as int),
{
    (2 * fine + FINE_PER_HUNDREDTH) / (2 * FINE_PER_HUNDREDTH)
}

/// Append a length in micrometres, in points.
fn append_points(s: &mut String, um: u64)
    requires
        um <= PAGE_H_UM,
    ensures
        final(s)@ == old(s)@ + points(um as int),
{
    append_hundredths(s, rounded_hundredths(um * FINE_PER_UM));
}

/// Append a line with its delimiters escaped.
fn append_escaped(s: &mut String, line: &str)
    ensures
        final(s)@ == old(s)@ + escaped(line@),
{
    let n: usize = line.unicode_len();
    let mut i: usize = 0;
    let ghost start = s@;
    proof {
        reveal_strlit("\\");
        assert(line@.take(0) =~= Seq::<char>::empty());
        assert(s@ =~= start + escaped(line@.take(0)));
    }
    while i < n
        invariant
            i <= n,
            n == line@.len(),
            "\\"@ == seq!['\\'],
            s@ == start + escaped(line@.take(i as int)),
        decreases n - i,
    {
        let c: char = line.get_char(i);
        let ghost taken = line@.take(i + 1);
        proof {
            assert(taken.last() == c);
            assert(taken.drop_last() =~= line@.take(i as int));
            assert(line@.subrange(i as int, i + 1) =~= seq![c]);
        }
        if c == '(' || c == ')' || c == '\\' {
            s.append("\\");
        }
        s.append(line.substring_char(i, i + 1));
        assert(s@ =~= start + escaped(taken));
        i = i + 1;
    }
    assert(line@.take(n as int) =~= line@);
}

pub open spec fn title_line(page_no: int) -> Seq<char> {
    "Wallstimator Reference Marker - Page "@ + text::decimal(page_no) + " of 2"@
}

pub open spec fn placement_line(letter: Seq<char>, id: int, wall_end: Seq<char>) -> Seq<char> {
    "Marker "@ + letter + " (ArUco 4x4_50, ID "@ + text::decimal(id) + ") - tape at the "@ + wall_end
        + " end of the wall area"@
}

pub open spec fn ruler_line() -> Seq<char> {
    "Ruler strip (millimetres) - end to end it should measure exactly "@ + text::decimal(
        RULER_LENGTH_MM as int,
    ) + " mm at 100% scale."@
}

pub open spec fn footer_line() -> Seq<char> {
    "Keep the white margin around the black square clear. Marker side "@ + text::decimal(
        MARKER_SIDE_MM as int,
    ) + " mm nominal."@
}

/// A text line at the left margin.
pub open spec fn line_op(baseline: int, size: int, bold: bool, line: Seq<char>) -> Op {
    Op::Text { x: MARGIN_UM * FINE_PER_UM, baseline, size, bold, line }
}

/// Instructions, kept above the ruler.
pub open spec fn instruction_ops(
    page_no: int,
    id: int,
    letter: Seq<char>,
    wall_end: Seq<char>,
) -> Seq<Op> {
    seq![
        line_op(18_000, 14, true, title_line(page_no)),
        line_op(26_000, 11, true, placement_line(letter, id, wall_end)),
        line_op(
            34_000,
            11,
            true,
            "PRINT AT 100% (ACTUAL SIZE). Do not use 'fit to page' or 'shrink to fit'."@,
        ),
        line_op(
            41_000,
            10,
            false,
            "After printing, the app asks you to measure the ruler strip below with a tape"@,
        ),
        line_op(
            46_000,
            10,
            false,
            "measure and corrects for your printer's scaling. Tape the page flat - no folds."@,
        ),
    ]
}

/// Tick at `mm` millimetres: major every 5 cm, minor every 1 cm.
pub open spec fn tick_op(mm: int) -> Op {
    let length = if mm % 50 == 0 {
        6_000
    } else {
        4_000
    };
    let l = page_layout();
    Op::Rect {
        x: l.ruler_x_um + mm * 1000 - TICK_UM / 2,
        y: l.ruler_top_um - length,
        w: TICK_UM as int,
        h: length,
        white: false,
    }
}

/// The first `n` ticks of the ruler, one per centimetre, each with its label.
pub open spec fn tick_ops(n: int) -> Seq<Op>
    decreases n,
{
    if n <= 0 {
        Seq::empty()
    } else {
        let mm = 10 * (n - 1);
        let l = page_layout();
        tick_ops(n - 1).push(tick_op(mm)).push(
            label(l.ruler_x_um + mm * 1000, l.ruler_top_um + 4_500, mm),
        )
    }
}

/// Ruler strip: baseline band, ticks and labels, caption.
pub open spec fn ruler_ops() -> Seq<Op> {
    let l = page_layout();
    seq![
        Op::Rect {
            x: l.ruler_x_um as int,
            y: l.ruler_top_um as int,
            w: RULER_LENGTH_MM * 1000,
            h: BASELINE_UM as int,
            white: false,
        },
    ] + tick_ops(RULER_LENGTH_MM / 10 + 1) + seq![
        Op::Text {
            x: l.ruler_x_um * FINE_PER_UM,
            baseline: l.ruler_top_um + 10_000,
            size: 8,
            bold: false,
            line: ruler_line(),
        },
    ]
}

/// White cell in row `r`, column `c` of the marker.
pub open spec fn cell_op(r: int, c: int) -> Op {
    let l = page_layout();
    Op::Rect {
        x: l.marker_x_um + c * l.cell_um,
        y: l.marker_top_um + r * l.cell_um,
        w: l.cell_um as int,
        h: l.cell_um as int,
        white: true,
    }
}

/// White cells among the first `n` cells (row-major) of a printed grid.
pub open spec fn cell_ops(cells: CellGrid, n: int) -> Seq<Op>
    decreases n,
{
    if n <= 0 {
        Seq::empty()
    } else if cells[(n - 1) / 6][(n - 1) % 6] {
        cell_ops(cells, n - 1)
    } else {
        cell_ops(cells, n - 1).push(cell_op((n - 1) / 6, (n - 1) % 6))
    }
}

/// Reference Marker: black square, then white cells punched out. The quiet
/// zone is simply left unpainted.
pub open spec fn marker_ops(cells: CellGrid) -> Seq<Op> {
    let l = page_layout();
    seq![
        Op::Rect {
            x: l.marker_x_um as int,
            y: l.marker_top_um as int,
            w: MARKER_SIDE_MM * 1000,
            h: MARKER_SIDE_MM * 1000,
            white: false,
        },
    ] + cell_ops(cells, 36)
}

/// Everything that is drawn on a page, in order.
pub open spec fn page_ops(
    page_no: int,
    id: int,
    letter: Seq<char>,
    wall_end: Seq<char>,
    cells: CellGrid,
) -> Seq<Op> {
    let l = page_layout();
    instruction_ops(page_no, id, letter, wall_end) + ruler_ops() + marker_ops(cells) + seq![
        line_op(
            l.marker_top_um + MARKER_SIDE_MM * 1000 + l.quiet_um + 9_000,
            8,
            false,
            footer_line(),
        ),
    ]
}

proof fn lemma_stream_push(ops: Seq<Op>, op: Op)
    ensures
        stream_of(ops.push(op)) == stream_of(ops) + rendered(op),
{
    assert(ops.push(op).drop_last() =~= ops);
}

impl Content {
    /// `ops` has been drawn.
    pub open spec fn holds(self, ops: Seq<Op>) -> bool {
        self.ops@ == stream_of(ops)
    }

    /// A text line at the left margin.
    fn line(&mut self, baseline_um: u64, size_pt: u64, bold: bool, s: &str, Ghost(ops): Ghost<
        Seq<Op>,
    >)
        requires
            baseline_um <= PAGE_H_UM,
            old(self).holds(ops),
        ensures
            final(self).holds(
                ops.push(line_op(baseline_um as int, size_pt as int, bold, s@)),
            ),
    {
        self.text(MARGIN_UM, baseline_um, size_pt, bold, s);
        proof {
            lemma_stream_push(ops, line_op(baseline_um as int, size_pt as int, bold, s@));
        }
    }
}

/// Draw the instructions.
fn draw_instructions(c: &mut Content, page_no: usize, marker_id: u16, letter: &str, wall_end: &str)
    requires
        old(c).holds(Seq::empty()),
    ensures
        final(c).holds(instruction_ops(page_no as int, marker_id as int, letter@, wall_end@)),
{
    let ghost all = instruction_ops(page_no as int, marker_id as int, letter@, wall_end@);
    let mut title: String = String::from_str("Wallstimator Reference Marker - Page ");
    append_decimal(&mut title, page_no as u64);
    title.append(" of 2");
    c.line(18_000, 14, true, title.as_str(), Ghost(Seq::empty()));
    let mut placement: String = String::from_str("Marker ");
    placement.append(letter);
    placement.append(" (ArUco 4x4_50, ID ");
    append_decimal(&mut placement, marker_id as u64);
    placement.append(") - tape at the ");
    placement.append(wall_end);
    placement.append(" end of the wall area");
    proof {
        assert(Seq::<Op>::empty().push(line_op(18_000, 14, true, title@)) =~= all.take(1));
    }
    c.line(26_000, 11, true, placement.as_str(), Ghost(all.take(1)));
    proof {
        assert(all.take(1).push(line_op(26_000, 11, true, placement@)) =~= all.take(2));
    }
    c.line(
        34_000,
        11,
        true,
        "PRINT AT 100% (ACTUAL SIZE). Do not use 'fit to page' or 'shrink to fit'.",
        Ghost(all.take(2)),
    );
    proof {
        assert(all.take(2).push(all[2]) =~= all.take(3));
    }
    c.line(
        41_000,
        10,
        false,
        "After printing, the app asks you to measure the ruler strip below with a tape",
        Ghost(all.take(3)),
    );
    proof {
        assert(all.take(3).push(all[3]) =~= all.take(4));
    }
    c.line(
        46_000,
        10,
        false,
        "measure and corrects for your printer's scaling. Tape the page flat - no folds.",
        Ghost(all.take(4)),
    );
    proof {
        assert(all.take(4).push(all[4]) =~= all);
    }
}

/// Number of digits of the ruler's labels.
proof fn lemma_label_digits(n: int)
    requires
        0 <= n <= 200,
    ensures
        text::decimal(n).len() == (if n < 10 {
            1int
        } else if n < 100 {
            2int
        } else {
            3int
        }),
{
    reveal_with_fuel(text::decimal, 3);
}

/// Draw the ruler strip.
fn draw_ruler(c: &mut Content, Ghost(before): Ghost<Seq<Op>>)
    requires
        old(c).holds(before),
    ensures
        final(c).holds(before + ruler_ops()),
{
    let l: Layout = layout();
    let length: u64 = RULER_LENGTH_MM as u64;
    c.fill_rect(l.ruler_x_um, l.ruler_top_um, length * 1000, BASELINE_UM, false);
    let ghost band = Op::Rect {
        x: l.ruler_x_um as int,
        y: l.ruler_top_um as int,
        w: RULER_LENGTH_MM * 1000,
        h: BASELINE_UM as int,
        white: false,
    };
    let ghost head = before.push(band);
    proof {
        lemma_stream_push(before, band);
        assert(head + tick_ops(0) =~= head);
    }
    let mut n: u64 = 0;
    while 10 * n <= length
        invariant
            l == page_layout(),
            length == 200,
            n <= 21,
            c.holds(head + tick_ops(n as int)),
        decreases 21 - n,
    {
        let pos: u64 = 10 * n;
        let x_center: u64 = l.ruler_x_um + pos * 1000;
        // Major ticks every 5 cm and at both ends; minor every 1 cm.
        let tick: u64 = if pos % 50 == 0 {
            6_000
        } else {
            4_000
        };
        proof {
            lemma_label_digits(pos as int);
        }
        c.fill_rect(x_center - TICK_UM / 2, l.ruler_top_um - tick, TICK_UM, tick, false);
        proof {
            lemma_stream_push(head + tick_ops(n as int), tick_op(pos as int));
        }
        c.digits_centered(x_center, l.ruler_top_um + 4_500, pos);
        proof {
            let with_tick = (head + tick_ops(n as int)).push(tick_op(pos as int));
            let lab = label(x_center as int, l.ruler_top_um + 4_500, pos as int);
            lemma_stream_push(with_tick, lab);
            assert(with_tick.push(lab) =~= head + tick_ops(n + 1));
        }
        n = n + 1;
    }
    let mut caption: String = String::from_str(
        "Ruler strip (millimetres) - end to end it should measure exactly ",
    );
    append_decimal(&mut caption, length);
    caption.append(" mm at 100% scale.");
    c.text(l.ruler_x_um, l.ruler_top_um + 10_000, 8, false, caption.as_str());
    proof {
        let last = Op::Text {
            x: l.ruler_x_um * FINE_PER_UM,
            baseline: l.ruler_top_um + 10_000,
            size: 8,
            bold: false,
            line: ruler_line(),
        };
        lemma_stream_push(head + tick_ops(21), last);
        assert((head + tick_ops(21)).push(last) =~= before + ruler_ops());
    }
}

/// Draw the marker.
fn draw_marker(c: &mut Content, cells: &CellGrid, Ghost(before): Ghost<Seq<Op>>)
    requires
        old(c).holds(before),
    ensures
        final(c).holds(before + marker_ops(*cells)),
{
    let l: Layout = layout();
    let side: u64 = MARKER_SIDE_MM as u64 * 1000;
    c.fill_rect(l.marker_x_um, l.marker_top_um, side, side, false);
    let ghost square = Op::Rect {
        x: l.marker_x_um as int,
        y: l.marker_top_um as int,
        w: MARKER_SIDE_MM * 1000,
        h: MARKER_SIDE_MM * 1000,
        white: false,
    };
    let ghost head = before.push(square);
    proof {
        lemma_stream_push(before, square);
        assert(head + cell_ops(*cells, 0) =~= head);
    }
    let mut k: usize = 0;
    while k < CELLS_PER_SIDE * CELLS_PER_SIDE
        invariant
            l == page_layout(),
            k <= 36,
            c.holds(head + cell_ops(*cells, k as int)),
        decreases 36 - k,
    {
        let r: usize = k / CELLS_PER_SIDE;
        let col: usize = k % CELLS_PER_SIDE;
        if !cells[r][col] {
            c.fill_rect(
                l.marker_x_um + col as u64 * l.cell_um,
                l.marker_top_um + r as u64 * l.cell_um,
                l.cell_um,
                l.cell_um,
                true,
            );
            proof {
                lemma_stream_push(head + cell_ops(*cells, k as int), cell_op(r as int, col as int));
                assert((head + cell_ops(*cells, k as int)).push(cell_op(r as int, col as int))
                    =~= head + cell_ops(*cells, k + 1));
            }
        }
        k = k + 1;
    }
    proof {
        assert(head + cell_ops(*cells, 36) =~= before + marker_ops(*cells));
    }
}

/// Draw one full page: instructions, ruler strip, marker with quiet zone.
pub fn draw_page(page_no: usize, marker_id: u16, letter: &str, wall_end: &str) -> (stream: String)
    requires
        marker::word_of(marker_id) is Some,
    ensures
        exists|cells: CellGrid| #[trigger]
            marker::prints_word(cells, marker::word_of(marker_id)->0) && stream@ == stream_of(
                page_ops(page_no as int, marker_id as int, letter@, wall_end@, cells),
            ),
{
    let cells: CellGrid = match marker_cells(marker_id) {
        Some(cells) => cells,
        None => {
            return String::new();
        },
    };
    let l: Layout = layout();
    let mut c: Content = Content::new();
    let ghost one = instruction_ops(page_no as int, marker_id as int, letter@, wall_end@);
    let ghost two = one + ruler_ops();
    let ghost three = two + marker_ops(cells);
    draw_instructions(&mut c, page_no, marker_id, letter, wall_end);
    draw_ruler(&mut c, Ghost(one));
    draw_marker(&mut c, &cells, Ghost(two));
    // Footer, below the quiet zone.
    let mut footer: String = String::from_str(
        "Keep the white margin around the black square clear. Marker side ",
    );
    append_decimal(&mut footer, MARKER_SIDE_MM as u64);
    footer.append(" mm nominal.");
    c.line(
        l.marker_top_um + MARKER_SIDE_MM as u64 * 1000 + l.quiet_um + 9_000,
        8,
        false,
        footer.as_str(),
        Ghost(three),
    );
    proof {
        let last = line_op(
            l.marker_top_um + MARKER_SIDE_MM * 1000 + l.quiet_um + 9_000,
            8,
            false,
            footer_line(),
        );
        assert(three.push(last) =~= page_ops(
            page_no as int,
            marker_id as int,
            letter@,
            wall_end@,
            cells,
        ));
    }
    c.ops
}

/// 1 for a white cell, 0 for a black one.
pub open spec fn bit(white: bool) -> int {
    if white {
        1
    } else {
        0
    }
}

/// White cells among the first `n` data cells of a word.
pub open spec fn white_cells(word: u16, n: int) -> int
    decreases n,
{
    if n <= 0 {
        0
    } else {
        white_cells(word, n - 1) + bit(marker::white_at(word, (n - 1) / 4, (n - 1) % 4))
    }
}

/// Data cells among the first `k` cells of a printed grid.
spec fn data_cells_before(k: int) -> int {
    let (r, c) = (k / 6, k % 6);
    if r < 1 {
        0
    } else if r > 4 {
        16
    } else if c < 1 {
        4 * (r - 1)
    } else if c > 4 {
        4 * r
    } else {
        4 * (r - 1) + c - 1
    }
}

proof fn lemma_white_rects(cells: CellGrid, word: u16, k: int)
    requires
        marker::prints_word(cells, word),
        0 <= k <= 36,
    ensures
        cell_ops(cells, k).len() == white_cells(word, data_cells_before(k)),
    decreases k,
{
    if k > 0 {
        lemma_white_rects(cells, word, k - 1);
        let (r, c) = ((k - 1) / 6, (k - 1) % 6);
        if marker::is_border_cell(r, c) {
            assert(cells[r][c]);
            assert(data_cells_before(k) == data_cells_before(k - 1));
        } else {
            assert(marker::is_data_cell(r - 1, c - 1));
            assert(marker::white_at(word, r - 1, c - 1) == !cells[r - 1 + 1][c - 1 + 1]);
            let n = data_cells_before(k);
            assert(n == data_cells_before(k - 1) + 1);
            assert((n - 1) / 4 == r - 1 && (n - 1) % 4 == c - 1);
        }
    }
}

/// A page paints one white rectangle per white cell of the dictionary word.
pub proof fn law_white_rects_match_word(cells: CellGrid, word: u16)
    requires
        marker::prints_word(cells, word),
    ensures
        cell_ops(cells, 36).len() == white_cells(word, 16),
{
    lemma_white_rects(cells, word, 36);
}

/// The bytes of a text.
pub open spec fn bytes_of(s: Seq<char>) -> Seq<u8> {
    vstd::utf8::encode_utf8(s)
}

/// References to the page objects, separated by blanks.
pub open spec fn kids(n: int) -> Seq<char>
    decreases n,
{
    if n <= 0 {
        Seq::empty()
    } else if n == 1 {
        text::decimal(5) + " 0 R"@
    } else {
        kids(n - 1) + " "@ + text::decimal(5 + 2 * (n - 1)) + " 0 R"@
    }
}

/// Page size in points.
pub open spec fn media_box() -> Seq<char> {
    "[0 0 "@ + points(PAGE_W_UM as int) + " "@ + points(PAGE_H_UM as int) + "]"@
}

/// Body of object `k + 1`: catalog, page tree, the two fonts, then a page and
/// its content stream for every stream.
pub open spec fn object_body(streams: Seq<Seq<char>>, k: int) -> Seq<char> {
    if k == 0 {
        "<< /Type /Catalog /Pages 2 0 R >>"@
    } else if k == 1 {
        "<< /Type /Pages /Kids ["@ + kids(streams.len() as int) + "] /Count "@ + text::decimal(
            streams.len() as int,
        ) + " >>"@
    } else if k == 2 {
        "<< /Type /Font /Subtype /Type1 /BaseFont /Helvetica >>"@
    } else if k == 3 {
        "<< /Type /Font /Subtype /Type1 /BaseFont /Helvetica-Bold >>"@
    } else if k % 2 == 0 {
        "<< /Type /Page /Parent 2 0 R /MediaBox "@ + media_box()
            + " /Resources << /Font << /F1 3 0 R /F2 4 0 R >> >> /Contents "@ + text::decimal(
            k + 2,
        ) + " 0 R >>"@
    } else {
        let stream = streams[(k - 5) / 2];
        "<< /Length "@ + text::decimal(bytes_of(stream).len() as int) + " >>\nstream\n"@ + stream
            + "endstream"@
    }
}

/// What an object starts with.
pub open spec fn object_head(k: int) -> Seq<u8> {
    bytes_of(text::decimal(k + 1)) + bytes_of(" 0 obj\n"@)
}

/// Object `k + 1` in the file.
pub open spec fn object_bytes(streams: Seq<Seq<char>>, k: int) -> Seq<u8> {
    object_head(k) + bytes_of(object_body(streams, k)) + bytes_of("\nendobj\n"@)
}

/// Number of objects.
pub open spec fn object_count(streams: Seq<Seq<char>>) -> int {
    4 + 2 * (streams.len() as int)
}

/// File header: version line, and a comment of non-ASCII bytes that marks the
/// file as binary.
pub open spec fn header() -> Seq<u8> {
    bytes_of("%PDF-1.4\n%"@) + seq![0xB5u8, 0xB2u8, 0xB5u8, 0xB2u8, 10u8]
}

/// The file up to and without object `k + 1`.
pub open spec fn body(streams: Seq<Seq<char>>, k: int) -> Seq<u8>
    decreases k,
{
    if k <= 0 {
        header()
    } else {
        body(streams, k - 1) + object_bytes(streams, k - 1)
    }
}

/// Byte offset of object `k + 1`.
pub open spec fn offset(streams: Seq<Seq<char>>, k: int) -> int {
    body(streams, k).len() as int
}

/// An offset with leading zeros, ten digits at least.
pub open spec fn ten_digits(n: int) -> Seq<char> {
    if n < 10_000_000_000 {
        text::padded(n, 10)
    } else {
        text::decimal(n)
    }
}

/// Cross-reference entries of the first `k` objects.
pub open spec fn xref_entries(streams: Seq<Seq<char>>, k: int) -> Seq<char>
    decreases k,
{
    if k <= 0 {
        Seq::empty()
    } else {
        xref_entries(streams, k - 1) + ten_digits(offset(streams, k - 1)) + " 00000 n \n"@
    }
}

/// What the cross-reference table starts with: the number of its entries, and the
/// entry that is never in use.
pub open spec fn table_head(streams: Seq<Seq<char>>) -> Seq<char> {
    "xref\n0 "@ + text::decimal(object_count(streams) + 1) + "\n0000000000 65535 f \n"@
}

/// Where the entry of object `k + 1` stands in the file.
pub open spec fn entry_at(streams: Seq<Seq<char>>, k: int) -> int {
    offset(streams, object_count(streams)) + table_head(streams).len() + 20 * k
}

/// Cross-reference table and trailer.
pub open spec fn xref_of(streams: Seq<Seq<char>>) -> Seq<char> {
    let n = object_count(streams);
    table_head(streams) + xref_entries(streams, n) + "trailer\n<< /Size "@ + text::decimal(n + 1) + " /Root 1 0 R >>\nstartxref\n"@
        + text::decimal(offset(streams, n)) + "\n%%EOF\n"@
}

/// The whole file.
pub open spec fn pdf_of(streams: Seq<Seq<char>>) -> Seq<u8> {
    body(streams, object_count(streams)) + bytes_of(xref_of(streams))
}

/// The file up to an object is a prefix of the file up to a later one.
proof fn lemma_body_prefix(streams: Seq<Seq<char>>, k: int, n: int)
    requires
        0 <= k <= n,
    ensures
        body(streams, k).len() <= body(streams, n).len(),
        body(streams, n).take(body(streams, k).len() as int) == body(streams, k),
    decreases n - k,
{
    if k < n {
        lemma_body_prefix(streams, k, n - 1);
        let len = body(streams, k).len() as int;
        assert(body(streams, n).take(len) =~= body(streams, n - 1).take(len));
    } else {
        assert(body(streams, n).take(body(streams, k).len() as int) =~= body(streams, k));
    }
}

/// Every cross-reference offset points at its object, and the last one at the
/// table itself.
pub proof fn law_offsets_point_at_objects(streams: Seq<Seq<char>>, k: int)
    requires
        0 <= k < object_count(streams),
    ensures
        pdf_of(streams).skip(offset(streams, k)).take(object_head(k).len() as int)
            == object_head(k),
        pdf_of(streams).skip(offset(streams, object_count(streams))) == bytes_of(xref_of(streams)),
{
    let n = object_count(streams);
    lemma_body_prefix(streams, k, n);
    lemma_body_prefix(streams, k + 1, n);
    let all = pdf_of(streams);
    let at = offset(streams, k);
    let head = object_head(k);
    let next = body(streams, k + 1);
    assert forall|i: int| 0 <= i < head.len() implies all.skip(at).take(head.len() as int)[i]
        == head[i] by {
        assert(next[at + i] == head[i]);
        assert(body(streams, n).take(next.len() as int)[at + i] == next[at + i]);
    }
    assert(all.skip(at).take(head.len() as int) =~= head);
    assert(all.skip(offset(streams, n)) =~= bytes_of(xref_of(streams)));
}

/// The entries of a small file are 20 bytes long and ASCII.
proof fn lemma_entries(streams: Seq<Seq<char>>, k: int, n: int)
    requires
        0 <= n,
        body(streams, n).len() < 10_000_000_000,
    ensures
        xref_entries(streams, n).len() == 20 * n,
        vstd::utf8::is_ascii_chars(xref_entries(streams, n)),
        0 <= k < n ==> xref_entries(streams, n).subrange(20 * k, 20 * k + 10)
            == text::padded(offset(streams, k), 10),
        0 <= k < n ==> xref_entries(streams, n).subrange(20 * k + 10, 20 * k + 20)
            == " 00000 n \n"@,
    decreases n,
{
    if n > 0 {
        lemma_body_prefix(streams, n - 1, n);
        lemma_entries(streams, k, n - 1);
        let o = offset(streams, n - 1);
        text::lemma_padded_writes(o, 10);
        reveal_strlit(" 00000 n \n");
        let (before, all) = (xref_entries(streams, n - 1), xref_entries(streams, n));
        let digits = text::padded(o, 10);
        assert(all =~= before + digits + " 00000 n \n"@);
        assert(vstd::utf8::is_ascii_chars(all)) by {
            assert forall|i: int| 0 <= i < all.len() implies '\0' <= #[trigger] all[i]
                <= '\u{7f}' by {
                if i < before.len() {
                    assert(all[i] == before[i]);
                } else if i < before.len() + 10 {
                    assert(all[i] == digits[i - before.len()]);
                } else {
                    assert(all[i] == " 00000 n \n"@[i - before.len() - 10]);
                }
            }
        }
        if 0 <= k < n - 1 {
            assert(all.subrange(20 * k, 20 * k + 10) =~= before.subrange(20 * k, 20 * k + 10));
            assert(all.subrange(20 * k + 10, 20 * k + 20) =~= before.subrange(
                20 * k + 10,
                20 * k + 20,
            ));
        } else if k == n - 1 {
            assert(all.subrange(20 * k, 20 * k + 10) =~= digits);
            assert(all.subrange(20 * k + 10, 20 * k + 20) =~= " 00000 n \n"@);
        }
    }
}

/// Ten digits write every number that has no more.
proof fn lemma_ten_digits_suffice(n: int)
    requires
        0 <= n < 10_000_000_000,
    ensures
        text::are_digits(bytes_of(text::padded(n, 10))),
        text::number(bytes_of(text::padded(n, 10))) == n,
{
    assert(vstd::arithmetic::power::pow(10, 10) == 10_000_000_000) by {
        reveal(vstd::arithmetic::power::pow);
        reveal_with_fuel(vstd::arithmetic::power::pow, 11);
    }
    text::lemma_padded_writes(n, 10);
}

/// A part of an ASCII text, in bytes.
proof fn lemma_part_bytes(s: Seq<char>, i: int, j: int)
    requires
        vstd::utf8::is_ascii_chars(s),
        0 <= i <= j <= s.len(),
    ensures
        bytes_of(s).len() == s.len(),
        bytes_of(s).subrange(i, j) == bytes_of(s.subrange(i, j)),
{
    let part = s.subrange(i, j);
    vstd::utf8::is_ascii_chars_encode_utf8(s);
    assert(vstd::utf8::is_ascii_chars(part));
    vstd::utf8::is_ascii_chars_encode_utf8(part);
    assert(bytes_of(s).subrange(i, j) =~= bytes_of(part)) by {
        assert forall|k: int| 0 <= k < part.len() implies bytes_of(s).subrange(i, j)[k]
            == bytes_of(part)[k] by {
            assert(part[k] == s[i + k]);
        }
    }
}

/// What stands between the entries and the offset of the table.
spec fn trailer_text(streams: Seq<Seq<char>>) -> Seq<char> {
    "trailer\n<< /Size "@ + text::decimal(object_count(streams) + 1)
        + " /Root 1 0 R >>\nstartxref\n"@
}

proof fn lemma_ascii_joins(a: Seq<char>, b: Seq<char>)
    requires
        vstd::utf8::is_ascii_chars(a),
        vstd::utf8::is_ascii_chars(b),
    ensures
        vstd::utf8::is_ascii_chars(a + b),
{
    let s = a + b;
    assert forall|i: int| 0 <= i < s.len() implies '\0' <= #[trigger] s[i] <= '\u{7f}' by {
        if i < a.len() {
            assert(s[i] == a[i]);
        } else {
            assert(s[i] == b[i - a.len()]);
        }
    }
}

/// What stands around the entries is ASCII.
proof fn lemma_frame_is_ascii(streams: Seq<Seq<char>>)
    ensures
        vstd::utf8::is_ascii_chars(table_head(streams)),
        vstd::utf8::is_ascii_chars(trailer_text(streams)),
        vstd::utf8::is_ascii_chars("\n%%EOF\n"@),
{
    let count = text::decimal(object_count(streams) + 1);
    text::lemma_decimal_writes(object_count(streams) + 1);
    reveal_strlit("xref\n0 ");
    reveal_strlit("\n0000000000 65535 f \n");
    reveal_strlit("trailer\n<< /Size ");
    reveal_strlit(" /Root 1 0 R >>\nstartxref\n");
    reveal_strlit("\n%%EOF\n");
    lemma_ascii_joins("xref\n0 "@, count);
    lemma_ascii_joins("xref\n0 "@ + count, "\n0000000000 65535 f \n"@);
    lemma_ascii_joins("trailer\n<< /Size "@, count);
    lemma_ascii_joins("trailer\n<< /Size "@ + count, " /Root 1 0 R >>\nstartxref\n"@);
}

/// Cross-reference table and trailer of a small file are ASCII.
#[verifier::rlimit(40)]
proof fn lemma_xref_parts(streams: Seq<Seq<char>>)
    requires
        pdf_of(streams).len() < 10_000_000_000,
    ensures
        ({
            let n = object_count(streams);
            let digits = text::decimal(offset(streams, n));
            &&& xref_of(streams) == table_head(streams) + xref_entries(streams, n) + trailer_text(
                streams,
            ) + digits + "\n%%EOF\n"@
            &&& vstd::utf8::is_ascii_chars(table_head(streams))
            &&& vstd::utf8::is_ascii_chars(xref_of(streams))
            &&& bytes_of(xref_of(streams)).len() == xref_of(streams).len()
        }),
{
    let n = object_count(streams);
    let digits = text::decimal(offset(streams, n));
    let (head, entries) = (table_head(streams), xref_entries(streams, n));
    let trailer = trailer_text(streams);
    text::lemma_decimal_writes(offset(streams, n));
    lemma_entries(streams, 0, n);
    lemma_frame_is_ascii(streams);
    lemma_ascii_joins(head, entries);
    lemma_ascii_joins(head + entries, trailer);
    lemma_ascii_joins(head + entries + trailer, digits);
    lemma_ascii_joins(head + entries + trailer + digits, "\n%%EOF\n"@);
    assert(xref_of(streams) =~= head + entries + trailer + digits + "\n%%EOF\n"@);
    vstd::utf8::is_ascii_chars_encode_utf8(xref_of(streams));
}

/// The entry of an object in the text of the table.
#[verifier::rlimit(40)]
proof fn lemma_entry_text(streams: Seq<Seq<char>>, k: int)
    requires
        0 <= k < object_count(streams),
        pdf_of(streams).len() < 10_000_000_000,
    ensures
        ({
            let x = xref_of(streams);
            let i = table_head(streams).len() + 20 * k;
            &&& i + 20 <= x.len()
            &&& x.subrange(i, i + 10) == text::padded(offset(streams, k), 10)
            &&& x.subrange(i + 10, i + 20) == " 00000 n \n"@
        }),
{
    let n = object_count(streams);
    let entries = xref_entries(streams, n);
    let x = xref_of(streams);
    let i = table_head(streams).len() + 20 * k;
    lemma_xref_parts(streams);
    lemma_entries(streams, k, n);
    assert(x.subrange(i, i + 10) =~= entries.subrange(20 * k, 20 * k + 10));
    assert(x.subrange(i + 10, i + 20) =~= entries.subrange(20 * k + 10, 20 * k + 20));
}

/// The object is where its offset says.
proof fn lemma_object_at_offset(streams: Seq<Seq<char>>, k: int)
    requires
        0 <= k < object_count(streams),
    ensures
        ({
            let pdf = pdf_of(streams);
            let o = offset(streams, k);
            let size = object_head(k).len();
            &&& 0 <= o && o + size <= offset(streams, object_count(streams)) <= pdf.len()
            &&& pdf.subrange(o, o + size) == object_head(k)
        }),
{
    let pdf = pdf_of(streams);
    let o = offset(streams, k);
    let size = object_head(k).len() as int;
    lemma_body_prefix(streams, k, object_count(streams));
    lemma_body_prefix(streams, k + 1, object_count(streams));
    law_offsets_point_at_objects(streams, k);
    assert(body(streams, k + 1).len() >= o + size);
    assert(pdf.subrange(o, o + size) =~= pdf.skip(o).take(size));
}

/// The cross-reference table is right: its entry for an object is 20 bytes, of which
/// the first ten write in decimal where in the file the object begins.
#[verifier::rlimit(40)]
pub proof fn law_entry_writes_offset(streams: Seq<Seq<char>>, k: int)
    requires
        0 <= k < object_count(streams),
        pdf_of(streams).len() < 10_000_000_000,
    ensures
        ({
            let pdf = pdf_of(streams);
            let at = entry_at(streams, k);
            let written = pdf.subrange(at, at + 10);
            let begin = text::number(written);
            &&& 0 <= at && at + 20 <= pdf.len()
            &&& text::are_digits(written)
            &&& pdf.subrange(at + 10, at + 20) == bytes_of(" 00000 n \n"@)
            &&& 0 <= begin && begin + object_head(k).len() <= pdf.len()
            &&& pdf.subrange(begin, begin + object_head(k).len()) == object_head(k)
        }),
{
    let pdf = pdf_of(streams);
    let x = xref_of(streams);
    let at = entry_at(streams, k);
    let i = table_head(streams).len() + 20 * k;
    lemma_xref_parts(streams);
    lemma_entry_text(streams, k);
    lemma_object_at_offset(streams, k);
    lemma_part_bytes(x, i, i + 10);
    lemma_part_bytes(x, i + 10, i + 20);
    assert(pdf.subrange(at, at + 10) =~= bytes_of(x).subrange(i, i + 10));
    assert(pdf.subrange(at + 10, at + 20) =~= bytes_of(x).subrange(i + 10, i + 20));
    lemma_ten_digits_suffice(offset(streams, k));
}

/// The mark before the offset of the table ends the trailer.
proof fn lemma_trailer_ends(streams: Seq<Seq<char>>)
    ensures
        ({
            let trailer = trailer_text(streams);
            &&& trailer.len() >= 10
            &&& trailer.subrange(trailer.len() - 10, trailer.len() as int) == "startxref\n"@
        }),
{
    let trailer = trailer_text(streams);
    let mark = " /Root 1 0 R >>\nstartxref\n"@;
    reveal_strlit("startxref\n");
    reveal_strlit(" /Root 1 0 R >>\nstartxref\n");
    assert(trailer.subrange(trailer.len() - 10, trailer.len() as int) =~= mark.subrange(
        mark.len() - 10,
        mark.len() as int,
    ));
    assert(mark.subrange(mark.len() - 10, mark.len() as int) =~= "startxref\n"@);
}

/// No decimal digit is a letter.
proof fn lemma_digits_hold_no_letter(n: int, i: int)
    requires
        0 <= n,
        0 <= i < text::decimal(n).len(),
    ensures
        text::decimal(n)[i] != 's',
{
    text::lemma_decimal_writes(n);
    vstd::utf8::is_ascii_chars_encode_utf8(text::decimal(n));
    assert(text::decimal(n)[i] as u8 == bytes_of(text::decimal(n))[i]);
}

/// The end of the file, in the text of table and trailer.
#[verifier::rlimit(40)]
proof fn lemma_end_text(streams: Seq<Seq<char>>)
    requires
        pdf_of(streams).len() < 10_000_000_000,
    ensures
        ({
            let x = xref_of(streams);
            let digits = text::decimal(offset(streams, object_count(streams)));
            let head = table_head(streams);
            let (i, j) = (x.len() - 7 - digits.len(), x.len() - 7);
            &&& i >= 10
            &&& head.len() <= i
            &&& x.subrange(0, head.len() as int) == head
            &&& x.subrange(i - 10, i) == "startxref\n"@
            &&& x.subrange(i, j) == digits
            &&& x.subrange(j, x.len() as int) == "\n%%EOF\n"@
            &&& forall|l: int| i - 10 < l < x.len() ==> #[trigger] x[l] != 's'
        }),
{
    let n = object_count(streams);
    let x = xref_of(streams);
    let digits = text::decimal(offset(streams, n));
    let (head, entries) = (table_head(streams), xref_entries(streams, n));
    let trailer = trailer_text(streams);
    let eof = "\n%%EOF\n"@;
    let mark = "startxref\n"@;
    lemma_xref_parts(streams);
    lemma_trailer_ends(streams);
    reveal_strlit("startxref\n");
    reveal_strlit("\n%%EOF\n");
    let front = head + entries + trailer;
    let (i, j) = (x.len() - 7 - digits.len(), x.len() - 7);
    assert(x =~= front + digits + eof);
    assert(i == front.len());
    assert(x.subrange(0, head.len() as int) =~= head);
    assert(x.subrange(i - 10, i) =~= trailer.subrange(trailer.len() - 10, trailer.len() as int));
    assert(x.subrange(i, j) =~= digits);
    assert(x.subrange(j, x.len() as int) =~= eof);
    assert forall|l: int| i - 10 < l < x.len() implies #[trigger] x[l] != 's' by {
        if l < i {
            assert(x[l] == x.subrange(i - 10, i)[l - (i - 10)]);
            assert(x[l] == mark[l - (i - 10)]);
        } else if l < j {
            lemma_digits_hold_no_letter(offset(streams, n), l - i);
            assert(x[l] == digits[l - i]);
        } else {
            assert(x[l] == eof[l - j]);
        }
    }
}

/// The file ends by saying where the cross-reference table begins: behind its last
/// mark "startxref" stands the offset of the table, in decimal, and there the table
/// begins.
#[verifier::rlimit(40)]
pub proof fn law_startxref_writes_table_offset(streams: Seq<Seq<char>>)
    requires
        pdf_of(streams).len() < 10_000_000_000,
    ensures
        ({
            let pdf = pdf_of(streams);
            let end = pdf.len() - 7;
            let at = end - text::decimal(offset(streams, object_count(streams))).len();
            let written = pdf.subrange(at, end);
            let table = text::number(written);
            let head = bytes_of(table_head(streams));
            &&& 10 <= at
            &&& pdf.subrange(at - 10, at) == bytes_of("startxref\n"@)
            &&& forall|i: int| at - 10 < i < pdf.len() ==> #[trigger] pdf[i] != 115
            &&& text::are_digits(written)
            &&& pdf.subrange(end, pdf.len() as int) == bytes_of("\n%%EOF\n"@)
            &&& 0 <= table && table + head.len() <= pdf.len()
            &&& pdf.subrange(table, table + head.len()) == head
        }),
{
    let n = object_count(streams);
    let pdf = pdf_of(streams);
    let x = xref_of(streams);
    let t = offset(streams, n);
    let digits = text::decimal(t);
    let head = table_head(streams);
    lemma_xref_parts(streams);
    lemma_end_text(streams);
    text::lemma_decimal_writes(t);
    vstd::utf8::is_ascii_chars_encode_utf8(x);
    vstd::utf8::is_ascii_chars_encode_utf8(head);
    let (i, j) = (x.len() - 7 - digits.len(), x.len() - 7);
    lemma_part_bytes(x, i, j);
    lemma_part_bytes(x, j, x.len() as int);
    lemma_part_bytes(x, i - 10, i);
    lemma_part_bytes(x, 0, head.len() as int);
    let (at, end) = (t + i, t + j);
    assert(pdf.subrange(at, end) =~= bytes_of(x).subrange(i, j));
    assert(pdf.subrange(end, pdf.len() as int) =~= bytes_of(x).subrange(j, x.len() as int));
    assert(pdf.subrange(at - 10, at) =~= bytes_of(x).subrange(i - 10, i));
    assert(pdf.subrange(t, t + head.len()) =~= bytes_of(x).subrange(0, head.len() as int));
    assert forall|l: int| at - 10 < l < pdf.len() implies #[trigger] pdf[l] != 115 by {
        assert(pdf[l] == bytes_of(x)[l - t]);
        assert(x[l - t] as u8 == bytes_of(x)[l - t]);
        assert(x[l - t] != 's');
    }
}

/// Append a text's bytes.
fn emit(out: &mut Vec<u8>, s: &str)
    ensures
        final(out)@ == old(out)@ + bytes_of(s@),
{
    out.extend_from_slice(s.as_bytes());
    assert(out@ =~= old(out)@ + bytes_of(s@));
}

/// What the streams hold.
pub open spec fn views(streams: Seq<String>) -> Seq<Seq<char>> {
    streams.map_values(|s: String| s@)
}

fn kids_list(n: usize) -> (s: String)
    requires
        2 * n + 7 <= usize::MAX,
    ensures
        s@ == kids(n as int),
{
    let mut s: String = String::new();
    let mut i: usize = 0;
    while i < n
        invariant
            i <= n,
            2 * n + 7 <= usize::MAX,
            s@ == kids(i as int),
        decreases n - i,
    {
        let ghost before = s@;
        if i > 0 {
            s.append(" ");
        }
        append_decimal(&mut s, 5 + 2 * i as u64);
        s.append(" 0 R");
        i = i + 1;
        assert(s@ =~= kids(i as int));
    }
    s
}

/// Body of object `k + 1`.
fn object_text(page_streams: &[String], k: usize) -> (s: String)
    requires
        2 * page_streams@.len() + 7 <= usize::MAX,
        k < object_count(views(page_streams@)),
    ensures
        s@ == object_body(views(page_streams@), k as int),
{
    if k == 0 {
        return String::from_str("<< /Type /Catalog /Pages 2 0 R >>");
    }
    if k == 1 {
        let mut s: String = String::from_str("<< /Type /Pages /Kids [");
        s.append(kids_list(page_streams.len()).as_str());
        s.append("] /Count ");
        append_decimal(&mut s, page_streams.len() as u64);
        s.append(" >>");
        return s;
    }
    if k == 2 {
        return String::from_str("<< /Type /Font /Subtype /Type1 /BaseFont /Helvetica >>");
    }
    if k == 3 {
        return String::from_str("<< /Type /Font /Subtype /Type1 /BaseFont /Helvetica-Bold >>");
    }
    if k % 2 == 0 {
        let mut s: String = String::from_str("<< /Type /Page /Parent 2 0 R /MediaBox ");
        s.append("[0 0 ");
        append_points(&mut s, PAGE_W_UM);
        s.append(" ");
        append_points(&mut s, PAGE_H_UM);
        s.append("]");
        s.append(" /Resources << /Font << /F1 3 0 R /F2 4 0 R >> >> /Contents ");
        append_decimal(&mut s, k as u64 + 2);
        s.append(" 0 R >>");
        assert(s@ =~= object_body(views(page_streams@), k as int));
        return s;
    }
    let stream: &String = &page_streams[(k - 5) / 2];
    let mut s: String = String::from_str("<< /Length ");
    append_decimal(&mut s, stream.as_str().as_bytes().len() as u64);
    s.append(" >>\nstream\n");
    s.append(stream.as_str());
    s.append("endstream");
    s
}

/// Assemble the final PDF: fixed object numbering, uncompressed streams,
/// correct xref offsets.
pub fn build_pdf(page_streams: &[String]) -> (pdf: Vec<u8>)
    requires
        2 * page_streams@.len() + 7 <= usize::MAX,
    ensures
        pdf@ == pdf_of(views(page_streams@)),
{
    let ghost streams = views(page_streams@);
    let mut out: Vec<u8> = Vec::new();
    emit(&mut out, "%PDF-1.4\n%");
    out.push(0xB5);
    out.push(0xB2);
    out.push(0xB5);
    out.push(0xB2);
    out.push(10);
    assert(out@ =~= header());
    let total: usize = 4 + 2 * page_streams.len();
    let mut entries: String = String::new();
    let mut k: usize = 0;
    while k < total
        invariant
            k <= total,
            total == object_count(streams),
            streams == views(page_streams@),
            2 * page_streams@.len() + 7 <= usize::MAX,
            out@ == body(streams, k as int),
            entries@ == xref_entries(streams, k as int),
        decreases total - k,
    {
        append_ten_digits(&mut entries, out.len() as u64);
        entries.append(" 00000 n \n");
        assert(entries@ =~= xref_entries(streams, k + 1));
        let mut number: String = String::new();
        append_decimal(&mut number, k as u64 + 1);
        assert(number@ =~= text::decimal(k + 1));
        emit(&mut out, number.as_str());
        emit(&mut out, " 0 obj\n");
        emit(&mut out, object_text(page_streams, k).as_str());
        emit(&mut out, "\nendobj\n");
        assert(out@ =~= body(streams, k + 1));
        k = k + 1;
    }
    let mut xref: String = String::from_str("xref\n0 ");
    append_decimal(&mut xref, total as u64 + 1);
    xref.append("\n0000000000 65535 f \n");
    xref.append(entries.as_str());
    xref.append("trailer\n<< /Size ");
    append_decimal(&mut xref, total as u64 + 1);
    xref.append(" /Root 1 0 R >>\nstartxref\n");
    append_decimal(&mut xref, out.len() as u64);
    xref.append("\n%%EOF\n");
    emit(&mut out, xref.as_str());
    out
}

fn append_ten_digits(s: &mut String, n: u64)
    ensures
        final(s)@ == old(s)@ + ten_digits(n as int),
{
    if n < 10_000_000_000 {
        append_padded(s, n, 10);
    } else {
        append_decimal(s, n);
    }
}

/// `pdf` is the complete document for a left and a right marker grid.
pub open spec fn is_document(pdf: Seq<u8>, left: CellGrid, right: CellGrid) -> bool {
    pdf == pdf_of(
        seq![
            stream_of(page_ops(1, LEFT_MARKER_ID as int, "A"@, "LEFT"@, left)),
            stream_of(page_ops(2, RIGHT_MARKER_ID as int, "B"@, "RIGHT"@, right)),
        ],
    )
}

/// The complete two-page Reference Marker PDF.
pub fn generate_pdf() -> (pdf: Vec<u8>)
    ensures
        exists|left: CellGrid, right: CellGrid|
            marker::prints_word(left, marker::LEFT_WORD) && marker::prints_word(
                right,
                marker::RIGHT_WORD,
            ) && #[trigger] is_document(pdf@, left, right),
{
    let first: String = draw_page(1, LEFT_MARKER_ID, "A", "LEFT");
    let second: String = draw_page(2, RIGHT_MARKER_ID, "B", "RIGHT");
    let ghost left = choose|cells: CellGrid| #[trigger]
        marker::prints_word(cells, marker::LEFT_WORD) && first@ == stream_of(
            page_ops(1, LEFT_MARKER_ID as int, "A"@, "LEFT"@, cells),
        );
    let ghost right = choose|cells: CellGrid| #[trigger]
        marker::prints_word(cells, marker::RIGHT_WORD) && second@ == stream_of(
            page_ops(2, RIGHT_MARKER_ID as int, "B"@, "RIGHT"@, cells),
        );
    let mut streams: Vec<String> = Vec::new();
    streams.push(first);
    streams.push(second);
    let pdf: Vec<u8> = build_pdf(streams.as_slice());
    proof {
        assert(views(streams@) =~= seq![
            stream_of(page_ops(1, LEFT_MARKER_ID as int, "A"@, "LEFT"@, left)),
            stream_of(page_ops(2, RIGHT_MARKER_ID as int, "B"@, "RIGHT"@, right)),
        ]);
        assert(is_document(pdf@, left, right));
    }
    pdf
}

/// A printed grid is determined by its word.
pub proof fn lemma_print_is_unique(a: CellGrid, b: CellGrid, word: u16)
    requires
        marker::prints_word(a, word),
        marker::prints_word(b, word),
    ensures
        forall|r: int, c: int| #![trigger a[r][c]] 0 <= r < 6 && 0 <= c < 6 ==> a[r][c] == b[r][c],
{
    assert forall|r: int, c: int| #![trigger a[r][c]] 0 <= r < 6 && 0 <= c < 6 implies a[r][c]
        == b[r][c] by {
        if marker::is_border_cell(r, c) {
            assert(b[r][c]);
        } else {
            assert(marker::is_data_cell(r - 1, c - 1));
            assert(marker::white_at(word, r - 1, c - 1) == !a[r - 1 + 1][c - 1 + 1]);
            assert(marker::white_at(word, r - 1, c - 1) == !b[r - 1 + 1][c - 1 + 1]);
        }
    }
}

proof fn lemma_cell_ops_agree(a: CellGrid, b: CellGrid, n: int)
    requires
        forall|r: int, c: int| #![trigger a[r][c]] 0 <= r < 6 && 0 <= c < 6 ==> a[r][c] == b[r][c],
        0 <= n <= 36,
    ensures
        cell_ops(a, n) == cell_ops(b, n),
    decreases n,
{
    if n > 0 {
        lemma_cell_ops_agree(a, b, n - 1);
        assert(a[(n - 1) / 6][(n - 1) % 6] == b[(n - 1) / 6][(n - 1) % 6]);
    }
}

/// The document is reproducible byte for byte: there is only one.
pub proof fn law_document_is_reproducible(
    pdf1: Seq<u8>,
    left1: CellGrid,
    right1: CellGrid,
    pdf2: Seq<u8>,
    left2: CellGrid,
    right2: CellGrid,
)
    requires
        marker::prints_word(left1, marker::LEFT_WORD),
        marker::prints_word(left2, marker::LEFT_WORD),
        marker::prints_word(right1, marker::RIGHT_WORD),
        marker::prints_word(right2, marker::RIGHT_WORD),
        is_document(pdf1, left1, right1),
        is_document(pdf2, left2, right2),
    ensures
        pdf1 == pdf2,
{
    lemma_print_is_unique(left1, left2, marker::LEFT_WORD);
    lemma_print_is_unique(right1, right2, marker::RIGHT_WORD);
    lemma_cell_ops_agree(left1, left2, 36);
    lemma_cell_ops_agree(right1, right2, 36);
}

} // verus!

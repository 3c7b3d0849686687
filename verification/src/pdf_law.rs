//! What the printed page shows: the marker, the quiet zone and the ruler as ink on paper.
use vstd::prelude::*;

use crate::decode;
use crate::marker;
use crate::marker::CellGrid;
use crate::pdf;
use crate::pdf::Op;
use crate::text;

verus! {

/// Whether paper is white at a point after drawing in order, each rectangle over what was
/// there. The point is in micrometres from the top left of the page.
pub open spec fn is_white(ops: Seq<Op>, x: int, y: int) -> bool
    decreases ops.len(),
{
    if ops.len() == 0 {
        true
    } else {
        match ops.last() {
            Op::Rect { x: left, y: top, w, h, white } => if left <= x < left + w && top <= y < top
                + h {
                white
            } else {
                is_white(ops.drop_last(), x, y)
            },
            Op::Text { .. } => is_white(ops.drop_last(), x, y),
        }
    }
}

/// `ops` leaves a point as it is.
spec fn spares(ops: Seq<Op>, x: int, y: int) -> bool {
    forall|i: int| 0 <= i < ops.len() ==> spares_one(#[trigger] ops[i], x, y)
}

spec fn spares_one(op: Op, x: int, y: int) -> bool {
    match op {
        Op::Rect { x: left, y: top, w, h, white } => !(left <= x < left + w && top <= y < top + h),
        Op::Text { .. } => true,
    }
}

proof fn lemma_spared(before: Seq<Op>, ops: Seq<Op>, x: int, y: int)
    requires
        spares(ops, x, y),
    ensures
        is_white(before + ops, x, y) == is_white(before, x, y),
    decreases ops.len(),
{
    if ops.len() == 0 {
        assert(before + ops =~= before);
    } else {
        let rest = ops.drop_last();
        assert forall|i: int| 0 <= i < rest.len() implies spares_one(#[trigger] rest[i], x, y) by {
            assert(rest[i] == ops[i]);
        }
        lemma_spared(before, rest, x, y);
        assert((before + ops).drop_last() =~= before + rest);
        assert((before + ops).last() == ops.last());
        assert(spares_one(ops[ops.len() - 1], x, y));
    }
}

/// The white cells punched into the square, at a point of cell (r, c).
proof fn lemma_cells(before: Seq<Op>, cells: CellGrid, n: int, r: int, c: int, dx: int, dy: int)
    requires
        0 <= n <= 36,
        0 <= r < 6,
        0 <= c < 6,
        0 <= dx < 25_000,
        0 <= dy < 25_000,
    ensures
        ({
            let l = pdf::page_layout();
            let (x, y) = (
                l.marker_x_um + 25_000 * c + dx,
                l.marker_top_um + 25_000 * r + dy,
            );
            is_white(before + pdf::cell_ops(cells, n), x, y) == (if 6 * r + c < n && !cells[r][c] {
                true
            } else {
                is_white(before, x, y)
            })
        }),
    decreases n,
{
    let l = pdf::page_layout();
    let (x, y) = (l.marker_x_um + 25_000 * c + dx, l.marker_top_um + 25_000 * r + dy);
    if n <= 0 {
        assert(before + pdf::cell_ops(cells, n) =~= before);
    } else {
        lemma_cells(before, cells, n - 1, r, c, dx, dy);
        let (s, d) = ((n - 1) / 6, (n - 1) % 6);
        if !cells[s][d] {
            let ops = pdf::cell_ops(cells, n);
            assert((before + ops).drop_last() =~= before + pdf::cell_ops(cells, n - 1));
            assert((before + ops).last() == pdf::cell_op(s, d));
        }
    }
}

/// Each point of cell (r, c) of the black square, counted from its top left corner in
/// steps of 25 mm to the right and down, is white on paper exactly where cell (r, c) of
/// the marker is.
pub proof fn law_page_shows_the_marker(
    page_no: int,
    id: int,
    letter: Seq<char>,
    wall_end: Seq<char>,
    cells: CellGrid,
    r: int,
    c: int,
    dx: int,
    dy: int,
)
    requires
        0 <= r < 6,
        0 <= c < 6,
        0 <= dx < 25_000,
        0 <= dy < 25_000,
    ensures
        ({
            let l = pdf::page_layout();
            is_white(
                pdf::page_ops(page_no, id, letter, wall_end, cells),
                l.marker_x_um + 25_000 * c + dx,
                l.marker_top_um + 25_000 * r + dy,
            ) == !cells[r][c]
        }),
{
    let l = pdf::page_layout();
    let (x, y) = (l.marker_x_um + 25_000 * c + dx, l.marker_top_um + 25_000 * r + dy);
    let all = pdf::page_ops(page_no, id, letter, wall_end, cells);
    let under = pdf::instruction_ops(page_no, id, letter, wall_end) + pdf::ruler_ops();
    let square = pdf::marker_ops(cells)[0];
    assert(all.drop_last() =~= under.push(square) + pdf::cell_ops(cells, 36));
    assert(under.push(square).drop_last() =~= under);
    lemma_cells(under.push(square), cells, 36, r, c, dx, dy);
}

/// Sampling the print of a marker, one point in each cell, reads its ID, upright.
pub proof fn law_print_reads_as_its_marker(
    page_no: int,
    id: u16,
    letter: Seq<char>,
    wall_end: Seq<char>,
    cells: CellGrid,
    white: CellGrid,
    dx: int,
    dy: int,
)
    requires
        marker::word_of(id) is Some,
        marker::prints_word(cells, marker::word_of(id)->0),
        0 <= dx < 25_000,
        0 <= dy < 25_000,
        forall|r: int, c: int|
            #![trigger white[r][c]]
            0 <= r < 6 && 0 <= c < 6 ==> white[r][c] == is_white(
                pdf::page_ops(page_no, id as int, letter, wall_end, cells),
                pdf::page_layout().marker_x_um + 25_000 * c + dx,
                pdf::page_layout().marker_top_um + 25_000 * r + dy,
            ),
    ensures
        decode::decodes_to(white, id, 0),
{
    assert forall|r: int, c: int| #![trigger cells[r][c]] 0 <= r < 6 && 0 <= c < 6 implies white[
    decode::grid_turned_from(0, r, c).0][decode::grid_turned_from(0, r, c).1] == !cells[r][c] by {
        law_page_shows_the_marker(page_no, id as int, letter, wall_end, cells, r, c, dx, dy);
        let v = white[r][c];
    }
    decode::law_printed_marker_decodes(white, cells, id, 0);
}

/// The ticks of the ruler, at a point above its band or anywhere below.
proof fn lemma_ticks(before: Seq<Op>, n: int, x: int, y: int)
    requires
        0 <= n <= 21,
    ensures
        is_white(before + pdf::tick_ops(n), x, y) == (if exists|k: int|
            0 <= k < n && on_tick(k, x, y) {
            false
        } else {
            is_white(before, x, y)
        }),
    decreases n,
{
    let l = pdf::page_layout();
    if n <= 0 {
        assert(before + pdf::tick_ops(n) =~= before);
    } else {
        lemma_ticks(before, n - 1, x, y);
        let mm = 10 * (n - 1);
        let ops = pdf::tick_ops(n);
        let mid = (before + pdf::tick_ops(n - 1)).push(pdf::tick_op(mm));
        assert((before + ops).drop_last() =~= mid);
        assert((before + ops).last() is Text);
        assert(is_white(before + ops, x, y) == is_white(mid, x, y));
        assert(mid.drop_last() =~= before + pdf::tick_ops(n - 1));
        assert(mid.last() == pdf::tick_op(mm));
        assert(pdf::tick_op(mm) matches Op::Rect { x: left, y: top, w, h, white } && (left <= x
            < left + w && top <= y < top + h) == on_tick(n - 1, x, y) && !white);
        if exists|k: int| 0 <= k < n && on_tick(k, x, y) {
            let k = choose|k: int| 0 <= k < n && on_tick(k, x, y);
            if k < n - 1 {
                assert(0 <= k < n - 1 && on_tick(k, x, y));
            }
        } else {
            assert(!on_tick(n - 1, x, y));
            assert(forall|k: int| 0 <= k < n - 1 ==> !on_tick(k, x, y));
        }
    }
}

/// A point of the tick at `k` centimetres: 0.35 mm wide, 4 mm high, 6 mm at every fifth.
spec fn on_tick(k: int, x: int, y: int) -> bool {
    let l = pdf::page_layout();
    &&& -175 <= x - (l.ruler_x_um + 10_000 * k) < 175
    &&& (if k % 5 == 0 {
        l.ruler_top_um - 6_000
    } else {
        l.ruler_top_um - 4_000
    }) <= y < l.ruler_top_um
}

/// What is on paper outside the black square.
proof fn lemma_outside(
    page_no: int,
    id: int,
    letter: Seq<char>,
    wall_end: Seq<char>,
    cells: CellGrid,
    x: int,
    y: int,
)
    requires
        ({
            let l = pdf::page_layout();
            !(l.marker_x_um <= x < l.marker_x_um + 150_000 && l.marker_top_um <= y < l.marker_top_um
                + 150_000)
        }),
    ensures
        ({
            let l = pdf::page_layout();
            let ink = (exists|k: int| 0 <= k <= 20 && on_tick(k, x, y)) || (l.ruler_x_um <= x
                < l.ruler_x_um + 200_000 && l.ruler_top_um <= y < l.ruler_top_um + 500);
            is_white(pdf::page_ops(page_no, id, letter, wall_end, cells), x, y) == !ink
        }),
{
    let l = pdf::page_layout();
    let all = pdf::page_ops(page_no, id, letter, wall_end, cells);
    let lines = pdf::instruction_ops(page_no, id, letter, wall_end);
    let band = pdf::ruler_ops()[0];
    let caption = pdf::ruler_ops().last();
    let m = pdf::marker_ops(cells);
    let under = lines + pdf::ruler_ops();
    assert forall|i: int| 0 <= i < m.len() implies spares_one(#[trigger] m[i], x, y) by {
        if i > 0 {
            lemma_cell_is_in_square(cells, 36, i - 1);
            assert(m[i] == pdf::cell_ops(cells, 36)[i - 1]);
        }
    }
    lemma_spared(under, m, x, y);
    assert(all.drop_last() =~= under + m);
    let marked = lines.push(band) + pdf::tick_ops(21);
    assert(under.drop_last() =~= marked);
    assert(under.last() == caption);
    lemma_ticks(lines.push(band), 21, x, y);
    assert(lines.push(band).drop_last() =~= lines);
    lemma_spared(Seq::empty(), lines, x, y);
    assert(Seq::<Op>::empty() + lines =~= lines);
    if exists|k: int| 0 <= k < 21 && on_tick(k, x, y) {
        let k = choose|k: int| 0 <= k < 21 && on_tick(k, x, y);
        assert(0 <= k <= 20 && on_tick(k, x, y));
    } else {
        assert(forall|k: int| 0 <= k <= 20 ==> !on_tick(k, x, y));
    }
}

/// A punched cell lies in the black square.
proof fn lemma_cell_is_in_square(cells: CellGrid, n: int, i: int)
    requires
        0 <= n <= 36,
        0 <= i < pdf::cell_ops(cells, n).len(),
    ensures
        exists|r: int, c: int|
            0 <= r < 6 && 0 <= c < 6 && pdf::cell_ops(cells, n)[i] == #[trigger] pdf::cell_op(r, c),
    decreases n,
{
    let (s, d) = ((n - 1) / 6, (n - 1) % 6);
    if n > 0 {
        if !cells[s][d] && i == pdf::cell_ops(cells, n).len() - 1 {
            assert(pdf::cell_ops(cells, n)[i] == pdf::cell_op(s, d));
        } else {
            lemma_cell_is_in_square(cells, n - 1, i);
        }
    }
}

/// Around the black square the paper stays white for one cell on every side.
pub proof fn law_quiet_zone_stays_white(
    page_no: int,
    id: int,
    letter: Seq<char>,
    wall_end: Seq<char>,
    cells: CellGrid,
    x: int,
    y: int,
)
    requires
        ({
            let l = pdf::page_layout();
            &&& l.marker_x_um - 25_000 <= x < l.marker_x_um + 175_000
            &&& l.marker_top_um - 25_000 <= y < l.marker_top_um + 175_000
            &&& !(l.marker_x_um <= x < l.marker_x_um + 150_000 && l.marker_top_um <= y
                < l.marker_top_um + 150_000)
        }),
    ensures
        is_white(pdf::page_ops(page_no, id, letter, wall_end, cells), x, y),
        0 <= x < 210_000,
        0 <= y < 297_000,
{
    lemma_outside(page_no, id, letter, wall_end, cells, x, y);
}

/// The ruler measures 200 mm end to end: its band is black from the first tick to the
/// last and white beyond, and of the 201 millimetre marks on it exactly the whole
/// centimetres carry a tick, those of five centimetres a longer one. Every tick has its
/// number of millimetres written below it, centred.
pub proof fn law_ruler_counts_millimetres(
    page_no: int,
    id: int,
    letter: Seq<char>,
    wall_end: Seq<char>,
    cells: CellGrid,
    mm: int,
)
    requires
        -4 <= mm <= 204,
    ensures
        ({
            let l = pdf::page_layout();
            let ops = pdf::page_ops(page_no, id, letter, wall_end, cells);
            let (x, top) = (l.ruler_x_um + 1000 * mm, l.ruler_top_um as int);
            &&& is_white(ops, x, top) == (mm < 0 || mm >= 200)
            &&& is_white(ops, x, top - 2_000) == (mm % 10 != 0)
            &&& is_white(ops, x, top - 5_000) == (mm % 50 != 0)
            &&& 0 <= mm <= 200 && mm % 10 == 0 ==> exists|i: int|
                0 <= i < ops.len() && (#[trigger] ops[i] matches Op::Text { x: at, line, .. }
                    && line == text::decimal(mm) && at + line.len() * pdf::FINE_PER_HALF_DIGIT == x
                    * pdf::FINE_PER_UM)
        }),
{
    let l = pdf::page_layout();
    let ops = pdf::page_ops(page_no, id, letter, wall_end, cells);
    let (x, top) = (l.ruler_x_um + 1000 * mm, l.ruler_top_um as int);
    lemma_outside(page_no, id, letter, wall_end, cells, x, top);
    lemma_outside(page_no, id, letter, wall_end, cells, x, top - 2_000);
    lemma_outside(page_no, id, letter, wall_end, cells, x, top - 5_000);
    let k = mm / 10;
    assert(mm % 10 == 0 ==> on_tick(k, x, top - 2_000));
    assert(mm % 50 == 0 ==> on_tick(k, x, top - 5_000));
    if 0 <= mm <= 200 && mm % 10 == 0 {
        lemma_label(21, k);
        let j = choose|j: int|
            0 <= j < pdf::tick_ops(21).len() && pdf::tick_ops(21)[j] == pdf::label(
                l.ruler_x_um + 10_000 * k,
                l.ruler_top_um + 4_500,
                10 * k,
            );
        let i = 5 + 1 + j;
        assert(ops[i] == pdf::tick_ops(21)[j]);
    }
}

proof fn lemma_label(n: int, k: int)
    requires
        0 <= k < n,
    ensures
        exists|j: int|
            0 <= j < pdf::tick_ops(n).len() && pdf::tick_ops(n)[j] == pdf::label(
                pdf::page_layout().ruler_x_um + 10_000 * k,
                pdf::page_layout().ruler_top_um + 4_500,
                10 * k,
            ),
    decreases n,
{
    let want = pdf::label(
        pdf::page_layout().ruler_x_um + 10_000 * k,
        pdf::page_layout().ruler_top_um + 4_500,
        10 * k,
    );
    if k == n - 1 {
        assert(pdf::tick_ops(n).last() == want);
    } else {
        lemma_label(n - 1, k);
        let before = pdf::tick_ops(n - 1);
        let j = choose|j: int| 0 <= j < before.len() && #[trigger] before[j] == want;
        assert(pdf::tick_ops(n)[j] == want);
    }
}

/// A length is written in points, 72 to the inch of 25.4 mm, to the nearest hundredth.
pub proof fn law_lengths_are_written_in_points(um: int)
    requires
        0 <= um,
    ensures
        exists|n: int|
            0 <= n && #[trigger] text::hundredths(n) == pdf::points(um) && -127 <= 254 * n - 72 * um
                <= 127,
{
    let n = pdf::to_hundredths(um * pdf::FINE_PER_UM);
    assert(n == (360 * um + 635) / 1270);
    assert(1270 * n <= 360 * um + 635 < 1270 * n + 1270);
    assert(text::hundredths(n) == pdf::points(um));
}

/// A rectangle is drawn with its own gray, its left edge, its width and its height, and
/// with its lower edge as far from the bottom of the page as the page leaves below it: a
/// rectangle further down has a lower one.
pub proof fn law_rectangle_is_drawn_where_it_lies(x: int, y: int, w: int, h: int, white: bool)
    requires
        0 <= x,
        0 <= y,
        0 <= w,
        0 <= h,
        y + h <= 297_000,
    ensures
        exists|left: int, low: int, wide: int, high: int|
            {
                &&& pdf::rendered(Op::Rect { x, y, w, h, white }) == (if white {
                    "1.000 g\n"@
                } else {
                    "0.000 g\n"@
                }) + #[trigger] text::hundredths(left) + " "@ + #[trigger] text::hundredths(low)
                    + " "@ + #[trigger] text::hundredths(wide) + " "@ + #[trigger] text::hundredths(
                    high,
                ) + " re f\n"@
                &&& -127 <= 254 * left - 72 * x <= 127
                &&& -127 <= 254 * low - 72 * (297_000 - (y + h)) <= 127
                &&& -127 <= 254 * wide - 72 * w <= 127
                &&& -127 <= 254 * high - 72 * h <= 127
            },
{
    law_lengths_are_written_in_points(x);
    law_lengths_are_written_in_points(297_000 - (y + h));
    law_lengths_are_written_in_points(w);
    law_lengths_are_written_in_points(h);
    let left = pdf::to_hundredths(x * pdf::FINE_PER_UM);
    let low = pdf::to_hundredths((297_000 - y - h) * pdf::FINE_PER_UM);
    let wide = pdf::to_hundredths(w * pdf::FINE_PER_UM);
    let high = pdf::to_hundredths(h * pdf::FINE_PER_UM);
    assert(pdf::rendered(Op::Rect { x, y, w, h, white }) == (if white {
        "1.000 g\n"@
    } else {
        "0.000 g\n"@
    }) + text::hundredths(left) + " "@ + text::hundredths(low) + " "@ + text::hundredths(wide)
        + " "@ + text::hundredths(high) + " re f\n"@);
}

/// What a reader makes of the text between the brackets of a PDF string: a backslash
/// stands for the character behind it.
pub open spec fn read_back(text: Seq<char>) -> Seq<char>
    decreases text.len(),
{
    if text.len() == 0 {
        Seq::empty()
    } else if text[0] == '\\' && text.len() > 1 {
        seq![text[1]] + read_back(text.subrange(2, text.len() as int))
    } else {
        seq![text[0]] + read_back(text.subrange(1, text.len() as int))
    }
}

proof fn lemma_read_back(line: Seq<char>, rest: Seq<char>)
    ensures
        read_back(pdf::escaped(line) + rest) == line + read_back(rest),
    decreases line.len(),
{
    if line.len() == 0 {
        assert(pdf::escaped(line) + rest =~= rest);
        assert(line + read_back(rest) =~= read_back(rest));
    } else {
        let c = line.last();
        let front = line.drop_last();
        let before = pdf::escaped(front);
        if c == '(' || c == ')' || c == '\\' {
            let tail = seq!['\\', c] + rest;
            assert(pdf::escaped(line) + rest =~= before + tail);
            lemma_read_back(front, tail);
            assert(tail.subrange(2, tail.len() as int) =~= rest);
            assert(read_back(tail) == seq![c] + read_back(rest));
        } else {
            let tail = seq![c] + rest;
            assert(pdf::escaped(line) + rest =~= before + tail);
            lemma_read_back(front, tail);
            assert(tail.subrange(1, tail.len() as int) =~= rest);
            assert(read_back(tail) == seq![c] + read_back(rest));
        }
        assert(front + (seq![c] + read_back(rest)) =~= line + read_back(rest));
    }
}

/// Escaped text reads back as the text: every line of a page, whatever brackets and
/// backslashes it holds.
pub proof fn law_escaped_text_reads_back(line: Seq<char>)
    ensures
        read_back(pdf::escaped(line)) == line,
{
    lemma_read_back(line, Seq::empty());
    assert(pdf::escaped(line) + Seq::<char>::empty() =~= pdf::escaped(line));
    assert(line + read_back(Seq::empty()) =~= line);
}

} // verus!

//! The drawing plan of the simulated LED matrix: a checkerboard of square
//! elements, one phase or the other lit, in red or in blue.

use vstd::prelude::*;

verus! {

/// Side, in pixels, of one element of the LED matrix.
pub const ELEMENT_SIZE: u32 = 8;

/// The element in column `col` and row `row` is lit in the phase `evens`:
/// in the even phase the elements whose column and row add up to an even
/// number, in the other phase the rest.
pub open spec fn is_lit(col: int, row: int, evens: bool) -> bool {
    (col + row + if evens { 0int } else { 1int }) % 2 == 0
}

/// `p` is the top-left pixel of a lit element that lies wholly on a canvas of
/// `width` by `height` pixels.
pub open spec fn is_lit_origin(p: (u32, u32), width: u32, height: u32, evens: bool) -> bool {
    &&& p.0 % ELEMENT_SIZE == 0
    &&& p.1 % ELEMENT_SIZE == 0
    &&& p.0 / ELEMENT_SIZE < width / ELEMENT_SIZE
    &&& p.1 / ELEMENT_SIZE < height / ELEMENT_SIZE
    &&& is_lit((p.0 / ELEMENT_SIZE) as int, (p.1 / ELEMENT_SIZE) as int, evens)
}

/// `p` comes before `q` in row-major order.
pub open spec fn row_major_before(p: (u32, u32), q: (u32, u32)) -> bool {
    p.1 < q.1 || (p.1 == q.1 && p.0 < q.0)
}

/// The top-left pixel of the element in column `col` and row `row`.
pub open spec fn element_origin(col: int, row: int) -> (u32, u32) {
    ((col * ELEMENT_SIZE) as u32, (row * ELEMENT_SIZE) as u32)
}

/// The colour of the lit elements: red, or else blue.
pub fn fill_color(red: bool) -> (color: &'static str)
    ensures
        color@ == (if red { "#ff0000"@ } else { "#0000ff"@ }),
{
    if red {
        "#ff0000"
    } else {
        "#0000ff"
    }
}

/// The top-left pixels of the elements to fill on a canvas of `width` by
/// `height` pixels, in row-major order: every lit element that fits wholly on
/// the canvas, and nothing else.
pub fn lit_elements(width: u32, height: u32, evens: bool) -> (cells: Vec<(u32, u32)>)
    ensures
        forall|i: int| 0 <= i < cells@.len() ==> is_lit_origin(#[trigger] cells@[i], width, height, evens),
        forall|col: int, row: int|
            0 <= col < width / ELEMENT_SIZE && 0 <= row < height / ELEMENT_SIZE && is_lit(col, row, evens)
                ==> #[trigger] cells@.contains(element_origin(col, row)),
        forall|i: int, j: int|
            0 <= i < j < cells@.len() ==> row_major_before(#[trigger] cells@[i], #[trigger] cells@[j]),
        forall|i: int|
            #![trigger cells@[i]]
            0 <= i < cells@.len() ==> {
                &&& cells@[i].0 % 8 == 0
                &&& cells@[i].1 % 8 == 0
                &&& cells@[i].0 + 8 <= width
                &&& cells@[i].1 + 8 <= height
                &&& (evens <==> (cells@[i].0 / 8 + cells@[i].1 / 8) % 2 == 0)
            },
        forall|col: int, row: int|
            0 <= col && 0 <= row && col * 8 + 8 <= width && row * 8 + 8 <= height && (evens <==> (col
                + row) % 2 == 0) ==> #[trigger] cells@.contains(((col * 8) as u32, (row * 8) as u32)),
        forall|i: int, j: int|
            #![trigger cells@[i], cells@[j]]
            0 <= i < j < cells@.len() ==> cells@[i].1 < cells@[j].1 || (cells@[i].1 == cells@[j].1
                && cells@[i].0 < cells@[j].0),
{
    let cols = width / ELEMENT_SIZE;
    let rows = height / ELEMENT_SIZE;
    let start: u32 = if evens { 0 } else { 1 };
    let mut cells: Vec<(u32, u32)> = Vec::new();
    let mut row: u32 = 0;
    while row < rows
        invariant
            cols == width / ELEMENT_SIZE,
            rows == height / ELEMENT_SIZE,
            start == (if evens { 0u32 } else { 1u32 }),
            row <= rows,
            forall|i: int| 0 <= i < cells@.len() ==> is_lit_origin(#[trigger] cells@[i], width, height, evens),
            forall|i: int| 0 <= i < cells@.len() ==> (#[trigger] cells@[i]).1 / ELEMENT_SIZE < row,
            forall|col: int, r: int|
                0 <= col < cols && 0 <= r < row && is_lit(col, r, evens)
                    ==> #[trigger] cells@.contains(element_origin(col, r)),
            forall|i: int, j: int|
                0 <= i < j < cells@.len() ==> row_major_before(#[trigger] cells@[i], #[trigger] cells@[j]),
        decreases rows - row,
    {
        let row_start: u32 = ((if row % 2 == 0 { 0u32 } else { 1u32 }) + start) % 2;
        let mut col: u32 = row_start;
        while col < cols
            invariant
                cols == width / ELEMENT_SIZE,
                rows == height / ELEMENT_SIZE,
                start == (if evens { 0u32 } else { 1u32 }),
                row < rows,
                row_start == ((if row % 2 == 0 { 0u32 } else { 1u32 }) + start) % 2,
                col <= cols + 1,
                col % 2 == row_start,
                forall|i: int| 0 <= i < cells@.len() ==> is_lit_origin(#[trigger] cells@[i], width, height, evens),
                forall|i: int| 0 <= i < cells@.len() ==> (#[trigger] cells@[i]).1 < row * ELEMENT_SIZE || ((cells@[i]).1 == row * ELEMENT_SIZE && (cells@[i]).0 < col * ELEMENT_SIZE),
                forall|i: int| 0 <= i < cells@.len() ==> (#[trigger] cells@[i]).1 / ELEMENT_SIZE <= row,
                forall|c: int, r: int|
                    0 <= c < cols && 0 <= r < row && is_lit(c, r, evens)
                        ==> #[trigger] cells@.contains(element_origin(c, r)),
                forall|c: int|
                    0 <= c < col && c < cols && is_lit(c, row as int, evens)
                        ==> #[trigger] cells@.contains(element_origin(c, row as int)),
                forall|i: int, j: int|
                    0 <= i < j < cells@.len() ==> row_major_before(#[trigger] cells@[i], #[trigger] cells@[j]),
            decreases cols + 1 - col,
        {
            let ghost old_cells = cells@;
            let cell = (col * ELEMENT_SIZE, row * ELEMENT_SIZE);
            assert(cell == element_origin(col as int, row as int));
            cells.push(cell);
            proof {
                assert(cells@[old_cells.len() as int] == cell);
                assert(is_lit(col as int, row as int, evens));
                assert forall|c: int, r: int|
                    0 <= c < cols && 0 <= r < row && is_lit(c, r, evens)
                        implies #[trigger] cells@.contains(element_origin(c, r)) by {
                    assert(old_cells.contains(element_origin(c, r)));
                    let k = choose|k: int| 0 <= k < old_cells.len() && old_cells[k] == element_origin(c, r);
                    assert(cells@[k] == old_cells[k]);
                }
                assert forall|c: int|
                    0 <= c < col + 2 && c < cols && is_lit(c, row as int, evens)
                        implies #[trigger] cells@.contains(element_origin(c, row as int)) by {
                    if c < col {
                        assert(old_cells.contains(element_origin(c, row as int)));
                        let k = choose|k: int| 0 <= k < old_cells.len() && old_cells[k] == element_origin(c, row as int);
                        assert(cells@[k] == old_cells[k]);
                    } else if c == col {
                        assert(cells@[old_cells.len() as int] == element_origin(c, row as int));
                    } else {
                        assert(!is_lit(c, row as int, evens));
                    }
                }
            }
            col = col + 2;
        }
        proof {
            assert forall|c: int, r: int|
                0 <= c < cols && 0 <= r < row + 1 && is_lit(c, r, evens)
                    implies #[trigger] cells@.contains(element_origin(c, r)) by {
                if r == row {
                    assert(cells@.contains(element_origin(c, row as int)));
                }
            }
        }
        row = row + 1;
    }
    proof {
        assert forall|col: int, row: int|
            0 <= col && 0 <= row && col * 8 + 8 <= width && row * 8 + 8 <= height && (evens <==> (col
                + row) % 2 == 0) implies #[trigger] cells@.contains(((col * 8) as u32, (row * 8) as u32)) by {
            assert(col < width / ELEMENT_SIZE);
            assert(row < height / ELEMENT_SIZE);
            assert(is_lit(col, row, evens));
            assert(cells@.contains(element_origin(col, row)));
        }
    }
    cells
}

/// The two phases complement each other: every element of the grid is lit in
/// exactly one of them, and no two elements that share a side are lit in the
/// same phase.
pub proof fn lemma_phases_checkerboard(col: int, row: int, evens: bool)
    ensures
        is_lit(col, row, true) <==> (col + row) % 2 == 0,
        is_lit(col, row, true) != is_lit(col, row, false),
        is_lit(col, row, evens) ==> !is_lit(col + 1, row, evens) && !is_lit(col, row + 1, evens),
{
}

/// Each top-left pixel of an element of the grid is drawn in exactly one of
/// the two phases.
pub proof fn lemma_phases_cover_grid(p: (u32, u32), width: u32, height: u32)
    requires
        p.0 % ELEMENT_SIZE == 0,
        p.1 % ELEMENT_SIZE == 0,
        p.0 / ELEMENT_SIZE < width / ELEMENT_SIZE,
        p.1 / ELEMENT_SIZE < height / ELEMENT_SIZE,
    ensures
        is_lit_origin(p, width, height, true) != is_lit_origin(p, width, height, false),
{
    lemma_phases_checkerboard((p.0 / ELEMENT_SIZE) as int, (p.1 / ELEMENT_SIZE) as int, true);
}

} // verus!

//! Region-of-interest masks: row-major grids in which `true` keeps a pixel.
//!
//! Shapes have coordinates with a fraction. The caller rasterises them into spans of pixels, row by
//! row, and the grids are filled here.

use vstd::prelude::*;


verus! {

/// The pixels from `start` to `end`, clamped to `limit`.
pub open spec fn clamped(start: int, end: int, limit: int) -> (int, int) {
    let e = if end < limit {
        end
    } else {
        limit
    };
    (
        if start < e {
            start
        } else {
            e
        },
        e,
    )
}

/// The pixels from `start` to `end`, clamped to `limit`; none if they end before they start.
pub fn span(start: usize, end: usize, limit: usize) -> (pixels: (usize, usize))
    ensures
        (pixels.0 as int, pixels.1 as int) == clamped(start as int, end as int, limit as int),
        pixels.0 <= pixels.1 <= limit,
{
    let end: usize = if end < limit {
        end
    } else {
        limit
    };
    (
        if start < end {
            start
        } else {
            end
        },
        end,
    )
}

/// Whether one of the first `n` spans holds a pixel.
pub open spec fn covered(spans: Seq<(usize, usize)>, x: int, n: int) -> bool
    decreases n,
{
    n > 0 && (covered(spans, x, n - 1) || spans[n - 1].0 <= x < spans[n - 1].1)
}

/// The grid in which the spans of each row are kept.
pub open spec fn spans_grid(
    width: int,
    height: int,
    rows: Seq<Vec<(usize, usize)>>,
    i: int,
) -> bool {
    let y = i / width;
    let x = i % width;
    covered(rows[y]@, x, rows[y]@.len() as int)
}

/// Keeps the spans of each row. A span that leaves the sensor keeps what lies on it.
pub fn fill_spans(width: usize, height: usize, rows: &[Vec<(usize, usize)>]) -> (mask: Vec<bool>)
    requires
        width * height <= usize::MAX,
        rows@.len() == height,
    ensures
        mask@ == Seq::new(
            (width * height) as nat,
            |i: int| spans_grid(width as int, height as int, rows@, i),
        ),
{
    proof {
        assert(0 <= width * height) by (nonlinear_arith);
    }
    let length: usize = width * height;
    let mut mask: Vec<bool> = Vec::with_capacity(length);
    for i in 0..length
        invariant
            length == width * height,
            rows@.len() == height,
            mask@.len() == i,
            forall|j: int|
                0 <= j < i ==> #[trigger] mask@[j] == spans_grid(
                    width as int,
                    height as int,
                    rows@,
                    j,
                ),
    {
        proof {
            assert(width > 0 && 0 <= i / width < height && 0 <= i % width < width)
                by (nonlinear_arith)
                requires
                    0 <= i < width * height,
                    width >= 0,
            ;
        }
        let y: usize = i / width;
        let x: usize = i % width;
        let row = &rows[y];
        let n: usize = row.len();
        let mut kept: bool = false;
        for k in 0..n
            invariant
                n == row@.len(),
                kept == covered(row@, x as int, k as int),
        {
            if row[k].0 <= x && x < row[k].1 {
                kept = true;
            }
        }
        mask.push(kept);
    }
    assert(mask@ =~= Seq::new(
        (width * height) as nat,
        |i: int| spans_grid(width as int, height as int, rows@, i),
    ));
    mask
}

/// Keeps the rectangle of some columns and rows.
pub fn fill_rect(width: usize, height: usize, columns: (usize, usize), lines: (usize, usize)) -> (
    mask: Vec<bool>)
    requires
        width * height <= usize::MAX,
    ensures
        mask@ == Seq::new(
            (width * height) as nat,
            |i: int|
                columns.0 <= i % (width as int) < columns.1 && lines.0 <= i / (width as int)
                    < lines.1,
        ),
{
    proof {
        assert(0 <= width * height) by (nonlinear_arith);
    }
    let length: usize = width * height;
    let mut mask: Vec<bool> = Vec::with_capacity(length);
    for i in 0..length
        invariant
            length == width * height,
            mask@.len() == i,
            forall|j: int|
                0 <= j < i ==> #[trigger] mask@[j] == (columns.0 <= j % (width as int) < columns.1
                    && lines.0 <= j / (width as int) < lines.1),
    {
        proof {
            assert(width > 0) by (nonlinear_arith)
                requires
                    0 <= i < width * height,
                    width >= 0,
            ;
        }
        let y: usize = i / width;
        let x: usize = i % width;
        mask.push(columns.0 <= x && x < columns.1 && lines.0 <= y && y < lines.1);
    }
    assert(mask@ =~= Seq::new(
        (width * height) as nat,
        |i: int|
            columns.0 <= i % (width as int) < columns.1 && lines.0 <= i / (width as int) < lines.1,
    ));
    mask
}

/// The place of a pixel in a grid gives back its row and column.
proof fn place_of_pixel(x: int, y: int, width: int)
    requires
        0 <= x < width,
    ensures
        (y * width + x) / width == y,
        (y * width + x) % width == x,
{
    vstd::arithmetic::div_mod::lemma_fundamental_div_mod_converse(y * width + x, width, y, x);
}

/// A rectangle is kept as the spans of its rows are.
pub proof fn rect_is_spans(
    width: int,
    height: int,
    columns: (usize, usize),
    lines: (usize, usize),
    rows: Seq<Vec<(usize, usize)>>,
    x: int,
    y: int,
)
    requires
        0 <= x < width,
        0 <= y < height,
        rows.len() == height,
        forall|r: int|
            0 <= r < height ==> (#[trigger] rows[r])@ == if lines.0 <= r < lines.1 {
                seq![columns]
            } else {
                Seq::<(usize, usize)>::empty()
            },
    ensures
        spans_grid(width, height, rows, y * width + x) == (columns.0 <= x < columns.1 && lines.0 <= y
            < lines.1),
{
    place_of_pixel(x, y, width);
    assert(rows[y]@.len() <= 1);
    reveal_with_fuel(covered, 3);
}

} // verus!

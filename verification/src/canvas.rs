//! A character canvas of 55 rows by 100 columns.

use vstd::prelude::*;

verus! {

/// 55 rows of 100 characters.
#[derive(Clone, Copy)]
pub struct Canvas {
    pub canvas: [[char; 100]; 55],
}

/// The rows of a canvas, as sequences.
pub open spec fn rows(c: Canvas) -> Seq<Seq<char>> {
    c.canvas@.map_values(|row: [char; 100]| row@)
}

/// A canvas filled with spaces.
pub fn new_canvas() -> (r: Canvas)
    ensures
        forall|x: int, y: int| 0 <= x < 55 && 0 <= y < 100 ==> #[trigger] r.canvas@[x]@[y] == ' ',
{
    let canv = [[' '; 100]; 55];
    Canvas { canvas: canv }
}


/// The rows after drawing `pixels` in order: a pixel `(x, y, v)` with
/// `x < 55` and `y < 100` puts the character with code `v` at row `x`,
/// column `y`; later pixels overwrite earlier ones; others are ignored.
pub open spec fn drawn(rs: Seq<Seq<char>>, pixels: Seq<(usize, usize, u8)>) -> Seq<Seq<char>>
    decreases pixels.len(),
{
    if pixels.len() == 0 {
        rs
    } else {
        let before = drawn(rs, pixels.drop_last());
        let (x, y, v) = pixels.last();
        if x < 55 && y < 100 {
            before.update(x as int, before[x as int].update(y as int, v as char))
        } else {
            before
        }
    }
}

/// `canvas` with `pixels` drawn on it.
fn painted(canvas: Canvas, pixels: &[(usize, usize, u8)]) -> (r: Canvas)
    ensures
        rows(r) == drawn(rows(canvas), pixels@),
{
    let mut c = canvas;
    let mut i: usize = 0;
    assert(pixels@.take(0) =~= Seq::<(usize, usize, u8)>::empty());
    while i < pixels.len()
        invariant
            i <= pixels@.len(),
            rows(c) == drawn(rows(canvas), pixels@.take(i as int)),
        decreases pixels@.len() - i,
    {
        let (x, y, value) = pixels[i];
        assert(pixels@.take(i + 1).drop_last() =~= pixels@.take(i as int));
        assert(pixels@.take(i + 1).last() == (x, y, value));
        let ghost before = rows(c);
        if x < 55 && y < 100 {
            let mut row = c.canvas[x];
            row[y] = value as char;
            c.canvas[x] = row;
            assert(rows(c) =~= before.update(x as int, before[x as int].update(y as int, value as char)));
        }
        i = i + 1;
    }
    assert(pixels@.take(pixels@.len() as int) =~= pixels@);
    c
}

/// Draws `pixels` on `canvas`. The canvas is taken by value, so the drawing
/// happens on this function's own copy and the caller's canvas is unchanged.
pub fn set_pixels(canvas: Canvas, pixels: &[(usize, usize, u8)]) {
    let _ = painted(canvas, pixels);
}

} // verus!

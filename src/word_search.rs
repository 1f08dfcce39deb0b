//! Word search on a grid of characters: `XMAS` along straight lines, and
//! two `MAS` crossing in an X around an `A`.
use crate::text::{chars_of, lines, split_lines, views};
use vstd::prelude::*;

verus! {

/// The character at row `y`, column `x`, if the grid has one there.
pub open spec fn cell(g: Seq<Vec<char>>, y: int, x: int) -> Option<char> {
    if 0 <= y < g.len() && 0 <= x < g[y]@.len() {
        Some(g[y]@[x])
    } else {
        None
    }
}

/// The number of cells of the first `m` rows.
pub open spec fn cell_count(g: Seq<Vec<char>>, m: int) -> nat
    decreases m,
{
    if m <= 0 || m > g.len() {
        0
    } else {
        cell_count(g, m - 1) + g[m - 1]@.len()
    }
}

/// The sum of `f(y, x)` over the columns `x < n` of row `y`.
pub open spec fn row_sum(f: spec_fn(int, int) -> nat, y: int, n: int) -> nat
    decreases n,
{
    if n <= 0 {
        0
    } else {
        row_sum(f, y, n - 1) + f(y, n - 1)
    }
}

/// The sum of `f(y, x)` over the cells of the first `m` rows.
pub open spec fn grid_sum(g: Seq<Vec<char>>, f: spec_fn(int, int) -> nat, m: int) -> nat
    decreases m,
{
    if m <= 0 || m > g.len() {
        0
    } else {
        grid_sum(g, f, m - 1) + row_sum(f, m - 1, g[m - 1]@.len() as int)
    }
}

proof fn lemma_cell_count_mono(g: Seq<Vec<char>>, a: int, b: int)
    requires
        0 <= a <= b <= g.len(),
    ensures
        cell_count(g, a) <= cell_count(g, b),
    decreases b - a,
{
    if a < b {
        lemma_cell_count_mono(g, a, b - 1);
    }
}

/// Reads the character at row `y`, column `x`.
fn char_at(g: &Vec<Vec<char>>, y: i128, x: i128) -> (r: Option<char>)
    ensures
        r == cell(g@, y as int, x as int),
{
    if y < 0 || y >= g.len() as i128 {
        return None;
    }
    let row = &g[y as usize];
    if x < 0 || x >= row.len() as i128 {
        return None;
    }
    Some(row[x as usize])
}

/// An `M` at offset `m` from the centre and an `S` at offset `s`.
pub open spec fn mas_along(g: Seq<Vec<char>>, cy: int, cx: int, m: (i32, i32), s: (i32, i32)) -> bool {
    &&& cell(g, cy + m.0, cx + m.1) == Some('M')
    &&& cell(g, cy + s.0, cx + s.1) == Some('S')
}

/// Whether the grid holds an `M` at offset `start_dir` from the centre and an
/// `S` at offset `end_dir`.
pub fn check_mas(
    grid: &Vec<Vec<char>>,
    center_y: usize,
    center_x: usize,
    start_dir: (i32, i32),
    end_dir: (i32, i32),
) -> (r: bool)
    ensures
        r == mas_along(grid@, center_y as int, center_x as int, start_dir, end_dir),
{
    let cy = center_y as i128;
    let cx = center_x as i128;
    if char_at(grid, cy + start_dir.0 as i128, cx + start_dir.1 as i128) != Some('M') {
        return false;
    }
    char_at(grid, cy + end_dir.0 as i128, cx + end_dir.1 as i128) == Some('S')
}

/// The number of ways, out of four, in which both diagonals `d1` and `d2`
/// read `MAS` through the centre, each in either direction.
pub open spec fn x_patterns(
    g: Seq<Vec<char>>,
    cy: int,
    cx: int,
    d1: ((i32, i32), (i32, i32)),
    d2: ((i32, i32), (i32, i32)),
) -> nat {
    let f1 = mas_along(g, cy, cx, d1.0, d1.1);
    let b1 = mas_along(g, cy, cx, d1.1, d1.0);
    let f2 = mas_along(g, cy, cx, d2.0, d2.1);
    let b2 = mas_along(g, cy, cx, d2.1, d2.0);
    (if f1 && f2 {
        1nat
    } else {
        0nat
    }) + (if f1 && b2 {
        1nat
    } else {
        0nat
    }) + (if b1 && f2 {
        1nat
    } else {
        0nat
    }) + (if b1 && b2 {
        1nat
    } else {
        0nat
    })
}

/// Counts the ways in which the diagonals `dir1` and `dir2` both read `MAS`
/// through the centre.
pub fn check_x_pattern(
    grid: &Vec<Vec<char>>,
    center_y: usize,
    center_x: usize,
    dir1: ((i32, i32), (i32, i32)),
    dir2: ((i32, i32), (i32, i32)),
) -> (r: usize)
    ensures
        r == x_patterns(grid@, center_y as int, center_x as int, dir1, dir2),
        r <= 4,
{
    let f1 = check_mas(grid, center_y, center_x, dir1.0, dir1.1);
    let b1 = check_mas(grid, center_y, center_x, dir1.1, dir1.0);
    let f2 = check_mas(grid, center_y, center_x, dir2.0, dir2.1);
    let b2 = check_mas(grid, center_y, center_x, dir2.1, dir2.0);
    let mut patterns: usize = 0;
    if f1 && f2 {
        patterns += 1;
    }
    if f1 && b2 {
        patterns += 1;
    }
    if b1 && f2 {
        patterns += 1;
    }
    if b1 && b2 {
        patterns += 1;
    }
    patterns
}

/// The two diagonals of an X: top left to bottom right, and top right to
/// bottom left.
pub open spec fn x_mas_at(g: Seq<Vec<char>>, y: int, x: int) -> nat {
    if cell(g, y, x) == Some('A') {
        x_patterns(g, y, x, ((-1i32, -1i32), (1i32, 1i32)), ((-1i32, 1i32), (1i32, -1i32)))
    } else {
        0
    }
}

/// Counts the X-shaped `MAS` pairs of the grid: for each `A`, the ways in
/// which both diagonals through it read `MAS`, forwards or backwards.
pub fn count_x_mas(grid: &Vec<Vec<char>>) -> (r: usize)
    requires
        cell_count(grid@, grid@.len() as int) <= usize::MAX / 8,
    ensures
        r == grid_sum(grid@, |y: int, x: int| x_mas_at(grid@, y, x), grid@.len() as int),
{
    let ghost f = |y: int, x: int| x_mas_at(grid@, y, x);
    let mut count: usize = 0;
    for y in 0..grid.len()
        invariant
            cell_count(grid@, grid@.len() as int) <= usize::MAX / 8,
            f == (|y: int, x: int| x_mas_at(grid@, y, x)),
            count == grid_sum(grid@, f, y as int),
            count <= 4 * cell_count(grid@, y as int),
    {
        proof {
            lemma_cell_count_mono(grid@, y + 1, grid@.len() as int);
        }
        let width = grid[y].len();
        for x in 0..width
            invariant
                y < grid@.len(),
                f == (|y: int, x: int| x_mas_at(grid@, y, x)),
                width == grid@[y as int]@.len(),
                cell_count(grid@, y + 1) <= usize::MAX / 8,
                cell_count(grid@, y + 1) == cell_count(grid@, y as int) + width,
                count == grid_sum(grid@, f, y as int) + row_sum(f, y as int, x as int),
                count <= 4 * (cell_count(grid@, y as int) + x),
        {
            assert(row_sum(f, y as int, x + 1) == row_sum(f, y as int, x as int) + f(y as int, x as int));
            assert(cell(grid@, y as int, x as int) == Some(grid@[y as int]@[x as int]));
            if grid[y][x] == 'A' {
                count += check_x_pattern(grid, y, x, ((-1, -1), (1, 1)), ((-1, 1), (1, -1)));
            }
        }
    }
    count
}

/// `XMAS` reads from row `y`, column `x` in the direction `(dy, dx)`.
pub open spec fn xmas_from(g: Seq<Vec<char>>, y: int, x: int, dy: int, dx: int) -> bool {
    &&& cell(g, y, x) == Some('X')
    &&& cell(g, y + dy, x + dx) == Some('M')
    &&& cell(g, y + 2 * dy, x + 2 * dx) == Some('A')
    &&& cell(g, y + 3 * dy, x + 3 * dx) == Some('S')
}

/// The number of the eight compass directions in which `XMAS` reads from
/// row `y`, column `x`.
pub open spec fn xmas_at(g: Seq<Vec<char>>, y: int, x: int) -> nat {
    (if xmas_from(g, y, x, -1, -1) {
        1nat
    } else {
        0nat
    }) + (if xmas_from(g, y, x, -1, 0) {
        1nat
    } else {
        0nat
    }) + (if xmas_from(g, y, x, -1, 1) {
        1nat
    } else {
        0nat
    }) + (if xmas_from(g, y, x, 0, -1) {
        1nat
    } else {
        0nat
    }) + (if xmas_from(g, y, x, 0, 1) {
        1nat
    } else {
        0nat
    }) + (if xmas_from(g, y, x, 1, -1) {
        1nat
    } else {
        0nat
    }) + (if xmas_from(g, y, x, 1, 0) {
        1nat
    } else {
        0nat
    }) + (if xmas_from(g, y, x, 1, 1) {
        1nat
    } else {
        0nat
    })
}

fn reads_xmas(g: &Vec<Vec<char>>, y: usize, x: usize, dy: i128, dx: i128) -> (r: bool)
    requires
        -1 <= dy <= 1,
        -1 <= dx <= 1,
    ensures
        r == xmas_from(g@, y as int, x as int, dy as int, dx as int),
{
    let y = y as i128;
    let x = x as i128;
    char_at(g, y, x) == Some('X') && char_at(g, y + dy, x + dx) == Some('M') && char_at(
        g,
        y + 2 * dy,
        x + 2 * dx,
    ) == Some('A') && char_at(g, y + 3 * dy, x + 3 * dx) == Some('S')
}

/// The number of directions in which `XMAS` reads from row `y`, column `x`.
fn xmas_count_at(g: &Vec<Vec<char>>, y: usize, x: usize) -> (r: usize)
    ensures
        r == xmas_at(g@, y as int, x as int),
        r <= 8,
{
    let mut n: usize = 0;
    if reads_xmas(g, y, x, -1, -1) {
        n += 1;
    }
    if reads_xmas(g, y, x, -1, 0) {
        n += 1;
    }
    if reads_xmas(g, y, x, -1, 1) {
        n += 1;
    }
    if reads_xmas(g, y, x, 0, -1) {
        n += 1;
    }
    if reads_xmas(g, y, x, 0, 1) {
        n += 1;
    }
    if reads_xmas(g, y, x, 1, -1) {
        n += 1;
    }
    if reads_xmas(g, y, x, 1, 0) {
        n += 1;
    }
    if reads_xmas(g, y, x, 1, 1) {
        n += 1;
    }
    n
}

/// Counts the occurrences of `XMAS` in the grid along the eight compass
/// directions (forwards, backwards, up, down and diagonally).
pub fn count_xmas(grid: &Vec<Vec<char>>) -> (r: usize)
    requires
        cell_count(grid@, grid@.len() as int) <= usize::MAX / 8,
    ensures
        r == grid_sum(grid@, |y: int, x: int| xmas_at(grid@, y, x), grid@.len() as int),
{
    let ghost f = |y: int, x: int| xmas_at(grid@, y, x);
    let mut count: usize = 0;
    for y in 0..grid.len()
        invariant
            cell_count(grid@, grid@.len() as int) <= usize::MAX / 8,
            f == (|y: int, x: int| xmas_at(grid@, y, x)),
            count == grid_sum(grid@, f, y as int),
            count <= 8 * cell_count(grid@, y as int),
    {
        proof {
            lemma_cell_count_mono(grid@, y + 1, grid@.len() as int);
        }
        let width = grid[y].len();
        for x in 0..width
            invariant
                y < grid@.len(),
                f == (|y: int, x: int| xmas_at(grid@, y, x)),
                width == grid@[y as int]@.len(),
                cell_count(grid@, y + 1) <= usize::MAX / 8,
                cell_count(grid@, y + 1) == cell_count(grid@, y as int) + width,
                count == grid_sum(grid@, f, y as int) + row_sum(f, y as int, x as int),
                count <= 8 * (cell_count(grid@, y as int) + x),
        {
            assert(row_sum(f, y as int, x + 1) == row_sum(f, y as int, x as int) + f(y as int, x as int));
            let here = xmas_count_at(grid, y, x);
            count += here;
        }
    }
    count
}

/// The grid of a text: one row of characters per line.
pub fn parse_grid(input: &str) -> (r: Vec<Vec<char>>)
    ensures
        views(r@) == lines(input@),
{
    let cs = chars_of(input);
    split_lines(&cs)
}

} // verus!

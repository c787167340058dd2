//! A letter grid searched for crossed `MAS` shapes: an `A` whose two
//! diagonals each read `MAS` or `SAM`.
use vstd::prelude::*;

verus! {

/// The rows of the letter grid as plain sequences.
pub open spec fn letters_view(m: Seq<Vec<char>>) -> Seq<Seq<char>> {
    m.map_values(|v: Vec<char>| v@)
}

/// Every row is as long as the first.
pub open spec fn rect_grid(m: Seq<Seq<char>>) -> bool {
    forall|i: int| 0 <= i < m.len() ==> #[trigger] m[i].len() == m[0].len()
}

/// An `A` at the centre whose both diagonals hold an `M` and an `S`.
pub open spec fn crossed_at(g: Seq<Seq<char>>, i: int, j: int) -> bool
    recommends
        1 <= i < g.len() - 1,
        1 <= j < g[0].len() - 1,
{
    let a = g[i - 1][j - 1];
    let b = g[i - 1][j + 1];
    let c = g[i + 1][j - 1];
    let d = g[i + 1][j + 1];
    g[i][j] == 'A' && ((a == 'S' && d == 'M') || (a == 'M' && d == 'S')) && ((b == 'S' && c == 'M')
        || (b == 'M' && c == 'S'))
}

/// How many crossed shapes centre on the interior cells before row `i`,
/// plus those before column `j` of row `i`.
pub open spec fn crossed_upto(g: Seq<Seq<char>>, i: int, j: int) -> int
    decreases i, j,
{
    if j > 1 {
        crossed_upto(g, i, j - 1) + if crossed_at(g, i, j - 1) {
            1int
        } else {
            0int
        }
    } else if i > 1 {
        crossed_upto(g, i - 1, g[0].len() - 1)
    } else {
        0
    }
}

/// Every crossed shape of the grid: the interior rows complete.
pub open spec fn crossed_total(g: Seq<Seq<char>>) -> int {
    if g.len() >= 2 {
        crossed_upto(g, g.len() - 1, 1)
    } else {
        0
    }
}

/// Counts the crossed `MAS` shapes of the grid.
pub fn solve2(grid: &Vec<Vec<char>>) -> (num_xmas: usize)
    requires
        grid@.len() >= 1,
        grid@[0]@.len() >= 1,
        rect_grid(letters_view(grid@)),
        grid@.len() * grid@[0]@.len() <= usize::MAX,
    ensures
        num_xmas == crossed_total(letters_view(grid@)),
{
    let ghost g = letters_view(grid@);
    let height = grid.len();
    let width = grid[0].len();
    proof {
        assert(g[0] == grid@[0]@);
    }
    if height < 2 {
        return 0;
    }
    let mut num_xmas: usize = 0;
    let mut i: usize = 1;
    while i < height - 1
        invariant
            1 <= i <= height - 1,
            height == grid@.len(),
            width == grid@[0]@.len(),
            height >= 2,
            width >= 1,
            g == letters_view(grid@),
            rect_grid(g),
            width == g[0].len(),
            num_xmas == crossed_upto(g, i as int, 1),
            num_xmas <= i * width,
            height * width <= usize::MAX,
        decreases height - i,
    {
        let mut j: usize = 1;
        while j < width - 1
            invariant
                1 <= i,
                i + 1 < height,
                1 <= j <= width,
                width >= 2 ==> j <= width - 1,
                width < 2 ==> j == 1,
                height == grid@.len(),
                width == grid@[0]@.len(),
                width >= 1,
                g == letters_view(grid@),
                rect_grid(g),
                width == g[0].len(),
                num_xmas == crossed_upto(g, i as int, j as int),
                num_xmas <= i * width + j,
                height * width <= usize::MAX,
            decreases width - j,
        {
            proof {
                assert(g[i as int] == grid@[i as int]@);
                assert(g[i - 1] == grid@[i - 1]@);
                assert(g[i + 1] == grid@[i + 1]@);
                assert(g[i as int].len() == g[0].len());
                assert(g[i - 1].len() == g[0].len());
                assert(g[i + 1].len() == g[0].len());
                assert(i * width + j + 1 <= height * width) by (nonlinear_arith)
                    requires
                        1 <= i,
                        i + 1 < height,
                        1 <= j < width,
                ;
            }
            let centre = grid[i][j];
            if centre == 'A' {
                let a = grid[i - 1][j - 1];
                let b = grid[i - 1][j + 1];
                let c = grid[i + 1][j - 1];
                let d = grid[i + 1][j + 1];
                if ((a == 'S' && d == 'M') || (a == 'M' && d == 'S')) && ((b == 'S' && c == 'M')
                    || (b == 'M' && c == 'S')) {
                    num_xmas = num_xmas + 1;
                }
            }
            j = j + 1;
        }
        proof {
            assert(crossed_upto(g, i + 1, 1) == crossed_upto(g, i as int, width - 1));
            assert(crossed_upto(g, i as int, width - 1) == crossed_upto(g, i as int, j as int))
                by {
                if width >= 2 {
                    assert(j == width - 1);
                }
            }
            assert((i + 1) * width == i * width + width) by (nonlinear_arith);
        }
        i = i + 1;
    }
    num_xmas
}


/// The eight search directions, as row and column steps.
pub open spec fn dir_of(d: int) -> (int, int) {
    if d == 0 {
        (-1, -1)
    } else if d == 1 {
        (-1, 0)
    } else if d == 2 {
        (-1, 1)
    } else if d == 3 {
        (0, -1)
    } else if d == 4 {
        (0, 1)
    } else if d == 5 {
        (1, -1)
    } else if d == 6 {
        (1, 0)
    } else {
        (1, 1)
    }
}

/// The word `XMAS` reads from `(i, j)` along direction `d`.
pub open spec fn xmas_at(g: Seq<Seq<char>>, i: int, j: int, d: int) -> bool {
    let di = dir_of(d).0;
    let dj = dir_of(d).1;
    &&& 0 <= i + 3 * di < g.len()
    &&& 0 <= j + 3 * dj < g[0].len()
    &&& g[i][j] == 'X'
    &&& g[i + di][j + dj] == 'M'
    &&& g[i + 2 * di][j + 2 * dj] == 'A'
    &&& g[i + 3 * di][j + 3 * dj] == 'S'
}

/// How many of the first `d` directions spell the word from `(i, j)`.
pub open spec fn dirs_count(g: Seq<Seq<char>>, i: int, j: int, d: int) -> int
    decreases d,
{
    if d <= 0 {
        0
    } else {
        dirs_count(g, i, j, d - 1) + if xmas_at(g, i, j, d - 1) {
            1int
        } else {
            0int
        }
    }
}

/// The word count over all cells before row `i`, plus the first `n` cells of
/// row `i`, each read in all eight directions.
pub open spec fn xmas_upto(g: Seq<Seq<char>>, i: int, n: int) -> int
    decreases i, n,
{
    if n > 0 {
        xmas_upto(g, i, n - 1) + dirs_count(g, i, n - 1, 8)
    } else if i > 0 {
        xmas_upto(g, i - 1, g[0].len() as int)
    } else {
        0
    }
}

/// Counts every occurrence of `XMAS` in the grid, in all eight directions.
pub fn solve1(grid: &Vec<Vec<char>>) -> (count: usize)
    requires
        grid@.len() >= 1,
        grid@[0]@.len() >= 1,
        grid@.len() <= 1000000,
        grid@[0]@.len() <= 1000000,
        rect_grid(letters_view(grid@)),
        grid@.len() * grid@[0]@.len() * 8 <= usize::MAX,
    ensures
        count == xmas_upto(letters_view(grid@), grid@.len() - 1, grid@[0]@.len() as int),
{
    let ghost g = letters_view(grid@);
    let height = grid.len();
    let width = grid[0].len();
    proof {
        assert(g[0] == grid@[0]@);
    }
    let mut count: usize = 0;
    let mut i: usize = 0;
    while i < height
        invariant
            0 <= i <= height,
            height == grid@.len(),
            width == grid@[0]@.len(),
            1 <= height <= 1000000,
            1 <= width <= 1000000,
            g == letters_view(grid@),
            rect_grid(g),
            width == g[0].len(),
            count == (if i > 0 {
                xmas_upto(g, i - 1, width as int)
            } else {
                0int
            }),
            count <= i * width * 8,
            height * width * 8 <= usize::MAX,
        decreases height - i,
    {
        let mut j: usize = 0;
        while j < width
            invariant
                0 <= i < height,
                0 <= j <= width,
                height == grid@.len(),
                width == grid@[0]@.len(),
                1 <= height <= 1000000,
                1 <= width <= 1000000,
                g == letters_view(grid@),
                rect_grid(g),
                width == g[0].len(),
                count == xmas_upto(g, i as int, j as int),
                count <= (i * width + j) * 8,
                height * width * 8 <= usize::MAX,
            decreases width - j,
        {
            proof {
                assert(g[i as int] == grid@[i as int]@);
                assert(g[i as int].len() == g[0].len());
                assert((i * width + j + 1) <= height * width) by (nonlinear_arith)
                    requires
                        0 <= i < height,
                        0 <= j < width,
                ;
                assert((i * width + j + 1) * 8 <= height * width * 8) by (nonlinear_arith)
                    requires
                        0 <= i * width + j + 1 <= height * width,
                ;
                assert((i * width + j + 1) * 8 == (i * width + j) * 8 + 8);
            }
            if grid[i][j] == 'X' {
                let mut d: usize = 0;
                while d < 8
                    invariant
                        0 <= d <= 8,
                        0 <= i < height,
                        0 <= j < width,
                        height == grid@.len(),
                        width == grid@[0]@.len(),
                        1 <= height <= 1000000,
                        1 <= width <= 1000000,
                        g == letters_view(grid@),
                        rect_grid(g),
                        width == g[0].len(),
                        g[i as int][j as int] == 'X',
                        count == xmas_upto(g, i as int, j as int) + dirs_count(
                            g,
                            i as int,
                            j as int,
                            d as int,
                        ),
                        count <= (i * width + j) * 8 + d,
                        height * width * 8 <= usize::MAX,
                        (i * width + j + 1) * 8 <= height * width * 8,
                        (i * width + j + 1) * 8 == (i * width + j) * 8 + 8,
                    decreases 8 - d,
                {
                    let (di, dj): (i64, i64) = match d {
                        0 => (-1, -1),
                        1 => (-1, 0),
                        2 => (-1, 1),
                        3 => (0, -1),
                        4 => (0, 1),
                        5 => (1, -1),
                        6 => (1, 0),
                        _ => (1, 1),
                    };
                    proof {
                        assert((di as int, dj as int) == dir_of(d as int));
                    }
                    let er = i as i64 + 3 * di;
                    let ec = j as i64 + 3 * dj;
                    if 0 <= er && er < height as i64 && 0 <= ec && ec < width as i64 {
                        let r1 = (i as i64 + di) as usize;
                        let c1 = (j as i64 + dj) as usize;
                        let r2 = (i as i64 + 2 * di) as usize;
                        let c2 = (j as i64 + 2 * dj) as usize;
                        let r3 = er as usize;
                        let c3 = ec as usize;
                        proof {
                            assert(g[r1 as int] == grid@[r1 as int]@);
                            assert(g[r2 as int] == grid@[r2 as int]@);
                            assert(g[r3 as int] == grid@[r3 as int]@);
                            assert(g[r1 as int].len() == g[0].len());
                            assert(g[r2 as int].len() == g[0].len());
                            assert(g[r3 as int].len() == g[0].len());
                        }
                        if grid[r1][c1] == 'M' && grid[r2][c2] == 'A' && grid[r3][c3] == 'S' {
                            proof {
                                assert(xmas_at(g, i as int, j as int, d as int));
                            }
                            count = count + 1;
                        } else {
                            proof {
                                assert(!xmas_at(g, i as int, j as int, d as int));
                            }
                        }
                    } else {
                        proof {
                            assert(!xmas_at(g, i as int, j as int, d as int));
                        }
                    }
                    d = d + 1;
                }
            } else {
                proof {
                    assert forall|d: int| 0 <= d < 8 implies !xmas_at(g, i as int, j as int, d) by {}
                    assert(dirs_count(g, i as int, j as int, 8) == 0) by {
                        assert forall|t: int| 0 <= t <= 8 implies dirs_count(g, i as int, j as int, t)
                            == 0 by {
                            lemma_dirs_count_zero(g, i as int, j as int, t);
                        }
                    }
                }
            }
            j = j + 1;
        }
        proof {
            assert(xmas_upto(g, i + 1, 0) == xmas_upto(g, i as int, width as int));
            assert((i + 1) * width * 8 == (i * width + width) * 8) by (nonlinear_arith);
        }
        i = i + 1;
    }
    proof {
        assert(i == height);
        assert(xmas_upto(g, height as int, 0) == xmas_upto(g, height - 1, width as int));
        assert(count == xmas_upto(g, height - 1, width as int));
    }
    count
}

/// A cell that does not hold an `X` spells the word in no direction.
proof fn lemma_dirs_count_zero(g: Seq<Seq<char>>, i: int, j: int, d: int)
    requires
        g[i][j] != 'X',
        0 <= d <= 8,
    ensures
        dirs_count(g, i, j, d) == 0,
    decreases d,
{
    if d > 0 {
        lemma_dirs_count_zero(g, i, j, d - 1);
    }
}

} // verus!

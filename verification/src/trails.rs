//! Hiking trails on a height map: a trail climbs by exactly one at each step,
//! from a trailhead at height zero to a summit at height nine.  A trailhead's
//! rating counts the distinct trails that start there.
use vstd::prelude::*;

verus! {

/// The rows of the height map as plain sequences.
pub open spec fn heights_view(m: Seq<Vec<u32>>) -> Seq<Seq<u32>> {
    m.map_values(|v: Vec<u32>| v@)
}

/// A well-formed height map: nonempty, rectangular, every height at most
/// nine.
pub open spec fn wf_heights(m: Seq<Seq<u32>>) -> bool {
    &&& m.len() > 0
    &&& m[0].len() > 0
    &&& forall|i: int| 0 <= i < m.len() ==> #[trigger] m[i].len() == m[0].len()
    &&& forall|i: int, j: int| 0 <= i < m.len() && 0 <= j < m[0].len() ==> #[trigger] m[i][j] <= 9
}

/// Four to the `k`.
pub open spec fn pow4(k: nat) -> int
    decreases k,
{
    if k == 0 {
        1
    } else {
        4 * pow4((k - 1) as nat)
    }
}

/// How many distinct strictly-climbing trails lead from this cell to a nine.
pub open spec fn rate_spec(row: int, col: int, m: Seq<Seq<u32>>) -> int
    recommends
        wf_heights(m),
        0 <= row < m.len(),
        0 <= col < m[0].len(),
    decreases 9 - m[row][col],
{
    let cell = m[row][col];
    if cell >= 9 {
        1
    } else {
        (if row > 0 && m[row - 1][col] == cell + 1 {
            rate_spec(row - 1, col, m)
        } else {
            0int
        }) + (if row < m.len() - 1 && m[row + 1][col] == cell + 1 {
            rate_spec(row + 1, col, m)
        } else {
            0int
        }) + (if col > 0 && m[row][col - 1] == cell + 1 {
            rate_spec(row, col - 1, m)
        } else {
            0int
        }) + (if col < m[0].len() - 1 && m[row][col + 1] == cell + 1 {
            rate_spec(row, col + 1, m)
        } else {
            0int
        })
    }
}

/// A cell's rating is positive and at most four to the climb still ahead.
proof fn lemma_rate_bound(row: int, col: int, m: Seq<Seq<u32>>)
    requires
        wf_heights(m),
        0 <= row < m.len(),
        0 <= col < m[0].len(),
    ensures
        0 <= rate_spec(row, col, m) <= pow4((9 - m[row][col]) as nat),
    decreases 9 - m[row][col],
{
    let cell = m[row][col];
    if cell < 9 {
        let bound = pow4((9 - (cell + 1)) as nat);
        assert(pow4((9 - cell) as nat) == 4 * bound);
        if row > 0 && m[row - 1][col] == cell + 1 {
            lemma_rate_bound(row - 1, col, m);
        }
        if row < m.len() - 1 && m[row + 1][col] == cell + 1 {
            lemma_rate_bound(row + 1, col, m);
        }
        if col > 0 && m[row][col - 1] == cell + 1 {
            lemma_rate_bound(row, col - 1, m);
        }
        if col < m[0].len() - 1 && m[row][col + 1] == cell + 1 {
            lemma_rate_bound(row, col + 1, m);
        }
        assert(pow4((9 - (cell + 1)) as nat) >= 1) by {
            lemma_pow4_pos((9 - (cell + 1)) as nat);
        }
    } else {
        lemma_pow4_pos((9 - cell) as nat);
    }
}

proof fn lemma_pow4_pos(k: nat)
    ensures
        pow4(k) >= 1,
    decreases k,
{
    if k > 0 {
        lemma_pow4_pos((k - 1) as nat);
    }
}

/// Counts the distinct strictly-climbing trails from this cell to any nine.
pub fn rate_trailhead(row: usize, col: usize, map: &Vec<Vec<u32>>) -> (res: usize)
    requires
        wf_heights(heights_view(map@)),
        row < map@.len(),
        col < map@[0]@.len(),
    ensures
        res == rate_spec(row as int, col as int, heights_view(map@)),
        res <= 262144,
    decreases 9 - heights_view(map@)[row as int][col as int],
{
    let ghost m = heights_view(map@);
    proof {
        assert(m[row as int] == map@[row as int]@);
        assert(m[0] == map@[0]@);
        assert(m[row as int].len() == m[0].len());
        lemma_rate_bound(row as int, col as int, m);
        assert(pow4(9) == 262144) by {
            reveal_with_fuel(pow4, 10);
        }
        if m[row as int][col as int] < 9 {
            lemma_pow4_monotone((9 - (m[row as int][col as int] + 1)) as nat, 9);
        }
    }
    let cell = map[row][col];
    if cell == 9 {
        return 1;
    }
    let mut res: usize = 0;
    if row > 0 {
        proof {
            assert(m[row - 1] == map@[row - 1]@);
            assert(m[row - 1].len() == m[0].len());
        }
        if map[row - 1][col] == cell + 1 {
            proof {
                lemma_rate_bound(row - 1, col as int, m);
                lemma_pow4_monotone((9 - m[row - 1][col as int]) as nat, 9);
            }
            res = res + rate_trailhead(row - 1, col, map);
        }
    }
    if row < map.len() - 1 {
        proof {
            assert(m[row + 1] == map@[row + 1]@);
            assert(m[row + 1].len() == m[0].len());
        }
        if map[row + 1][col] == cell + 1 {
            proof {
                lemma_rate_bound(row + 1, col as int, m);
                lemma_pow4_monotone((9 - m[row + 1][col as int]) as nat, 9);
            }
            res = res + rate_trailhead(row + 1, col, map);
        }
    }
    if col > 0 {
        if map[row][col - 1] == cell + 1 {
            proof {
                lemma_rate_bound(row as int, col - 1, m);
                lemma_pow4_monotone((9 - m[row as int][col - 1]) as nat, 9);
            }
            res = res + rate_trailhead(row, col - 1, map);
        }
    }
    if col < map[0].len() - 1 {
        if map[row][col + 1] == cell + 1 {
            proof {
                lemma_rate_bound(row as int, col + 1, m);
                lemma_pow4_monotone((9 - m[row as int][col + 1]) as nat, 9);
            }
            res = res + rate_trailhead(row, col + 1, map);
        }
    }
    proof {
        lemma_rate_bound(row as int, col as int, m);
    }
    res
}

proof fn lemma_pow4_monotone(a: nat, b: nat)
    requires
        a <= b,
    ensures
        pow4(a) <= pow4(b),
    decreases b,
{
    if a < b {
        lemma_pow4_monotone(a, (b - 1) as nat);
        lemma_pow4_pos((b - 1) as nat);
    }
}

/// The summed ratings of the trailheads among the first `n` cells of row
/// `r`, after all earlier rows.
pub open spec fn ratings_upto(m: Seq<Seq<u32>>, r: int, n: int) -> int
    decreases r, n,
{
    if n > 0 {
        ratings_upto(m, r, n - 1) + if m[r][n - 1] == 0 {
            rate_spec(r, n - 1, m)
        } else {
            0int
        }
    } else if r > 0 {
        ratings_upto(m, r - 1, m[0].len() as int)
    } else {
        0
    }
}

/// Sums the ratings of every trailhead (height-zero cell) of the map.
pub fn solve2(map: &Vec<Vec<u32>>) -> (res: usize)
    requires
        wf_heights(heights_view(map@)),
        map@.len() * map@[0]@.len() * 262144 <= usize::MAX,
    ensures
        res == ratings_upto(heights_view(map@), map@.len() - 1, map@[0]@.len() as int),
{
    let ghost m = heights_view(map@);
    let mut res: usize = 0;
    let mut i: usize = 0;
    proof {
        assert(m[0] == map@[0]@);
    }
    let width = map[0].len();
    while i < map.len()
        invariant
            0 <= i <= map@.len(),
            m == heights_view(map@),
            wf_heights(m),
            width == m[0].len(),
            res == (if i > 0 {
                ratings_upto(m, i - 1, width as int)
            } else {
                0int
            }),
            res <= i * width * 262144,
            map@.len() * map@[0]@.len() * 262144 <= usize::MAX,
        decreases map@.len() - i,
    {
        let mut j: usize = 0;
        while j < width
            invariant
                0 <= i < map@.len(),
                0 <= j <= width,
                m == heights_view(map@),
                wf_heights(m),
                width == m[0].len(),
                res == ratings_upto(m, i as int, j as int),
                res <= (i * width + j) * 262144,
                map@.len() * map@[0]@.len() * 262144 <= usize::MAX,
            decreases width - j,
        {
            proof {
                assert(m[i as int] == map@[i as int]@);
                assert(m[i as int].len() == m[0].len());
                assert((i * width + j + 1) * 262144 == (i * width + j) * 262144 + 262144);
                assert((i * width + j + 1) <= map@.len() * map@[0]@.len()) by (nonlinear_arith)
                    requires
                        0 <= i < map@.len(),
                        0 <= j < width,
                        width == map@[0]@.len(),
                ;
                assert((i * width + j + 1) * 262144 <= map@.len() * map@[0]@.len() * 262144)
                    by (nonlinear_arith)
                    requires
                        0 <= i * width + j + 1 <= map@.len() * map@[0]@.len(),
                ;
            }
            if map[i][j] == 0 {
                let rating = rate_trailhead(i, j, map);
                res = res + rating;
            }
            j = j + 1;
        }
        proof {
            assert(ratings_upto(m, i + 1, 0) == ratings_upto(m, i as int, width as int));
            assert((i + 1) * width * 262144 == (i * width + width) * 262144) by (nonlinear_arith);
        }
        i = i + 1;
    }
    res
}

} // verus!

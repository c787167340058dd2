//! Garden regions on a grid of plant labels: neighbours, region area, fence
//! perimeter, and the corner count that prices a region by its number of
//! straight sides.
use vstd::prelude::*;
use vstd::pervasive::VecAdditionalExecFns;

verus! {

/// The rows of the grid as plain sequences.
pub open spec fn grid_view(m: Seq<Vec<char>>) -> Seq<Seq<char>> {
    m.map_values(|v: Vec<char>| v@)
}

/// Every row is as long as the first.
pub open spec fn rectangular(m: Seq<Seq<char>>) -> bool {
    forall|i: int| 0 <= i < m.len() ==> #[trigger] m[i].len() == m[0].len()
}

/// The orthogonal neighbours of a cell that stay on an `h` by `w` grid, in
/// up, down, left, right order.
pub open spec fn neighbours_of(row: int, col: int, h: int, w: int) -> Seq<(usize, usize)> {
    (if row > 0 {
        seq![((row - 1) as usize, col as usize)]
    } else {
        Seq::empty()
    }) + (if row < h - 1 {
        seq![((row + 1) as usize, col as usize)]
    } else {
        Seq::empty()
    }) + (if col > 0 {
        seq![(row as usize, (col - 1) as usize)]
    } else {
        Seq::empty()
    }) + (if col < w - 1 {
        seq![(row as usize, (col + 1) as usize)]
    } else {
        Seq::empty()
    })
}

/// The in-grid orthogonal neighbours of a cell.
pub fn get_neighbours(row: usize, col: usize, map: &Vec<Vec<char>>) -> (res: Vec<(usize, usize)>)
    requires
        map@.len() > 0,
        row < map@.len(),
        col < map@[0]@.len(),
    ensures
        res@ == neighbours_of(row as int, col as int, map@.len() as int, map@[0]@.len() as int),
{
    let mut res: Vec<(usize, usize)> = Vec::new();
    if row > 0 {
        res.push((row - 1, col));
    }
    if row < map.len() - 1 {
        res.push((row + 1, col));
    }
    if col > 0 {
        res.push((row, col - 1));
    }
    if col < map[0].len() - 1 {
        res.push((row, col + 1));
    }
    proof {
        assert(res@ =~= neighbours_of(row as int, col as int, map@.len() as int, map@[0]@.len() as int));
    }
    res
}

/// The area of a region is simply how many cells it lists.
pub fn get_area(region: &Vec<(usize, usize)>) -> (area: usize)
    ensures
        area == region@.len(),
{
    region.len()
}

/// One when the named orthogonal neighbour exists and carries the same label.
pub open spec fn same_nb(m: Seq<Seq<char>>, r: int, c: int, dr: int, dc: int) -> int {
    if 0 <= r + dr < m.len() && 0 <= c + dc < m[0].len() && m[r + dr][c + dc] == m[r][c] {
        1
    } else {
        0
    }
}

/// A cell pays fence for each of its four sides not shared with its label.
pub open spec fn cell_perimeter(m: Seq<Seq<char>>, r: int, c: int) -> int {
    4 - same_nb(m, r, c, -1, 0) - same_nb(m, r, c, 1, 0) - same_nb(m, r, c, 0, -1) - same_nb(
        m,
        r,
        c,
        0,
        1,
    )
}

/// Total fence around the listed cells.
pub open spec fn perimeter_spec(region: Seq<(usize, usize)>, m: Seq<Seq<char>>) -> int
    decreases region.len(),
{
    if region.len() == 0 {
        0
    } else {
        perimeter_spec(region.drop_last(), m) + cell_perimeter(
            m,
            region.last().0 as int,
            region.last().1 as int,
        )
    }
}

/// Sums, over the region's cells, the sides not shared with a like-labelled
/// neighbour.
pub fn get_perimeter(region: &Vec<(usize, usize)>, map: &Vec<Vec<char>>) -> (res: usize)
    requires
        map@.len() > 0,
        rectangular(grid_view(map@)),
        forall|k: int|
            0 <= k < region@.len() ==> (#[trigger] region@[k]).0 < map@.len() && region@[k].1
                < map@[0]@.len(),
        region@.len() * 4 <= usize::MAX,
    ensures
        res == perimeter_spec(region@, grid_view(map@)),
{
    let ghost m = grid_view(map@);
    let mut res: usize = 0;
    let mut i: usize = 0;
    while i < region.len()
        invariant
            0 <= i <= region@.len(),
            m == grid_view(map@),
            map@.len() > 0,
            rectangular(m),
            forall|k: int|
                0 <= k < region@.len() ==> (#[trigger] region@[k]).0 < map@.len() && region@[k].1
                    < map@[0]@.len(),
            region@.len() * 4 <= usize::MAX,
            res == perimeter_spec(region@.take(i as int), m),
            res <= 4 * i,
        decreases region@.len() - i,
    {
        let (r, c) = region[i];
        proof {
            assert(region@[i as int].0 == r && region@[i as int].1 == c);
            assert(m[r as int] == map@[r as int]@);
            assert(m[0] == map@[0]@);
            assert(m[r as int].len() == m[0].len());
        }
        let name = map[r][c];
        let mut cell: usize = 4;
        proof {
            assert(name == m[r as int][c as int]);
        }
        if r > 0 {
            proof {
                assert(m[r - 1] == map@[r - 1]@);
                assert(m[r - 1].len() == m[0].len());
            }
            if map[r - 1][c] == name {
                cell = cell - 1;
            }
        }
        if r < map.len() - 1 {
            proof {
                assert(m[r + 1] == map@[r + 1]@);
                assert(m[r + 1].len() == m[0].len());
            }
            if map[r + 1][c] == name {
                cell = cell - 1;
            }
        }
        if c > 0 {
            if map[r][c - 1] == name {
                cell = cell - 1;
            }
        }
        if c < map[0].len() - 1 {
            if map[r][c + 1] == name {
                cell = cell - 1;
            }
        }
        proof {
            assert(cell == cell_perimeter(m, r as int, c as int));
            assert(region@.take(i + 1).drop_last() =~= region@.take(i as int));
            assert(region@.take(i + 1).last() == region@[i as int]);
        }
        res = res + cell;
        i = i + 1;
    }
    proof {
        assert(region@.take(region@.len() as int) =~= region@);
    }
    res
}

/// One when the three cells around a corner of the centre tile show a convex
/// or concave corner of the region.
pub open spec fn corner(a: bool, b: bool, c: bool) -> int {
    if (!a && !c) || (a && !b && c) {
        1
    } else {
        0
    }
}

/// The corner count of a three-by-three occupancy tile centred on a region
/// cell; each corner of the region adds one straight side.
pub open spec fn corners_of(t: Seq<Seq<bool>>) -> int {
    corner(t[0][1], t[0][2], t[1][2]) + corner(t[1][2], t[2][2], t[2][1]) + corner(
        t[2][1],
        t[2][0],
        t[1][0],
    ) + corner(t[1][0], t[0][0], t[0][1])
}

/// Counts the corners that the centre cell of the occupancy tile contributes.
pub fn count_corners_per_tile(tile: &Vec<Vec<bool>>) -> (res: usize)
    requires
        tile@.len() == 3,
        forall|i: int| 0 <= i < 3 ==> (#[trigger] tile@[i])@.len() == 3,
    ensures
        res == corners_of(tile@.map_values(|v: Vec<bool>| v@)),
{
    let ghost t = tile@.map_values(|v: Vec<bool>| v@);
    let mut res: usize = 0;
    let c01 = tile[0][1];
    let c02 = tile[0][2];
    let c12 = tile[1][2];
    let c22 = tile[2][2];
    let c21 = tile[2][1];
    let c20 = tile[2][0];
    let c10 = tile[1][0];
    let c00 = tile[0][0];
    proof {
        assert(t[0] == tile@[0]@ && t[1] == tile@[1]@ && t[2] == tile@[2]@);
    }
    if (!c01 && !c12) || (c01 && !c02 && c12) {
        res = res + 1;
    }
    if (!c12 && !c21) || (c12 && !c22 && c21) {
        res = res + 1;
    }
    if (!c21 && !c10) || (c21 && !c20 && c10) {
        res = res + 1;
    }
    if (!c10 && !c01) || (c10 && !c00 && c01) {
        res = res + 1;
    }
    res
}


/// How many entries of the row are still unmarked.
pub open spec fn row_unmarked(row: Seq<bool>) -> int
    decreases row.len(),
{
    if row.len() == 0 {
        0
    } else {
        row_unmarked(row.drop_last()) + if row.last() {
            0int
        } else {
            1int
        }
    }
}

/// How many cells of the visit grid are still unmarked.
pub open spec fn unmarked(used: Seq<Seq<bool>>) -> int
    decreases used.len(),
{
    if used.len() == 0 {
        0
    } else {
        unmarked(used.drop_last()) + row_unmarked(used.last())
    }
}

proof fn lemma_row_unmarked_set(row: Seq<bool>, c: int)
    requires
        0 <= c < row.len(),
        !row[c],
    ensures
        row_unmarked(row.update(c, true)) + 1 == row_unmarked(row),
        row_unmarked(row) >= 1,
    decreases row.len(),
{
    let t = row.update(c, true);
    if c == row.len() - 1 {
        assert(t.drop_last() =~= row.drop_last());
        lemma_row_unmarked_nonneg(row.drop_last());
    } else {
        assert(t.drop_last() =~= row.drop_last().update(c, true));
        lemma_row_unmarked_set(row.drop_last(), c);
        assert(t.last() == row.last());
    }
}

proof fn lemma_row_unmarked_nonneg(row: Seq<bool>)
    ensures
        row_unmarked(row) >= 0,
    decreases row.len(),
{
    if row.len() > 0 {
        lemma_row_unmarked_nonneg(row.drop_last());
    }
}

proof fn lemma_unmarked_nonneg(used: Seq<Seq<bool>>)
    ensures
        unmarked(used) >= 0,
    decreases used.len(),
{
    if used.len() > 0 {
        lemma_unmarked_nonneg(used.drop_last());
        lemma_row_unmarked_nonneg(used.last());
    }
}

/// Marking one unmarked cell lowers the unmarked count by one.
proof fn lemma_unmarked_set(used: Seq<Seq<bool>>, r: int, c: int)
    requires
        0 <= r < used.len(),
        0 <= c < used[r].len(),
        !used[r][c],
    ensures
        unmarked(used.update(r, used[r].update(c, true))) + 1 == unmarked(used),
        unmarked(used) >= 1,
    decreases used.len(),
{
    let t = used.update(r, used[r].update(c, true));
    if r == used.len() - 1 {
        assert(t.drop_last() =~= used.drop_last());
        lemma_row_unmarked_set(used.last(), c);
        lemma_unmarked_nonneg(used.drop_last());
    } else {
        assert(t.drop_last() =~= used.drop_last().update(r, used[r].update(c, true)));
        lemma_unmarked_set(used.drop_last(), r, c);
        assert(t.last() == used.last());
        lemma_row_unmarked_nonneg(used.last());
    }
}

/// The visit-grid view of the nested vector.
pub open spec fn used_view(used: Seq<Vec<bool>>) -> Seq<Seq<bool>> {
    used.map_values(|v: Vec<bool>| v@)
}

/// The visit grid has the same shape as the plant grid.
pub open spec fn used_matches(used: Seq<Seq<bool>>, m: Seq<Seq<char>>) -> bool {
    used.len() == m.len() && forall|r: int| 0 <= r < used.len() ==> #[trigger] used[r].len() == m[0].len()
}

/// The cell list holds `(r, c)`.
pub open spec fn region_has(region: Seq<(usize, usize)>, r: int, c: int) -> bool {
    exists|k: int| 0 <= k < region.len() && #[trigger] region[k] == ((r as usize, c as usize))
}

/// Every like-labelled in-grid neighbour of `(r, c)` is marked in the visit
/// grid.
pub open spec fn cell_closure(r: int, c: int, m: Seq<Seq<char>>, name: char, used: Seq<Seq<bool>>) -> bool {
    &&& r > 0 && m[r - 1][c] == name ==> used[r - 1][c]
    &&& r < m.len() - 1 && m[r + 1][c] == name ==> used[r + 1][c]
    &&& c > 0 && m[r][c - 1] == name ==> used[r][c - 1]
    &&& c < m[0].len() - 1 && m[r][c + 1] == name ==> used[r][c + 1]
}

/// Every like-labelled in-grid neighbour of `(r, c)` stands in the worklist.
pub open spec fn cell_pending(
    r: int,
    c: int,
    m: Seq<Seq<char>>,
    name: char,
    frontier: Seq<(usize, usize)>,
) -> bool {
    &&& r > 0 && m[r - 1][c] == name ==> region_has(frontier, r - 1, c)
    &&& r < m.len() - 1 && m[r + 1][c] == name ==> region_has(frontier, r + 1, c)
    &&& c > 0 && m[r][c - 1] == name ==> region_has(frontier, r, c - 1)
    &&& c < m[0].len() - 1 && m[r][c + 1] == name ==> region_has(frontier, r, c + 1)
}

/// A cell list keeps what it holds when it only grows at the end.
proof fn lemma_region_has_extend(
    pre: Seq<(usize, usize)>,
    post: Seq<(usize, usize)>,
    r: int,
    c: int,
)
    requires
        region_has(pre, r, c),
        pre.len() <= post.len(),
        forall|k: int| 0 <= k < pre.len() ==> #[trigger] post[k] == pre[k],
    ensures
        region_has(post, r, c),
{
    let w = choose|k: int| 0 <= k < pre.len() && #[trigger] pre[k] == ((r as usize, c as usize));
    assert(post[w] == pre[w]);
}

/// Collects one region by flooding outward from the start cell over
/// like-labelled neighbours, marking each visited cell: the cells returned
/// are exactly the newly marked ones, each carrying the start cell's label.
#[verifier::rlimit(100)]
pub fn floodfill_region(
    row: usize,
    col: usize,
    map: &Vec<Vec<char>>,
    used: &mut Vec<Vec<bool>>,
) -> (region: Vec<(usize, usize)>)
    requires
        map@.len() > 0,
        rectangular(grid_view(map@)),
        used_matches(used_view(old(used)@), grid_view(map@)),
        row < map@.len(),
        col < map@[0]@.len(),
    ensures
        used_matches(used_view(final(used)@), grid_view(map@)),
        forall|k: int|
            0 <= k < region@.len() ==> {
                let cell = #[trigger] region@[k];
                &&& cell.0 < map@.len()
                &&& cell.1 < map@[0]@.len()
                &&& grid_view(map@)[cell.0 as int][cell.1 as int] == grid_view(
                    map@,
                )[row as int][col as int]
                &&& !used_view(old(used)@)[cell.0 as int][cell.1 as int]
            },
        forall|k1: int, k2: int|
            0 <= k1 < k2 < region@.len() ==> #[trigger] region@[k1] != #[trigger] region@[k2],
        forall|r: int, c: int|
            0 <= r < map@.len() && 0 <= c < map@[0]@.len() ==> (#[trigger] used_view(
                final(used)@,
            )[r][c] == (used_view(old(used)@)[r][c] || region_has(region@, r, c))),
        !used_view(old(used)@)[row as int][col as int] ==> region_has(
            region@,
            row as int,
            col as int,
        ),
        forall|k: int|
            0 <= k < region@.len() ==> #[trigger] cell_closure(
                region@[k].0 as int,
                region@[k].1 as int,
                grid_view(map@),
                grid_view(map@)[row as int][col as int],
                used_view(final(used)@),
            ),
{
    let ghost m = grid_view(map@);
    let ghost used0 = used_view(used@);
    proof {
        assert(m[row as int] == map@[row as int]@);
        assert(m[0] == map@[0]@);
        assert(m[row as int].len() == m[0].len());
    }
    let name = map[row][col];
    let height = map.len();
    let width = map[0].len();
    proof {
        assert(map@.len() == height && map@[0]@.len() == width);
    }
    let mut region: Vec<(usize, usize)> = Vec::new();
    let mut frontier: Vec<(usize, usize)> = Vec::new();
    frontier.push((row, col));
    let mut head: usize = 0;
    while head < frontier.len()
        invariant
            map@.len() > 0,
            rectangular(m),
            m == grid_view(map@),
            used0 == used_view(old(used)@),
            used_matches(used0, m),
            used_matches(used_view(used@), m),
            name == m[row as int][col as int],
            row < map@.len(),
            col < map@[0]@.len(),
            map@.len() <= usize::MAX,
            map@[0]@.len() <= usize::MAX,
            height == map@.len(),
            width == map@[0]@.len(),
            height > 0,
            head <= frontier@.len(),
            frontier@[0] == ((row, col)),
            frontier@.len() >= 1,
            forall|k: int|
                0 <= k < frontier@.len() ==> {
                    let cell = #[trigger] frontier@[k];
                    &&& cell.0 < map@.len()
                    &&& cell.1 < map@[0]@.len()
                    &&& m[cell.0 as int][cell.1 as int] == name
                },
            forall|k: int|
                0 <= k < head ==> used_view(used@)[(#[trigger] frontier@[k]).0 as int][frontier@[k].1 as int],
            forall|k: int|
                0 <= k < region@.len() ==> {
                    let cell = #[trigger] region@[k];
                    &&& cell.0 < map@.len()
                    &&& cell.1 < map@[0]@.len()
                    &&& m[cell.0 as int][cell.1 as int] == name
                    &&& !used0[cell.0 as int][cell.1 as int]
                },
            forall|k1: int, k2: int|
                0 <= k1 < k2 < region@.len() ==> #[trigger] region@[k1] != #[trigger] region@[k2],
            forall|r: int, c: int|
                0 <= r < map@.len() && 0 <= c < map@[0]@.len() ==> (#[trigger] used_view(
                    used@,
                )[r][c] == (used0[r][c] || region_has(region@, r, c))),
            forall|k: int|
                0 <= k < region@.len() ==> #[trigger] cell_pending(
                    region@[k].0 as int,
                    region@[k].1 as int,
                    m,
                    name,
                    frontier@,
                ),
        decreases unmarked(used_view(used@)), frontier@.len() - head,
    {
        let (r, c) = frontier[head];
        head = head + 1;
        proof {
            assert(frontier@[head - 1] == (r, c));
            assert(used_view(used@)[r as int] == used@[r as int]@);
            assert(used_view(used@)[r as int].len() == m[0].len());
            lemma_unmarked_nonneg(used_view(used@));
        }
        if used[r][c] {
            continue ;
        }
        let ghost pre_used = used_view(used@);
        let ghost pre_region = region@;
        region.push((r, c));
        let mut marked_row = used[r].clone();
        marked_row.set(c, true);
        used.set(r, marked_row);
        proof {
            assert(used_view(used@) =~= pre_used.update(
                r as int,
                pre_used[r as int].update(c as int, true),
            ));
            lemma_unmarked_set(pre_used, r as int, c as int);
            assert(region@[region@.len() - 1] == ((r, c)));
            assert forall|rr: int, cc: int|
                0 <= rr < map@.len() && 0 <= cc < map@[0]@.len() implies (#[trigger] used_view(
                used@,
            )[rr][cc] == (used0[rr][cc] || region_has(region@, rr, cc))) by {
                assert(pre_used[rr][cc] == (used0[rr][cc] || region_has(pre_region, rr, cc)));
                if rr == r && cc == c {
                    assert(used_view(used@)[rr][cc]);
                } else {
                    assert(used_view(used@)[rr][cc] == pre_used[rr][cc]);
                    assert((rr as usize) as int == rr && (cc as usize) as int == cc);
                    assert(((rr as usize, cc as usize)) != ((r, c)));
                    if region_has(region@, rr, cc) {
                        let w = choose|k: int|
                            0 <= k < region@.len() && #[trigger] region@[k] == ((
                            rr as usize,
                            cc as usize,
                        ));
                        assert(region@[w] == ((rr as usize, cc as usize)));
                        assert(w != region@.len() - 1);
                        assert(pre_region[w] == ((rr as usize, cc as usize)));
                    }
                    if region_has(pre_region, rr, cc) {
                        let w = choose|k: int|
                            0 <= k < pre_region.len() && #[trigger] pre_region[k] == ((
                            rr as usize,
                            cc as usize,
                        ));
                        assert(region@[w] == ((rr as usize, cc as usize)));
                    }
                }
            }
            assert forall|k1: int, k2: int| 0 <= k1 < k2 < region@.len() implies #[trigger] region@[k1]
                != #[trigger] region@[k2] by {
                if k2 == region@.len() - 1 {
                    if region@[k1] == ((r, c)) {
                        assert(pre_region[k1] == ((r, c)));
                        assert(region_has(pre_region, r as int, c as int));
                        assert(pre_used[r as int][c as int]);
                    }
                } else {
                    assert(pre_region[k1] == region@[k1] && pre_region[k2] == region@[k2]);
                }
            }
        }
        let ghost f0 = frontier@;
        if r > 0 {
            proof {
                assert(m[r - 1] == map@[r - 1]@);
                assert(m[r - 1].len() == m[0].len());
            }
            if map[r - 1][c] == name {
                frontier.push((r - 1, c));
                proof {
                    assert(frontier@.last() == (((r - 1) as usize, c)));
                }
            }
        }
        let ghost f1 = frontier@;
        if r < height - 1 {
            proof {
                assert(m[r + 1] == map@[r + 1]@);
                assert(m[r + 1].len() == m[0].len());
            }
            if map[r + 1][c] == name {
                frontier.push((r + 1, c));
                proof {
                    assert(frontier@.last() == (((r + 1) as usize, c)));
                }
            }
        }
        let ghost f2 = frontier@;
        if c > 0 {
            if map[r][c - 1] == name {
                frontier.push((r, c - 1));
                proof {
                    assert(frontier@.last() == ((r, (c - 1) as usize)));
                }
            }
        }
        let ghost f3 = frontier@;
        if c < width - 1 {
            if map[r][c + 1] == name {
                frontier.push((r, c + 1));
                proof {
                    assert(frontier@.last() == ((r, (c + 1) as usize)));
                }
            }
        }
        proof {
            let f4 = frontier@;
            assert(f0.len() <= f1.len() <= f2.len() <= f3.len() <= f4.len());
            assert forall|k: int| 0 <= k < f0.len() implies #[trigger] f4[k] == f0[k] by {
                assert(f1[k] == f0[k] && f2[k] == f1[k] && f3[k] == f2[k] && f4[k] == f3[k]);
            }
            assert forall|k: int| 0 <= k < f1.len() implies #[trigger] f4[k] == f1[k] by {
                assert(f2[k] == f1[k] && f3[k] == f2[k] && f4[k] == f3[k]);
            }
            assert forall|k: int| 0 <= k < f2.len() implies #[trigger] f4[k] == f2[k] by {
                assert(f3[k] == f2[k] && f4[k] == f3[k]);
            }
            assert forall|k: int| 0 <= k < f3.len() implies #[trigger] f4[k] == f3[k] by {
                assert(f4[k] == f3[k]);
            }
            assert(cell_pending(r as int, c as int, m, name, f4)) by {
                if r > 0 && m[r - 1][c as int] == name {
                    lemma_region_has_extend(f1, f4, r - 1, c as int);
                }
                if r < m.len() - 1 && m[r + 1][c as int] == name {
                    lemma_region_has_extend(f2, f4, r + 1, c as int);
                }
                if c > 0 && m[r as int][c - 1] == name {
                    lemma_region_has_extend(f3, f4, r as int, c - 1);
                }
            }
            assert forall|k: int| 0 <= k < region@.len() implies #[trigger] cell_pending(
                region@[k].0 as int,
                region@[k].1 as int,
                m,
                name,
                frontier@,
            ) by {
                if k < pre_region.len() {
                    let rr = region@[k].0 as int;
                    let cc = region@[k].1 as int;
                    assert(region@[k] == pre_region[k]);
                    assert(cell_pending(
                        pre_region[k].0 as int,
                        pre_region[k].1 as int,
                        m,
                        name,
                        f0,
                    ));
                    if rr > 0 && m[rr - 1][cc] == name {
                        lemma_region_has_extend(f0, f4, rr - 1, cc);
                    }
                    if rr < m.len() - 1 && m[rr + 1][cc] == name {
                        lemma_region_has_extend(f0, f4, rr + 1, cc);
                    }
                    if cc > 0 && m[rr][cc - 1] == name {
                        lemma_region_has_extend(f0, f4, rr, cc - 1);
                    }
                    if cc < m[0].len() - 1 && m[rr][cc + 1] == name {
                        lemma_region_has_extend(f0, f4, rr, cc + 1);
                    }
                } else {
                    assert(region@[k] == ((r, c)));
                }
            }
        }
    }
    proof {
        if !used0[row as int][col as int] && !region_has(region@, row as int, col as int) {
            assert(used_view(used@)[row as int][col as int]);
        }
        assert forall|k: int| 0 <= k < region@.len() implies #[trigger] cell_closure(
            region@[k].0 as int,
            region@[k].1 as int,
            m,
            m[row as int][col as int],
            used_view(used@),
        ) by {
            let rr = region@[k].0 as int;
            let cc = region@[k].1 as int;
            assert(cell_pending(rr, cc, m, name, frontier@));
            if rr > 0 && m[rr - 1][cc] == name {
                let w = choose|t: int|
                    0 <= t < frontier@.len() && #[trigger] frontier@[t] == ((
                    (rr - 1) as usize,
                    cc as usize,
                ));
                assert(used_view(used@)[(frontier@[w]).0 as int][frontier@[w].1 as int]);
            }
            if rr < m.len() - 1 && m[rr + 1][cc] == name {
                let w = choose|t: int|
                    0 <= t < frontier@.len() && #[trigger] frontier@[t] == ((
                    (rr + 1) as usize,
                    cc as usize,
                ));
                assert(used_view(used@)[(frontier@[w]).0 as int][frontier@[w].1 as int]);
            }
            if cc > 0 && m[rr][cc - 1] == name {
                let w = choose|t: int|
                    0 <= t < frontier@.len() && #[trigger] frontier@[t] == ((
                    rr as usize,
                    (cc - 1) as usize,
                ));
                assert(used_view(used@)[(frontier@[w]).0 as int][frontier@[w].1 as int]);
            }
            if cc < m[0].len() - 1 && m[rr][cc + 1] == name {
                let w = choose|t: int|
                    0 <= t < frontier@.len() && #[trigger] frontier@[t] == ((
                    rr as usize,
                    (cc + 1) as usize,
                ));
                assert(used_view(used@)[(frontier@[w]).0 as int][frontier@[w].1 as int]);
            }
        }
    }
    region
}


/// Whether some listed cell is `(r, c)`.
fn region_contains(region: &Vec<(usize, usize)>, r: usize, c: usize) -> (found: bool)
    ensures
        found == region_has(region@, r as int, c as int),
{
    let mut k: usize = 0;
    while k < region.len()
        invariant
            0 <= k <= region@.len(),
            forall|t: int| 0 <= t < k ==> #[trigger] region@[t] != ((r, c)),
        decreases region@.len() - k,
    {
        let cell = region[k];
        if cell.0 == r && cell.1 == c {
            proof {
                assert(region@[k as int] == ((r, c)));
            }
            return true;
        }
        k = k + 1;
    }
    false
}

/// The three-by-three occupancy tile centred on `(r, c)`: which of the
/// surrounding cells lie on the grid and in the region.
pub open spec fn tile_spec(region: Seq<(usize, usize)>, r: int, c: int, h: int, w: int) -> Seq<
    Seq<bool>,
> {
    Seq::new(
        3,
        |di: int|
            Seq::new(
                3,
                |dj: int|
                    {
                        let rr = r + di - 1;
                        let cc = c + dj - 1;
                        0 <= rr < h && 0 <= cc < w && region_has(region, rr, cc)
                    },
            ),
    )
}

/// The corner count of the first `n` region cells, each read off its
/// occupancy tile; every corner is one straight side of the region.
pub open spec fn sides_prefix(region: Seq<(usize, usize)>, h: int, w: int, n: int) -> int
    decreases n,
{
    if n <= 0 {
        0
    } else {
        sides_prefix(region, h, w, n - 1) + corners_of(
            tile_spec(region, region[n - 1].0 as int, region[n - 1].1 as int, h, w),
        )
    }
}

/// Counts the region's straight sides: every cell contributes the corners of
/// its occupancy tile.
pub fn count_sides(region: &Vec<(usize, usize)>, map: &Vec<Vec<char>>) -> (res: usize)
    requires
        map@.len() > 0,
        map@.len() <= 1000000,
        map@[0]@.len() <= 1000000,
        forall|k: int|
            0 <= k < region@.len() ==> (#[trigger] region@[k]).0 < map@.len() && region@[k].1
                < map@[0]@.len(),
        region@.len() * 4 <= usize::MAX,
    ensures
        res == sides_prefix(
            region@,
            map@.len() as int,
            map@[0]@.len() as int,
            region@.len() as int,
        ),
{
    let height = map.len();
    let width = map[0].len();
    let mut res: usize = 0;
    let mut i: usize = 0;
    while i < region.len()
        invariant
            0 <= i <= region@.len(),
            height == map@.len(),
            width == map@[0]@.len(),
            height > 0,
            height <= 1000000,
            width <= 1000000,
            forall|k: int|
                0 <= k < region@.len() ==> (#[trigger] region@[k]).0 < map@.len() && region@[k].1
                    < map@[0]@.len(),
            region@.len() * 4 <= usize::MAX,
            res == sides_prefix(region@, height as int, width as int, i as int),
            res <= i * 4,
        decreases region@.len() - i,
    {
        let (r, c) = region[i];
        proof {
            assert(region@[i as int] == ((r, c)));
        }
        let mut tile: Vec<Vec<bool>> = Vec::new();
        let mut di: usize = 0;
        while di < 3
            invariant
                0 <= di <= 3,
                height == map@.len(),
                width == map@[0]@.len(),
                r < height,
                c < width,
                height <= 1000000,
                width <= 1000000,
                tile@.len() == di,
                forall|a: int|
                    0 <= a < di ==> (#[trigger] tile@[a])@ == tile_spec(
                        region@,
                        r as int,
                        c as int,
                        height as int,
                        width as int,
                    )[a],
            decreases 3 - di,
        {
            let mut tile_row: Vec<bool> = Vec::new();
            let mut dj: usize = 0;
            while dj < 3
                invariant
                    0 <= dj <= 3,
                    0 <= di < 3,
                    height == map@.len(),
                    width == map@[0]@.len(),
                    r < height,
                    c < width,
                    height <= 1000000,
                    width <= 1000000,
                    tile_row@.len() == dj,
                    forall|b: int|
                        0 <= b < dj ==> #[trigger] tile_row@[b] == tile_spec(
                            region@,
                            r as int,
                            c as int,
                            height as int,
                            width as int,
                        )[di as int][b],
                decreases 3 - dj,
            {
                let rr = r as i64 + di as i64 - 1;
                let cc = c as i64 + dj as i64 - 1;
                let inside = 0 <= rr && rr < height as i64 && 0 <= cc && cc < width as i64
                    && region_contains(region, rr as usize, cc as usize);
                tile_row.push(inside);
                dj = dj + 1;
            }
            tile.push(tile_row);
            proof {
                assert(tile@[di as int]@ =~= tile_spec(
                    region@,
                    r as int,
                    c as int,
                    height as int,
                    width as int,
                )[di as int]);
            }
            di = di + 1;
        }
        let corners = count_corners_per_tile(&tile);
        proof {
            assert(tile@.map_values(|v: Vec<bool>| v@) =~= tile_spec(
                region@,
                r as int,
                c as int,
                height as int,
                width as int,
            ));
            assert((i + 1) * 4 == i * 4 + 4);
            assert((i + 1) * 4 <= region@.len() * 4) by (nonlinear_arith)
                requires
                    0 <= i + 1 <= region@.len(),
            ;
        }
        res = res + corners;
        i = i + 1;
    }
    res
}

} // verus!

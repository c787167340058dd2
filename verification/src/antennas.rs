//! Antennas on a city grid: every pair of like-tuned antennas projects
//! antinodes along their line, and only the ones on the grid count.
use vstd::prelude::*;

verus! {

#[derive(Clone, Copy, PartialEq, Eq, Structural, Debug)]
pub struct Position {
    pub row: i32,
    pub col: i32,
}

/// `a` is a multiple of `d`.
pub open spec fn divides(d: int, a: int) -> bool
    recommends
        d != 0,
{
    a % d == 0
}

/// Relies on gcd::binary_u32: the greatest common divisor of its arguments,
/// which is the other argument when one is zero.
#[verifier::external_body]
fn gcd_u32(a: u32, b: u32) -> (g: u32)
    ensures
        a == 0 && b == 0 ==> g == 0,
        a != 0 || b != 0 ==> g >= 1 && divides(g as int, a as int) && divides(g as int, b as int)
            && forall|d: u32|
            d >= 1 && #[trigger] divides(d as int, a as int) && divides(d as int, b as int)
                ==> d <= g,
{
    gcd::binary_u32(a, b)
}

/// `g` divides both magnitudes and no larger value does.
pub open spec fn is_gcd_of(r: int, c: int, g: int) -> bool {
    &&& g >= 1
    &&& divides(g, abs_val(r))
    &&& divides(g, abs_val(c))
    &&& forall|d: int|
        d >= 1 && #[trigger] divides(d, abs_val(r)) && divides(d, abs_val(c)) ==> d <= g
}

pub open spec fn abs_val(a: int) -> int {
    if a >= 0 {
        a
    } else {
        -a
    }
}

impl Position {
    /// Divide both components by their greatest common divisor, keeping the
    /// direction but making the step as short as possible.
    pub fn simplify(&mut self)
        requires
            old(self).row != 0 || old(self).col != 0,
            i32::MIN < old(self).row,
            i32::MIN < old(self).col,
        ensures
            exists|g: int|
                #[trigger] is_gcd_of(old(self).row as int, old(self).col as int, g)
                    && final(self).row * g == old(self).row && final(self).col * g == old(
                    self,
                ).col,
    {
        let ur: u32 = if self.row >= 0 {
            self.row as u32
        } else {
            (-self.row) as u32
        };
        let uc: u32 = if self.col >= 0 {
            self.col as u32
        } else {
            (-self.col) as u32
        };
        let g = gcd_u32(ur, uc);
        let qr = ur / g;
        let qc = uc / g;
        proof {
            assert(qr * g == ur) by (nonlinear_arith)
                requires
                    g >= 1,
                    ur % g == 0,
                    qr == ur / g,
            ;
            assert(qc * g == uc) by (nonlinear_arith)
                requires
                    g >= 1,
                    uc % g == 0,
                    qc == uc / g,
            ;
            assert(is_gcd_of(old(self).row as int, old(self).col as int, g as int)) by {
                assert(abs_val(old(self).row as int) == ur && abs_val(old(self).col as int) == uc);
                assert forall|d: int|
                    d >= 1 && #[trigger] divides(d, abs_val(old(self).row as int)) && divides(
                        d,
                        abs_val(old(self).col as int),
                    ) implies d <= g by {
                    if d <= u32::MAX {
                        assert(divides((d as u32) as int, ur as int));
                        assert(divides((d as u32) as int, uc as int));
                    } else {
                        assert(ur < d && uc < d);
                        assert(ur as int % d == ur) by (nonlinear_arith)
                            requires
                                0 <= ur < d,
                        ;
                        assert(uc as int % d == uc) by (nonlinear_arith)
                            requires
                                0 <= uc < d,
                        ;
                        assert(ur == 0 && uc == 0);
                        assert(false);
                    }
                }
            }
        }
        self.row = if self.row >= 0 {
            qr as i32
        } else {
            -(qr as i32)
        };
        self.col = if self.col >= 0 {
            qc as i32
        } else {
            -(qc as i32)
        };
        proof {
            let gi = g as int;
            assert(-(qr as int) * gi == -((qr as int) * gi)) by (nonlinear_arith);
            assert(-(qc as int) * gi == -((qc as int) * gi)) by (nonlinear_arith);
            assert(self.row * gi == old(self).row);
            assert(self.col * gi == old(self).col);
        }
    }
}

/// An antenna: its frequency label and its position.
#[derive(Clone, Copy, PartialEq, Eq, Structural, Debug)]
pub struct Antena {
    pub kind: char,
    pub position: Position,
}

/// The city: its antennas and its extent.
#[derive(Clone, Debug)]
pub struct AntennaMap {
    pub antennae: Vec<Antena>,
    pub rows: usize,
    pub cols: usize,
}

/// The position lies on the grid.
pub open spec fn on_map(p: Position, rows: int, cols: int) -> bool {
    0 <= p.row < rows && 0 <= p.col < cols
}

impl AntennaMap {
    /// Whether the position lies on the grid.
    pub fn contains(&self, position: &Position) -> (r: bool)
        requires
            self.rows <= i32::MAX,
            self.cols <= i32::MAX,
        ensures
            r == on_map(*position, self.rows as int, self.cols as int),
    {
        0 <= position.row && position.row < self.rows as i32 && 0 <= position.col && position.col
            < self.cols as i32
    }
}

/// The coordinates are small enough for the antinode arithmetic.
pub open spec fn small_pos(p: Position) -> bool {
    -500000000 <= p.row <= 500000000 && -500000000 <= p.col <= 500000000
}

/// The two mirror antinodes of a pair, kept only when they fall on the grid:
/// one past `a` away from `b`, and one past `b` away from `a`.
pub open spec fn pair_antinodes(a: Position, b: Position, rows: int, cols: int) -> Seq<Position> {
    let na = Position { row: (2 * a.row - b.row) as i32, col: (2 * a.col - b.col) as i32 };
    let nb = Position { row: (2 * b.row - a.row) as i32, col: (2 * b.col - a.col) as i32 };
    (if on_map(na, rows, cols) {
        seq![na]
    } else {
        Seq::empty()
    }) + (if on_map(nb, rows, cols) {
        seq![nb]
    } else {
        Seq::empty()
    })
}

/// The on-grid antinodes that a pair of like antennas projects.
pub fn get_antinodes_in_pair(a: &Antena, b: &Antena, map: &AntennaMap) -> (r: Vec<Position>)
    requires
        small_pos(a.position),
        small_pos(b.position),
        map.rows <= i32::MAX,
        map.cols <= i32::MAX,
    ensures
        r@ == pair_antinodes(a.position, b.position, map.rows as int, map.cols as int),
{
    let mut antinodes: Vec<Position> = Vec::new();
    let antinode_a = Position {
        row: a.position.row - (b.position.row - a.position.row),
        col: a.position.col - (b.position.col - a.position.col),
    };
    if map.contains(&antinode_a) {
        antinodes.push(antinode_a);
    }
    let antinode_b = Position {
        row: b.position.row + (b.position.row - a.position.row),
        col: b.position.col + (b.position.col - a.position.col),
    };
    if map.contains(&antinode_b) {
        antinodes.push(antinode_b);
    }
    proof {
        assert(antinodes@ =~= pair_antinodes(
            a.position,
            b.position,
            map.rows as int,
            map.cols as int,
        ));
    }
    antinodes
}


/// How many steps of `(dr, dc)` can still be taken from `(r, c)` before the
/// moving coordinate leaves the grid; zero once off or with no step.
pub open spec fn ray_fuel(r: int, c: int, dr: int, dc: int, rows: int, cols: int) -> int {
    if dr > 0 {
        if rows - r > 0 {
            rows - r
        } else {
            0
        }
    } else if dr < 0 {
        if r + 1 > 0 {
            r + 1
        } else {
            0
        }
    } else if dc > 0 {
        if cols - c > 0 {
            cols - c
        } else {
            0
        }
    } else if dc < 0 {
        if c + 1 > 0 {
            c + 1
        } else {
            0
        }
    } else {
        0
    }
}

/// The grid points hit by stepping from `(r, c)` by `(dr, dc)` until the
/// first point off the grid.
pub open spec fn ray(r: int, c: int, dr: int, dc: int, rows: int, cols: int) -> Seq<Position>
    decreases ray_fuel(r, c, dr, dc, rows, cols),
{
    if !(0 <= r < rows && 0 <= c < cols) || (dr == 0 && dc == 0) {
        Seq::empty()
    } else {
        seq![Position { row: r as i32, col: c as i32 }] + ray(r + dr, c + dc, dr, dc, rows, cols)
    }
}

/// `(dr, dc)` is the unit step of the pair: its position delta divided by
/// the delta's greatest common divisor `g`.
pub open spec fn unit_step(a: Position, b: Position, g: int, dr: int, dc: int) -> bool {
    &&& is_gcd_of(b.row - a.row, b.col - a.col, g)
    &&& dr * g == b.row - a.row
    &&& dc * g == b.col - a.col
}

/// All on-grid antinodes along the line of a pair of like antennas: every
/// grid point from `a` in unit steps of the pair's direction, in both
/// directions, until the line leaves the grid each way.
pub fn get_antinodes_in_line(a: &Antena, b: &Antena, map: &AntennaMap) -> (r: Vec<Position>)
    requires
        small_pos(a.position),
        small_pos(b.position),
        a.position != b.position,
        map.rows <= 500000000,
        map.cols <= 500000000,
    ensures
        exists|g: int, dr: int, dc: int|
            {
                &&& #[trigger] unit_step(a.position, b.position, g, dr, dc)
                &&& r@ == ray(
                    a.position.row as int,
                    a.position.col as int,
                    -dr,
                    -dc,
                    map.rows as int,
                    map.cols as int,
                ) + ray(
                    a.position.row + dr,
                    a.position.col + dc,
                    dr,
                    dc,
                    map.rows as int,
                    map.cols as int,
                )
            },
{
    let rows = map.rows;
    let cols = map.cols;
    let mut delta = Position {
        row: b.position.row - a.position.row,
        col: b.position.col - a.position.col,
    };
    delta.simplify();
    let dr = delta.row;
    let dc = delta.col;
    let ghost g: int = choose|g: int|
        #[trigger] is_gcd_of(
            b.position.row - a.position.row,
            b.position.col - a.position.col,
            g,
        ) && dr * g == b.position.row - a.position.row && dc * g == b.position.col
            - a.position.col;
    proof {
        assert(dr != 0 || dc != 0) by {
            if dr == 0 && dc == 0 {
                assert(0 * g == 0) by (nonlinear_arith);
            }
        }
        assert(-1000000000 <= dr <= 1000000000 && -1000000000 <= dc <= 1000000000) by {
            lemma_factor_bounded(dr as int, g, b.position.row - a.position.row);
            lemma_factor_bounded(dc as int, g, b.position.col - a.position.col);
        }
    }
    let mut antinodes: Vec<Position> = Vec::new();
    let mut cur = a.position;
    let ghost whole_back = ray(
        a.position.row as int,
        a.position.col as int,
        -(dr as int),
        -(dc as int),
        rows as int,
        cols as int,
    );
    while map.contains(&cur)
        invariant
            rows == map.rows,
            cols == map.cols,
            map.rows <= 500000000,
            map.cols <= 500000000,
            -1000000000 <= dr <= 1000000000,
            -1000000000 <= dc <= 1000000000,
            dr != 0 || dc != 0,
            -2000000000 <= cur.row <= 2000000000,
            -2000000000 <= cur.col <= 2000000000,
            whole_back == antinodes@ + ray(
                cur.row as int,
                cur.col as int,
                -(dr as int),
                -(dc as int),
                rows as int,
                cols as int,
            ),
        decreases ray_fuel(cur.row as int, cur.col as int, -(dr as int), -(dc as int), rows as int, cols as int),
    {
        proof {
            assert(ray(cur.row as int, cur.col as int, -(dr as int), -(dc as int), rows as int, cols as int)
                == seq![cur] + ray(
                cur.row - dr,
                cur.col - dc,
                -(dr as int),
                -(dc as int),
                rows as int,
                cols as int,
            ));
            assert(antinodes@ + (seq![cur] + ray(
                cur.row - dr,
                cur.col - dc,
                -(dr as int),
                -(dc as int),
                rows as int,
                cols as int,
            )) =~= (antinodes@ + seq![cur]) + ray(
                cur.row - dr,
                cur.col - dc,
                -(dr as int),
                -(dc as int),
                rows as int,
                cols as int,
            ));
            assert(antinodes@.push(cur) =~= antinodes@ + seq![cur]);
        }
        antinodes.push(cur);
        cur = Position { row: cur.row - dr, col: cur.col - dc };
    }
    let ghost back_len = antinodes@.len();
    let mut fwd = Position { row: a.position.row + dr, col: a.position.col + dc };
    let ghost whole_fwd = ray(
        a.position.row + dr,
        a.position.col + dc,
        dr as int,
        dc as int,
        rows as int,
        cols as int,
    );
    let ghost back_part = antinodes@;
    while map.contains(&fwd)
        invariant
            rows == map.rows,
            cols == map.cols,
            map.rows <= 500000000,
            map.cols <= 500000000,
            -1000000000 <= dr <= 1000000000,
            -1000000000 <= dc <= 1000000000,
            dr != 0 || dc != 0,
            -2000000000 <= fwd.row <= 2000000000,
            -2000000000 <= fwd.col <= 2000000000,
            back_part + whole_fwd == antinodes@ + ray(
                fwd.row as int,
                fwd.col as int,
                dr as int,
                dc as int,
                rows as int,
                cols as int,
            ),
        decreases ray_fuel(fwd.row as int, fwd.col as int, dr as int, dc as int, rows as int, cols as int),
    {
        proof {
            assert(ray(fwd.row as int, fwd.col as int, dr as int, dc as int, rows as int, cols as int)
                == seq![fwd] + ray(fwd.row + dr, fwd.col + dc, dr as int, dc as int, rows as int, cols as int));
            assert(antinodes@ + (seq![fwd] + ray(
                fwd.row + dr,
                fwd.col + dc,
                dr as int,
                dc as int,
                rows as int,
                cols as int,
            )) =~= (antinodes@ + seq![fwd]) + ray(
                fwd.row + dr,
                fwd.col + dc,
                dr as int,
                dc as int,
                rows as int,
                cols as int,
            ));
            assert(antinodes@.push(fwd) =~= antinodes@ + seq![fwd]);
        }
        antinodes.push(fwd);
        fwd = Position { row: fwd.row + dr, col: fwd.col + dc };
    }
    proof {
        assert(ray(cur.row as int, cur.col as int, -(dr as int), -(dc as int), rows as int, cols as int)
            == Seq::<Position>::empty());
        assert(ray(fwd.row as int, fwd.col as int, dr as int, dc as int, rows as int, cols as int)
            == Seq::<Position>::empty());
        assert(back_part =~= back_part + Seq::<Position>::empty());
        assert(antinodes@ =~= antinodes@ + Seq::<Position>::empty());
        assert(antinodes@ == back_part + whole_fwd);
        assert(back_part == whole_back);
        assert(antinodes@ == whole_back + whole_fwd);
        assert(unit_step(a.position, b.position, g, dr as int, dc as int));
    }
    antinodes
}

/// A factor of a bounded product is itself bounded when the other factor is
/// at least one.
proof fn lemma_factor_bounded(d: int, g: int, prod: int)
    requires
        g >= 1,
        d * g == prod,
        -1000000000 <= prod <= 1000000000,
    ensures
        -1000000000 <= d <= 1000000000,
{
    assert(-1000000000 <= d <= 1000000000) by (nonlinear_arith)
        requires
            g >= 1,
            d * g == prod,
            -1000000000 <= prod <= 1000000000,
    ;
}

} // verus!

//! Robots patrolling a toroidal bathroom floor: each has a position and a
//! velocity, advances by whole steps, and wraps around both edges.
use vstd::prelude::*;

verus! {

#[derive(Clone, Copy, PartialEq, Eq, Structural, Debug)]
pub struct Vec2 {
    pub x: i32,
    pub y: i32,
}

#[derive(Clone, Copy, PartialEq, Eq, Structural, Debug)]
pub struct Robot {
    pub position: Vec2,
    pub velocity: Vec2,
}

/// Where a coordinate lands after `t` steps of `v` on a ring of `size`
/// cells; `v + size` keeps the dividend non-negative.
pub open spec fn wrapped(p: int, v: int, size: int, t: int) -> int {
    (p + (v + size) * t) % size
}

impl Robot {
    /// The robot after flying for the given duration on a `width` by
    /// `height` torus.
    pub fn step(&self, duration: u32, width: u32, height: u32) -> (r: Robot)
        requires
            0 < width <= 1000000,
            0 < height <= 1000000,
            duration <= 1000000,
            0 <= self.position.x < width,
            0 <= self.position.y < height,
            -(width as int) <= self.velocity.x <= width,
            -(height as int) <= self.velocity.y <= height,
        ensures
            r.velocity == self.velocity,
            r.position.x == wrapped(
                self.position.x as int,
                self.velocity.x as int,
                width as int,
                duration as int,
            ),
            r.position.y == wrapped(
                self.position.y as int,
                self.velocity.y as int,
                height as int,
                duration as int,
            ),
            0 <= r.position.x < width,
            0 <= r.position.y < height,
    {
        let t = duration as i64;
        let w = width as i64;
        let h = height as i64;
        proof {
            assert(0 <= (self.velocity.x + width) * (duration as int) <= 2000000000000)
                by (nonlinear_arith)
                requires
                    0 <= self.velocity.x + width <= 2000000,
                    0 <= duration <= 1000000,
            ;
            assert(0 <= (self.velocity.y + height) * (duration as int) <= 2000000000000)
                by (nonlinear_arith)
                requires
                    0 <= self.velocity.y + height <= 2000000,
                    0 <= duration <= 1000000,
            ;
        }
        let px = self.position.x as i64 + (self.velocity.x as i64 + w) * t;
        let py = self.position.y as i64 + (self.velocity.y as i64 + h) * t;
        let rx = px % w;
        let ry = py % h;
        Robot {
            position: Vec2 { x: rx as i32, y: ry as i32 },
            velocity: self.velocity,
        }
    }
}


/// Where the robot stands after `t` steps.
pub open spec fn moved_pos(r: Robot, t: int, w: int, h: int) -> (int, int) {
    (
        wrapped(r.position.x as int, r.velocity.x as int, w, t),
        wrapped(r.position.y as int, r.velocity.y as int, h, t),
    )
}

/// The four quadrant tallies of the first `n` robots after `t` steps, in the
/// order the safety factor multiplies them; robots on a middle line count
/// nowhere.
pub open spec fn quad_counts(robots: Seq<Robot>, t: int, w: int, h: int, n: int) -> (
    int,
    int,
    int,
    int,
)
    decreases n,
{
    if n <= 0 {
        (0, 0, 0, 0)
    } else {
        let q = quad_counts(robots, t, w, h, n - 1);
        let p = moved_pos(robots[n - 1], t, w, h);
        if p.0 < w / 2 && p.1 < h / 2 {
            (q.0, q.1 + 1, q.2, q.3)
        } else if p.0 > w / 2 && p.1 < h / 2 {
            (q.0 + 1, q.1, q.2, q.3)
        } else if p.0 < w / 2 && p.1 > h / 2 {
            (q.0, q.1, q.2 + 1, q.3)
        } else if p.0 > w / 2 && p.1 > h / 2 {
            (q.0, q.1, q.2, q.3 + 1)
        } else {
            q
        }
    }
}

/// Every robot stands on the floor and flies slowly enough to simulate.
pub open spec fn robots_in_range(robots: Seq<Robot>, w: int, h: int) -> bool {
    forall|k: int|
        0 <= k < robots.len() ==> {
            let r = #[trigger] robots[k];
            &&& 0 <= r.position.x < w
            &&& 0 <= r.position.y < h
            &&& -w <= r.velocity.x <= w
            &&& -h <= r.velocity.y <= h
        }
}

/// The safety factor after one hundred steps: the product of the four
/// quadrant tallies.
pub fn solve1(robots: &Vec<Robot>, width: u32, height: u32) -> (factor: i64)
    requires
        0 < width <= 1000000,
        0 < height <= 1000000,
        robots@.len() <= 10000,
        robots_in_range(robots@, width as int, height as int),
    ensures
        ({
            let q = quad_counts(
                robots@,
                100,
                width as int,
                height as int,
                robots@.len() as int,
            );
            factor == q.0 * q.1 * q.2 * q.3
        }),
{
    let w = width / 2;
    let h = height / 2;
    let mut q1: usize = 0;
    let mut q2: usize = 0;
    let mut q3: usize = 0;
    let mut q4: usize = 0;
    let mut i: usize = 0;
    while i < robots.len()
        invariant
            0 <= i <= robots@.len(),
            robots@.len() <= 10000,
            0 < width <= 1000000,
            0 < height <= 1000000,
            robots_in_range(robots@, width as int, height as int),
            w == width / 2,
            h == height / 2,
            quad_counts(robots@, 100, width as int, height as int, i as int) == (
                q1 as int,
                q2 as int,
                q3 as int,
                q4 as int,
            ),
            q1 <= i && q2 <= i && q3 <= i && q4 <= i,
        decreases robots@.len() - i,
    {
        let moved = robots[i].step(100, width, height);
        let x = moved.position.x;
        let y = moved.position.y;
        if x < w as i32 && y < h as i32 {
            q2 = q2 + 1;
        } else if x > w as i32 && y < h as i32 {
            q1 = q1 + 1;
        } else if x < w as i32 && y > h as i32 {
            q3 = q3 + 1;
        } else if x > w as i32 && y > h as i32 {
            q4 = q4 + 1;
        }
        i = i + 1;
    }
    proof {
        assert(q1 * q2 <= 100000000) by (nonlinear_arith)
            requires
                0 <= q1 <= 10000,
                0 <= q2 <= 10000,
        ;
        assert(q1 * q2 * q3 <= 1000000000000) by (nonlinear_arith)
            requires
                0 <= q1 * q2 <= 100000000,
                0 <= q3 <= 10000,
        ;
        assert(q1 * q2 * q3 * q4 <= 10000000000000000) by (nonlinear_arith)
            requires
                0 <= q1 * q2 * q3 <= 1000000000000,
                0 <= q4 <= 10000,
        ;
    }
    (q1 as i64) * (q2 as i64) * (q3 as i64) * (q4 as i64)
}

} // verus!

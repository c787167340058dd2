//! A guard walking a rectangular grid dotted with obstacles: its state is a
//! position and a facing, it steps ahead, jumps to the cell before an
//! obstacle, and turns clockwise when blocked.
use vstd::prelude::*;

verus! {

#[derive(Clone, Copy, PartialEq, Eq, Structural, Debug)]
pub enum Orientation {
    North,
    West,
    South,
    East,
}

#[derive(Clone, Copy, PartialEq, Eq, Structural, Debug)]
pub struct Position {
    pub row: isize,
    pub col: isize,
}

#[derive(Clone, Copy, PartialEq, Eq, Structural, Debug)]
pub struct State {
    pub orientation: Orientation,
    pub position: Position,
}

/// The row and column deltas of one step in the given facing.
pub open spec fn step_of(o: Orientation) -> (int, int) {
    match o {
        Orientation::North => (-1, 0),
        Orientation::West => (0, -1),
        Orientation::South => (1, 0),
        Orientation::East => (0, 1),
    }
}

/// The facing after one clockwise quarter turn.
pub open spec fn cw_of(o: Orientation) -> Orientation {
    match o {
        Orientation::North => Orientation::East,
        Orientation::East => Orientation::South,
        Orientation::South => Orientation::West,
        Orientation::West => Orientation::North,
    }
}

impl State {
    /// The delta of one step ahead of the guard.
    pub fn get_step(&self) -> (r: (isize, isize))
        ensures
            (r.0 as int, r.1 as int) == step_of(self.orientation),
    {
        match self.orientation {
            Orientation::North => (-1, 0),
            Orientation::West => (0, -1),
            Orientation::South => (1, 0),
            Orientation::East => (0, 1),
        }
    }

    /// Walk up to the given obstacle and stop on the cell just before it.
    pub fn move_to(&mut self, obstacle: &Position)
        requires
            isize::MIN < obstacle.row < isize::MAX,
            isize::MIN < obstacle.col < isize::MAX,
        ensures
            final(self).orientation == old(self).orientation,
            final(self).position.row == obstacle.row - step_of(old(self).orientation).0,
            final(self).position.col == obstacle.col - step_of(old(self).orientation).1,
    {
        let step = self.get_step();
        self.position = Position { row: obstacle.row - step.0, col: obstacle.col - step.1 };
    }

    /// Turn a quarter turn clockwise in place.
    pub fn turn_cw(&mut self)
        ensures
            final(self).orientation == cw_of(old(self).orientation),
            final(self).position == old(self).position,
    {
        self.orientation = match self.orientation {
            Orientation::North => Orientation::East,
            Orientation::East => Orientation::South,
            Orientation::South => Orientation::West,
            Orientation::West => Orientation::North,
        };
    }
}

/// The grid: its size and the obstacle positions.
#[derive(Clone, Debug)]
pub struct Grid {
    pub obstacles: Vec<Position>,
    pub width: isize,
    pub height: isize,
}

impl Grid {
    /// Whether the position lies on the grid.
    pub fn contains(&self, position: &Position) -> (r: bool)
        ensures
            r == (0 <= position.row < self.height && 0 <= position.col < self.width),
    {
        0 <= position.row && position.row < self.height && 0 <= position.col && position.col
            < self.width
    }
}


/// The obstacle lies on the guard's line of sight, strictly ahead.
pub open spec fn ahead_spec(s: State, p: Position) -> bool {
    match s.orientation {
        Orientation::North => p.col == s.position.col && p.row < s.position.row,
        Orientation::West => p.row == s.position.row && p.col < s.position.col,
        Orientation::South => p.col == s.position.col && p.row > s.position.row,
        Orientation::East => p.row == s.position.row && p.col > s.position.col,
    }
}

/// Among positions ahead of the guard, `p` is at least as near as `q`.
pub open spec fn at_least_as_near(s: State, p: Position, q: Position) -> bool {
    match s.orientation {
        Orientation::North => p.row >= q.row,
        Orientation::West => p.col >= q.col,
        Orientation::South => p.row <= q.row,
        Orientation::East => p.col <= q.col,
    }
}

impl State {
    /// Whether the position lies strictly ahead on the guard's line of sight.
    fn sees(&self, p: &Position) -> (r: bool)
        ensures
            r == ahead_spec(*self, *p),
    {
        match self.orientation {
            Orientation::North => p.col == self.position.col && p.row < self.position.row,
            Orientation::West => p.row == self.position.row && p.col < self.position.col,
            Orientation::South => p.col == self.position.col && p.row > self.position.row,
            Orientation::East => p.row == self.position.row && p.col > self.position.col,
        }
    }
}

impl Grid {
    /// The nearest obstacle on the guard's line of sight, if any stands
    /// there.
    pub fn get_obstacle_ahead(&self, state: &State) -> (r: Option<Position>)
        ensures
            match r {
                Some(p) => self.obstacles@.contains(p) && ahead_spec(*state, p) && forall|k: int|
                    0 <= k < self.obstacles@.len() && ahead_spec(*state, #[trigger] self.obstacles@[k])
                        ==> at_least_as_near(*state, p, self.obstacles@[k]),
                None => forall|k: int|
                    0 <= k < self.obstacles@.len() ==> !ahead_spec(
                        *state,
                        #[trigger] self.obstacles@[k],
                    ),
            },
    {
        let mut best: Option<Position> = None;
        let mut i: usize = 0;
        while i < self.obstacles.len()
            invariant
                0 <= i <= self.obstacles@.len(),
                match best {
                    Some(p) => self.obstacles@.contains(p) && ahead_spec(*state, p) && forall|
                        k: int,
                    |
                        0 <= k < i && ahead_spec(*state, #[trigger] self.obstacles@[k])
                            ==> at_least_as_near(*state, p, self.obstacles@[k]),
                    None => forall|k: int|
                        0 <= k < i ==> !ahead_spec(*state, #[trigger] self.obstacles@[k]),
                },
            decreases self.obstacles@.len() - i,
        {
            let cand = self.obstacles[i];
            if state.sees(&cand) {
                let take = match best {
                    Some(p) => {
                        let nearer = match state.orientation {
                            Orientation::North => cand.row >= p.row,
                            Orientation::West => cand.col >= p.col,
                            Orientation::South => cand.row <= p.row,
                            Orientation::East => cand.col <= p.col,
                        };
                        nearer
                    },
                    None => true,
                };
                if take {
                    best = Some(cand);
                }
            }
            i = i + 1;
        }
        best
    }
}

} // verus!

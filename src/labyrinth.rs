use vstd::prelude::*;
use crate::text::{lines_of, split_lines};
use vstd::string::StringSliceAdditionalSpecFns;
use std::hash::BuildHasher;

verus! {

/// A step direction in a labyrinth. Rows grow downwards.
#[derive(Debug, Clone, Copy, PartialEq, Eq, Structural)]
pub enum Direction {
    Up,
    Down,
    Left,
    Right,
}

/// Relies on std's `RandomState::new`, whose keys are drawn at random, and on
/// `BuildHasher::hash_one`: a number that nothing is known of.
#[verifier::external_body]
fn random_draw() -> (r: u64) {
    std::collections::hash_map::RandomState::new().hash_one(0u8)
}

impl Direction {
    pub open spec fn spec_reverse(self) -> Direction {
        match self {
            Direction::Up => Direction::Down,
            Direction::Down => Direction::Up,
            Direction::Left => Direction::Right,
            Direction::Right => Direction::Left,
        }
    }

    /// A direction drawn at random.
    pub fn pick_random() -> (r: Direction) {
        Direction::from_draw(random_draw())
    }

    /// The direction that a drawn number selects: its remainder by four picks
    /// up, down, left or right.
    pub fn from_draw(draw: u64) -> (r: Direction)
        ensures
            draw % 4 == 0 ==> r == Direction::Up,
            draw % 4 == 1 ==> r == Direction::Down,
            draw % 4 == 2 ==> r == Direction::Left,
            draw % 4 == 3 ==> r == Direction::Right,
    {
        let k = draw % 4;
        if k == 0 {
            Direction::Up
        } else if k == 1 {
            Direction::Down
        } else if k == 2 {
            Direction::Left
        } else {
            Direction::Right
        }
    }

    /// Reads a direction from its letter: `U`, `D`, `L` or `R`.
    pub fn from_text(value: &str) -> (r: Option<Direction>)
        ensures
            value.spec_bytes() == seq![85u8] ==> r == Some(Direction::Up),
            value.spec_bytes() == seq![68u8] ==> r == Some(Direction::Down),
            value.spec_bytes() == seq![76u8] ==> r == Some(Direction::Left),
            value.spec_bytes() == seq![82u8] ==> r == Some(Direction::Right),
            value.spec_bytes().len() != 1 || !(value.spec_bytes()[0] == 85u8 || value.spec_bytes()[0]
                == 68u8 || value.spec_bytes()[0] == 76u8 || value.spec_bytes()[0] == 82u8)
                ==> r.is_none(),
    {
        let b = value.as_bytes();
        if b.len() != 1 {
            return None;
        }
        if b[0] == 85u8 {
            Some(Direction::Up)
        } else if b[0] == 68u8 {
            Some(Direction::Down)
        } else if b[0] == 76u8 {
            Some(Direction::Left)
        } else if b[0] == 82u8 {
            Some(Direction::Right)
        } else {
            None
        }
    }

    /// The letter of a direction.
    pub fn to_char(&self) -> (r: char)
        ensures
            r == match self {
                Direction::Up => 'U',
                Direction::Down => 'D',
                Direction::Left => 'L',
                Direction::Right => 'R',
            },
    {
        match self {
            Direction::Up => 'U',
            Direction::Down => 'D',
            Direction::Left => 'L',
            Direction::Right => 'R',
        }
    }

    pub fn reverse(&self) -> (r: Direction)
        ensures
            r == self.spec_reverse(),
    {
        match self {
            Direction::Up => Direction::Down,
            Direction::Down => Direction::Up,
            Direction::Left => Direction::Right,
            Direction::Right => Direction::Left,
        }
    }
}

/// Reversing a direction twice gives it back.
pub proof fn lemma_reverse_involution(d: Direction)
    ensures
        d.spec_reverse().spec_reverse() == d,
{
}

/// A cell of a labyrinth: `x` is its column, `y` its row.
#[derive(Debug, Clone, Copy, PartialEq, Eq, Structural, Hash)]
pub struct Position {
    pub x: usize,
    pub y: usize,
}

impl Position {
    pub fn new(x: usize, y: usize) -> (r: Self)
        ensures
            r.x == x,
            r.y == y,
    {
        Self { x, y }
    }

    /// The step stays within the range of `usize`.
    pub open spec fn can_step(self, direction: Direction) -> bool {
        match direction {
            Direction::Up => self.y > 0,
            Direction::Down => self.y < usize::MAX,
            Direction::Left => self.x > 0,
            Direction::Right => self.x < usize::MAX,
        }
    }

    pub open spec fn spec_step(self, direction: Direction) -> Position {
        match direction {
            Direction::Up => Position { x: self.x, y: (self.y - 1) as usize },
            Direction::Down => Position { x: self.x, y: (self.y + 1) as usize },
            Direction::Left => Position { x: (self.x - 1) as usize, y: self.y },
            Direction::Right => Position { x: (self.x + 1) as usize, y: self.y },
        }
    }

    /// The neighbouring cell in the given direction.
    pub fn step(&self, direction: &Direction) -> (r: Self)
        requires
            self.can_step(*direction),
        ensures
            r == self.spec_step(*direction),
    {
        match direction {
            Direction::Up => Position::new(self.x, self.y - 1),
            Direction::Down => Position::new(self.x, self.y + 1),
            Direction::Left => Position::new(self.x - 1, self.y),
            Direction::Right => Position::new(self.x + 1, self.y),
        }
    }
}

/// A grid of cells, each a byte: `#` is a wall, `S` a start, `G` a goal, `B`
/// both a start and a goal.
pub struct Labyrinth {
    buffer: Vec<Vec<u8>>,
    starting_positions: Vec<Position>,
    finishing_positions: Vec<Position>,
}

/// The cell at `p` lies in the grid.
pub open spec fn in_grid(buffer: Seq<Vec<u8>>, p: Position) -> bool {
    p.y < buffer.len() && p.x < buffer[p.y as int]@.len()
}

/// The cell at `p` is a start.
pub open spec fn is_start(buffer: Seq<Vec<u8>>, p: Position) -> bool {
    in_grid(buffer, p) && (buffer[p.y as int]@[p.x as int] == 83u8 || buffer[p.y as int]@[p.x as int]
        == 66u8)
}

/// The cell at `p` is a goal.
pub open spec fn is_goal(buffer: Seq<Vec<u8>>, p: Position) -> bool {
    in_grid(buffer, p) && (buffer[p.y as int]@[p.x as int] == 71u8 || buffer[p.y as int]@[p.x as int]
        == 66u8)
}

/// Cells up to row `y`, column `x` in reading order.
pub open spec fn read_before(p: Position, x: int, y: int) -> bool {
    p.y < y || (p.y == y && p.x < x)
}

impl Labyrinth {
    pub closed spec fn grid(&self) -> Seq<Vec<u8>> {
        self.buffer@
    }

    pub closed spec fn starts(&self) -> Seq<Position> {
        self.starting_positions@
    }

    pub closed spec fn goals(&self) -> Seq<Position> {
        self.finishing_positions@
    }

    /// The start and goal lists hold exactly the grid's start and goal cells,
    /// each once.
    pub closed spec fn well_formed(&self) -> bool {
        &&& forall|p: Position| #[trigger]
            self.starting_positions@.contains(p) <==> is_start(self.buffer@, p)
        &&& forall|p: Position| #[trigger]
            self.finishing_positions@.contains(p) <==> is_goal(self.buffer@, p)
        &&& self.starting_positions@.no_duplicates()
        &&& self.finishing_positions@.no_duplicates()
    }

    pub const MAX_STARTING_MOVE_COUNT: usize = 107;

    pub const MAX_STARTING_POSITION_COUNT: usize = 2;

    /// Builds a labyrinth from its rows, collecting its start and goal cells.
    pub fn new(buffer: Vec<Vec<u8>>) -> (r: Self)
        requires
            buffer.len() > 0,
        ensures
            r.well_formed(),
            r.grid() == buffer@,
    {
        let mut starting_positions: Vec<Position> = Vec::new();
        let mut finishing_positions: Vec<Position> = Vec::new();
        let mut y: usize = 0;
        while y < buffer.len()
            invariant
                y <= buffer.len(),
                forall|p: Position| #[trigger]
                    starting_positions@.contains(p) <==> (is_start(buffer@, p) && p.y < y),
                forall|p: Position| #[trigger]
                    finishing_positions@.contains(p) <==> (is_goal(buffer@, p) && p.y < y),
                forall|k: int| 0 <= k < starting_positions.len() ==> (#[trigger] starting_positions@[k]).y < y,
                forall|k: int| 0 <= k < finishing_positions.len() ==> (#[trigger] finishing_positions@[k]).y < y,
                starting_positions@.no_duplicates(),
                finishing_positions@.no_duplicates(),
            decreases buffer.len() - y,
        {
            let row = &buffer[y];
            let mut x: usize = 0;
            while x < row.len()
                invariant
                    y < buffer.len(),
                    x <= row.len(),
                    *row == buffer@[y as int],
                    forall|p: Position| #[trigger]
                        starting_positions@.contains(p) <==> (is_start(buffer@, p)
                            && read_before(p, x as int, y as int)),
                    forall|p: Position| #[trigger]
                        finishing_positions@.contains(p) <==> (is_goal(buffer@, p)
                            && read_before(p, x as int, y as int)),
                    forall|k: int|
                        0 <= k < starting_positions.len() ==> read_before(
                            #[trigger] starting_positions@[k],
                            x as int,
                            y as int,
                        ),
                    forall|k: int|
                        0 <= k < finishing_positions.len() ==> read_before(
                            #[trigger] finishing_positions@[k],
                            x as int,
                            y as int,
                        ),
                    starting_positions@.no_duplicates(),
                    finishing_positions@.no_duplicates(),
                decreases row.len() - x,
            {
                let cell = row[x];
                let p = Position::new(x, y);
                let ghost s0 = starting_positions@;
                let ghost f0 = finishing_positions@;
                if cell == 71u8 || cell == 66u8 {
                    proof {
                        crate::seqs::lemma_contains_push(f0, p);
                    }
                    finishing_positions.push(p);
                }
                if cell == 83u8 || cell == 66u8 {
                    proof {
                        crate::seqs::lemma_contains_push(s0, p);
                    }
                    starting_positions.push(p);
                }
                x = x + 1;
            }
            y = y + 1;
        }
        Self { buffer, starting_positions, finishing_positions }
    }

    /// Builds a labyrinth from its text, one row per line; none for a text
    /// without lines.
    pub fn from_text(data: &str) -> (r: Option<Self>)
        ensures
            r.is_some() == (lines_of(data.spec_bytes()).len() > 0),
            r.is_some() ==> r.unwrap().well_formed() && r.unwrap().grid().len() == lines_of(
                data.spec_bytes(),
            ).len() && forall|k: int|
                0 <= k < r.unwrap().grid().len() ==> #[trigger] r.unwrap().grid()[k]@ == lines_of(
                    data.spec_bytes(),
                )[k],
    {
        let buffer = split_lines(data.as_bytes());
        if buffer.len() == 0 {
            return None;
        }
        Some(Labyrinth::new(buffer))
    }

    /// The cell at `position` is not a wall.
    pub fn is_position_valid(&self, position: &Position) -> (r: bool)
        requires
            in_grid(self.grid(), *position),
        ensures
            r == (self.grid()[position.y as int]@[position.x as int] != 35u8),
    {
        self.buffer[position.y][position.x] != 35u8
    }

    /// The cell at `position` is a goal.
    pub fn is_position_final(&self, position: Position) -> (r: bool)
        requires
            self.well_formed(),
        ensures
            r == is_goal(self.grid(), position),
    {
        let mut i: usize = 0;
        while i < self.finishing_positions.len()
            invariant
                i <= self.finishing_positions.len(),
                self.well_formed(),
                forall|k: int| 0 <= k < i ==> self.finishing_positions@[k] != position,
            decreases self.finishing_positions.len() - i,
        {
            if self.finishing_positions[i] == position {
                assert(self.finishing_positions@.contains(position));
                return true;
            }
            i = i + 1;
        }
        assert(!self.finishing_positions@.contains(position));
        false
    }

    /// Where a position ends after trying a step: the neighbour, unless that
    /// is a wall.
    pub open spec fn moved(&self, p: Position, direction: Direction) -> Position {
        if self.grid()[p.spec_step(direction).y as int]@[p.spec_step(direction).x as int] != 35u8 {
            p.spec_step(direction)
        } else {
            p
        }
    }

    /// The step from `p` stays in the grid.
    pub open spec fn step_in_grid(&self, p: Position, direction: Direction) -> bool {
        p.can_step(direction) && in_grid(self.grid(), p.spec_step(direction))
    }

    /// Moves every position one step in `direction`, except those that would
    /// enter a wall, which stay.
    pub fn move_all_positions(&self, positions: Vec<Position>, direction: &Direction) -> (r: Vec<
        Position,
    >)
        requires
            forall|k: int|
                0 <= k < positions.len() ==> self.step_in_grid(#[trigger] positions@[k], *direction),
        ensures
            r.len() == positions.len(),
            forall|k: int|
                0 <= k < r.len() ==> #[trigger] r@[k] == self.moved(positions@[k], *direction),
    {
        let mut r: Vec<Position> = Vec::new();
        let mut i: usize = 0;
        while i < positions.len()
            invariant
                i <= positions.len(),
                r.len() == i,
                forall|k: int|
                    0 <= k < positions.len() ==> self.step_in_grid(
                        #[trigger] positions@[k],
                        *direction,
                    ),
                forall|k: int|
                    0 <= k < i ==> #[trigger] r@[k] == self.moved(positions@[k], *direction),
            decreases positions.len() - i,
        {
            let position = positions[i];
            assert(self.step_in_grid(positions@[i as int], *direction));
            let new_position = position.step(direction);
            if self.is_position_valid(&new_position) {
                r.push(new_position);
            } else {
                r.push(position);
            }
            i = i + 1;
        }
        r
    }

    /// Attempts to shrink the set of start cells by random moves. While more
    /// than `MAX_STARTING_POSITION_COUNT` starts remain, it draws a direction;
    /// with no earlier direction to compare it with, it stops and hands back
    /// the moves made so far. With fewer starts it would draw nothing and
    /// start over without end, so such labyrinths are not accepted.
    pub fn reduce_starting_positions(&self) -> (r: Vec<Direction>)
        requires
            self.well_formed(),
            self.starts().len() > Labyrinth::MAX_STARTING_POSITION_COUNT,
        ensures
            r@.len() == 0,
    {
        let prev_direction: Option<Direction> = None;
        let starting_positions = self.starting_positions.clone();
        let moves: Vec<Direction> = Vec::new();
        let mut i: usize = 0;
        while i < Labyrinth::MAX_STARTING_MOVE_COUNT
            invariant
                prev_direction.is_none(),
                moves@.len() == 0,
                starting_positions.len() == self.starting_positions.len(),
                self.starting_positions.len() > Labyrinth::MAX_STARTING_POSITION_COUNT,
            decreases Labyrinth::MAX_STARTING_MOVE_COUNT - i,
        {
            if starting_positions.len() > Labyrinth::MAX_STARTING_POSITION_COUNT {
                let _direction = Direction::pick_random();
                match prev_direction {
                    Some(_) => {},
                    None => {
                        return moves;
                    },
                }
            }
            i = i + 1;
        }
        moves
    }
}

} // verus!

use vstd::prelude::*;
use vstd::string::StringExecFns;

use crate::text::{
    cell_row_text, chars_of, edge_row_text, glyph, goal_mark, join_lines, line_from_bottom, maze_text,
    pick, push_all, push_spaces, string_of, text_lines, TextStyle, parse_edge, read_model,
    rows_from_bottom, text_fits, file_style, decimal, right_aligned, push_right_aligned, rows_fit, lemma_read_model_wf, goal_in_row, goal_in_rows, line_views, text_rows,
};

verus! {

/// State of one edge of the grid.
#[derive(Clone, Copy, Debug, PartialEq, Eq, Structural)]
pub enum Wall {
    Absent,
    Present,
    Unexplored,
}

/// The glyph used for a wall on the robot's left or right in a sensor log.
pub open spec fn side_glyph(w: Wall) -> char {
    match w {
        Wall::Absent => ' ',
        Wall::Present => '|',
        Wall::Unexplored => '?',
    }
}

/// The glyph used for a wall in front of the robot in a sensor log.
pub open spec fn front_glyph(w: Wall) -> char {
    match w {
        Wall::Absent => ' ',
        Wall::Present => '-',
        Wall::Unexplored => '?',
    }
}

impl Wall {
    /// Three characters describing what the sensors saw: left, front, right.
    pub fn make_wall_detection_log(left: Wall, front: Wall, right: Wall) -> (r: String)
        ensures
            r@ == seq![side_glyph(left), front_glyph(front), side_glyph(right)],
    {
        let mut s = String::new();
        match left {
            Wall::Absent => s.append(" "),
            Wall::Present => s.append("|"),
            Wall::Unexplored => s.append("?"),
        }
        match front {
            Wall::Absent => s.append(" "),
            Wall::Present => s.append("-"),
            Wall::Unexplored => s.append("?"),
        }
        match right {
            Wall::Absent => s.append(" "),
            Wall::Present => s.append("|"),
            Wall::Unexplored => s.append("?"),
        }
        proof {
            reveal_strlit(" ");
            reveal_strlit("|");
            reveal_strlit("-");
            reveal_strlit("?");
            assert(s@ =~= seq![side_glyph(left), front_glyph(front), side_glyph(right)]);
        }
        s
    }

    /// `Present` for `true`, `Absent` for `false`.
    pub fn from_bool(b: bool) -> (r: Wall)
        ensures
            r == (if b { Wall::Present } else { Wall::Absent }),
    {
        if b {
            Wall::Present
        } else {
            Wall::Absent
        }
    }
}

/// A move relative to the robot's heading.
#[derive(Clone, Copy, Debug, PartialEq, Eq, Structural)]
pub enum Direction {
    Forward,
    Left,
    Right,
    Backward,
}

impl Direction {
    pub open spec fn log_text(self) -> Seq<char> {
        match self {
            Direction::Forward => seq!['F', '^'],
            Direction::Left => seq!['L', '<'],
            Direction::Right => seq!['R', '>'],
            Direction::Backward => seq!['B', 'v'],
        }
    }

    /// A two-character tag of the move, for logs.
    pub fn to_log(&self) -> (r: &str)
        ensures
            r@ == self.log_text(),
    {
        proof {
            reveal_strlit("F^");
            reveal_strlit("L<");
            reveal_strlit("R>");
            reveal_strlit("Bv");
        }
        match self {
            Direction::Forward => "F^",
            Direction::Left => "L<",
            Direction::Right => "R>",
            Direction::Backward => "Bv",
        }
    }

    /// All relative moves: Forward, Left, Right, Backward.
    pub fn iter() -> (r: Vec<Direction>)
        ensures
            r@ == seq![Direction::Forward, Direction::Left, Direction::Right, Direction::Backward],
    {
        let r = vec![Direction::Forward, Direction::Left, Direction::Right, Direction::Backward];
        assert(r@ =~= seq![Direction::Forward, Direction::Left, Direction::Right, Direction::Backward]);
        r
    }
}

/// An absolute heading.
#[derive(Clone, Copy, Debug, PartialEq, Eq, Structural)]
pub enum Compass {
    North,
    East,
    South,
    West,
}

impl Compass {
    /// The number of clockwise quarter turns from North.
    pub open spec fn quarter(self) -> int {
        match self {
            Compass::North => 0,
            Compass::East => 1,
            Compass::South => 2,
            Compass::West => 3,
        }
    }

    pub open spec fn from_quarter(q: int) -> Compass {
        let r = q % 4;
        if r == 0 {
            Compass::North
        } else if r == 1 {
            Compass::East
        } else if r == 2 {
            Compass::South
        } else {
            Compass::West
        }
    }

    /// The heading reached by turning by `d`: Left and Right are a quarter turn,
    /// Backward is a half turn.
    pub open spec fn turned(self, d: Direction) -> Compass {
        Compass::from_quarter(self.quarter() + d.quarters())
    }

    /// The relative move that turns from `self` to `target`.
    pub open spec fn direction_to(self, target: Compass) -> Direction {
        let q = (target.quarter() - self.quarter() + 4) % 4;
        if q == 0 {
            Direction::Forward
        } else if q == 1 {
            Direction::Right
        } else if q == 2 {
            Direction::Backward
        } else {
            Direction::Left
        }
    }

    pub fn turn(&self, direction: Direction) -> (r: Compass)
        ensures
            r == self.turned(direction),
    {
        match (self, direction) {
            (Compass::North, Direction::Forward) => Compass::North,
            (Compass::North, Direction::Left) => Compass::West,
            (Compass::North, Direction::Right) => Compass::East,
            (Compass::North, Direction::Backward) => Compass::South,
            (Compass::East, Direction::Forward) => Compass::East,
            (Compass::East, Direction::Left) => Compass::North,
            (Compass::East, Direction::Right) => Compass::South,
            (Compass::East, Direction::Backward) => Compass::West,
            (Compass::South, Direction::Forward) => Compass::South,
            (Compass::South, Direction::Left) => Compass::East,
            (Compass::South, Direction::Right) => Compass::West,
            (Compass::South, Direction::Backward) => Compass::North,
            (Compass::West, Direction::Forward) => Compass::West,
            (Compass::West, Direction::Left) => Compass::South,
            (Compass::West, Direction::Right) => Compass::North,
            (Compass::West, Direction::Backward) => Compass::East,
        }
    }

    pub open spec fn log_text(self) -> Seq<char> {
        match self {
            Compass::North => seq!['N'],
            Compass::East => seq!['E'],
            Compass::South => seq!['S'],
            Compass::West => seq!['W'],
        }
    }

    /// A one-letter tag of the heading, for logs.
    pub fn to_log(&self) -> (r: &str)
        ensures
            r@ == self.log_text(),
    {
        proof {
            reveal_strlit("N");
            reveal_strlit("E");
            reveal_strlit("S");
            reveal_strlit("W");
        }
        match self {
            Compass::North => "N",
            Compass::East => "E",
            Compass::South => "S",
            Compass::West => "W",
        }
    }

    /// The relative move that makes a robot heading `self` face `target`.
    pub fn get_direction_to(&self, target: Compass) -> (r: Direction)
        ensures
            r == self.direction_to(target),
            self.turned(r) == target,
    {
        match (self, target) {
            (Compass::North, Compass::North) => Direction::Forward,
            (Compass::North, Compass::East) => Direction::Right,
            (Compass::North, Compass::South) => Direction::Backward,
            (Compass::North, Compass::West) => Direction::Left,
            (Compass::East, Compass::North) => Direction::Left,
            (Compass::East, Compass::East) => Direction::Forward,
            (Compass::East, Compass::South) => Direction::Right,
            (Compass::East, Compass::West) => Direction::Backward,
            (Compass::South, Compass::North) => Direction::Backward,
            (Compass::South, Compass::East) => Direction::Left,
            (Compass::South, Compass::South) => Direction::Forward,
            (Compass::South, Compass::West) => Direction::Right,
            (Compass::West, Compass::North) => Direction::Right,
            (Compass::West, Compass::East) => Direction::Backward,
            (Compass::West, Compass::South) => Direction::Left,
            (Compass::West, Compass::West) => Direction::Forward,
        }
    }

    /// All headings in scan order: North, East, South, West.
    pub fn iter() -> (r: Vec<Compass>)
        ensures
            r@ == seq![Compass::North, Compass::East, Compass::South, Compass::West],
    {
        let r = vec![Compass::North, Compass::East, Compass::South, Compass::West];
        assert(r@ =~= seq![Compass::North, Compass::East, Compass::South, Compass::West]);
        r
    }
}

impl Direction {
    /// The number of clockwise quarter turns the move makes.
    pub open spec fn quarters(self) -> int {
        match self {
            Direction::Forward => 0,
            Direction::Right => 1,
            Direction::Backward => 2,
            Direction::Left => 3,
        }
    }
}

/// Turning forward changes nothing, turning backward twice changes nothing, a left
/// turn and a right turn undo each other, and `direction_to` is the inverse of
/// `turned`.
pub proof fn lemma_turn_laws(h: Compass, h2: Compass, d: Direction)
    ensures
        h.turned(Direction::Forward) == h,
        h.turned(Direction::Backward).turned(Direction::Backward) == h,
        h.turned(Direction::Left).turned(Direction::Right) == h,
        h.turned(Direction::Right).turned(Direction::Left) == h,
        h.turned(h.direction_to(h2)) == h2,
        h.direction_to(h.turned(d)) == d,
{
}


/// A cell: `x` grows eastward, `y` northward, `(0, 0)` is the southwest corner.
#[derive(Clone, Copy, Debug, PartialEq, Eq, Structural)]
pub struct Position {
    pub x: usize,
    pub y: usize,
}

impl Position {
    pub fn new(x: usize, y: usize) -> (r: Self)
        ensures
            r.x == x,
            r.y == y,
    {
        Position { x, y }
    }
}

/// A cell together with the heading of the robot standing in it.
#[derive(Clone, Copy, Debug, PartialEq, Eq, Structural)]
pub struct Location {
    pub pos: Position,
    pub dir: Compass,
}

impl Location {
    /// The start: cell `(0, 0)`, facing North.
    pub open spec fn start() -> Location {
        Location { pos: Position { x: 0, y: 0 }, dir: Compass::North }
    }

    /// The start: cell `(0, 0)`, facing North.
    pub fn new() -> (r: Self)
        ensures
            r.pos.x == 0,
            r.pos.y == 0,
            r.dir == Compass::North,
    {
        Location { pos: Position { x: 0, y: 0 }, dir: Compass::North }
    }

    pub fn turn(&mut self, dir: Direction)
        ensures
            final(self).pos == old(self).pos,
            final(self).dir == old(self).dir.turned(dir),
    {
        self.dir = self.dir.turn(dir);
    }

    /// Whether one step along the heading stays within the range of `usize`.
    pub open spec fn can_step(self) -> bool {
        match self.dir {
            Compass::North => self.pos.y < usize::MAX,
            Compass::East => self.pos.x < usize::MAX,
            Compass::South => self.pos.y > 0,
            Compass::West => self.pos.x > 0,
        }
    }

    /// One cell along the heading.
    pub fn forward(&mut self)
        requires
            old(self).can_step(),
        ensures
            final(self).dir == old(self).dir,
            final(self).pos.x as int == old(self).pos.x + dx(old(self).dir),
            final(self).pos.y as int == old(self).pos.y + dy(old(self).dir),
    {
        match self.dir {
            Compass::North => self.pos.y = self.pos.y + 1,
            Compass::East => self.pos.x = self.pos.x + 1,
            Compass::South => self.pos.y = self.pos.y - 1,
            Compass::West => self.pos.x = self.pos.x - 1,
        }
    }
}

/// Eastward offset of one step along `c`.
pub open spec fn dx(c: Compass) -> int {
    match c {
        Compass::East => 1,
        Compass::West => -1,
        _ => 0,
    }
}

/// Northward offset of one step along `c`.
pub open spec fn dy(c: Compass) -> int {
    match c {
        Compass::North => 1,
        Compass::South => -1,
        _ => 0,
    }
}


/// The mathematical content of a [`Maze`]: its size, both edge matrices and the goal.
///
/// `horizontal[y][x]` is the edge on the south side of cell `(x, y)` (rows `0..=height`),
/// `vertical[y][x]` the edge on its west side (columns `0..=width`).
pub struct MazeModel {
    pub width: nat,
    pub height: nat,
    pub horizontal: Seq<Seq<Wall>>,
    pub vertical: Seq<Seq<Wall>>,
    pub goal: Position,
}

impl MazeModel {
    /// Both matrices have the sizes that `width` and `height` give them.
    pub open spec fn shaped(self) -> bool {
        &&& 1 <= self.width < usize::MAX
        &&& 1 <= self.height < usize::MAX
        &&& self.horizontal.len() == self.height + 1
        &&& forall|y: int| 0 <= y < self.horizontal.len() ==> #[trigger] self.horizontal[y].len()
            == self.width
        &&& self.vertical.len() == self.height
        &&& forall|y: int| 0 <= y < self.vertical.len() ==> #[trigger] self.vertical[y].len()
            == self.width + 1
    }

    /// Every edge on the outer boundary is `Present`.
    pub open spec fn boundary_present(self) -> bool {
        &&& forall|x: int|
            0 <= x < self.width ==> #[trigger] self.horizontal[0][x] == Wall::Present
                && self.horizontal[self.height as int][x] == Wall::Present
        &&& forall|y: int|
            0 <= y < self.height ==> #[trigger] self.vertical[y][0] == Wall::Present
                && self.vertical[y][self.width as int] == Wall::Present
    }

    pub open spec fn wf(self) -> bool {
        self.shaped() && self.boundary_present()
    }

    pub open spec fn in_grid(self, y: int, x: int) -> bool {
        0 <= y < self.height && 0 <= x < self.width
    }

    /// The edge on side `c` of cell `(x, y)`.
    pub open spec fn wall(self, y: int, x: int, c: Compass) -> Wall {
        match c {
            Compass::North => self.horizontal[y + 1][x],
            Compass::East => self.vertical[y][x + 1],
            Compass::South => self.horizontal[y][x],
            Compass::West => self.vertical[y][x],
        }
    }

    /// Whether side `c` of cell `(x, y)` lies on the outer boundary.
    pub open spec fn is_boundary(self, y: int, x: int, c: Compass) -> bool {
        match c {
            Compass::North => y == self.height - 1,
            Compass::East => x == self.width - 1,
            Compass::South => y == 0,
            Compass::West => x == 0,
        }
    }

    /// The cell across side `c` of `(x, y)`, as `(y, x)`; none across the boundary.
    pub open spec fn neighbor(self, y: int, x: int, c: Compass) -> Option<(int, int)> {
        if self.is_boundary(y, x, c) {
            None
        } else {
            Some((y + dy(c), x + dx(c)))
        }
    }

    /// The model with side `c` of cell `(x, y)` set to `w`.
    pub open spec fn with_wall(self, y: int, x: int, c: Compass, w: Wall) -> MazeModel {
        match c {
            Compass::North => MazeModel {
                horizontal: self.horizontal.update(y + 1, self.horizontal[y + 1].update(x, w)),
                ..self
            },
            Compass::East => MazeModel {
                vertical: self.vertical.update(y, self.vertical[y].update(x + 1, w)),
                ..self
            },
            Compass::South => MazeModel {
                horizontal: self.horizontal.update(y, self.horizontal[y].update(x, w)),
                ..self
            },
            Compass::West => MazeModel {
                vertical: self.vertical.update(y, self.vertical[y].update(x, w)),
                ..self
            },
        }
    }

    /// The model after a request to set side `c` of `(x, y)` to `w`: a boundary
    /// edge stays `Present`.
    pub open spec fn after_set(self, y: int, x: int, c: Compass, w: Wall) -> MazeModel {
        if self.is_boundary(y, x, c) && w != Wall::Present {
            self
        } else {
            self.with_wall(y, x, c, w)
        }
    }

    /// A fresh maze: every inner edge unexplored, the boundary present, the edge
    /// east of the start cell present, and the goal in the center cell.
    pub open spec fn initial(width: nat, height: nat) -> MazeModel {
        MazeModel {
            width,
            height,
            horizontal: Seq::new(
                height + 1,
                |y: int|
                    Seq::new(
                        width,
                        |x: int|
                            if y == 0 || y == height {
                                Wall::Present
                            } else {
                                Wall::Unexplored
                            },
                    ),
            ),
            vertical: Seq::new(
                height,
                |y: int|
                    Seq::new(
                        width + 1,
                        |x: int|
                            if x == 0 || x == width || (y == 0 && x == 1) {
                                Wall::Present
                            } else {
                                Wall::Unexplored
                            },
                    ),
            ),
            goal: Position { x: (width / 2) as usize, y: (height / 2) as usize },
        }
    }
}

/// A rectangular grid of cells with the state of every edge and a goal cell.
#[derive(Clone, Debug)]
pub struct Maze {
    width: usize,
    height: usize,
    horizontal_walls: Vec<Vec<Wall>>,
    vertical_walls: Vec<Vec<Wall>>,
    goal: Position,
}

impl View for Maze {
    type V = MazeModel;

    closed spec fn view(&self) -> MazeModel {
        MazeModel {
            width: self.width as nat,
            height: self.height as nat,
            horizontal: self.horizontal_walls@.map_values(|r: Vec<Wall>| r@),
            vertical: self.vertical_walls@.map_values(|r: Vec<Wall>| r@),
            goal: self.goal,
        }
    }
}

fn filled_row(n: usize, w: Wall) -> (r: Vec<Wall>)
    ensures
        r@ == Seq::new(n as nat, |i: int| w),
{
    let mut r: Vec<Wall> = Vec::new();
    let mut i: usize = 0;
    while i < n
        invariant
            i <= n,
            r@ == Seq::new(i as nat, |k: int| w),
        decreases n - i,
    {
        r.push(w);
        i = i + 1;
        assert(r@ =~= Seq::new(i as nat, |k: int| w));
    }
    r
}

impl Maze {
    /// A `width` x `height` maze in its initial state.
    pub fn new(width: usize, height: usize) -> (r: Self)
        requires
            1 <= width < usize::MAX,
            1 <= height < usize::MAX,
        ensures
            r@ == MazeModel::initial(width as nat, height as nat),
            r@.wf(),
    {
        let mut maze = Maze {
            width,
            height,
            horizontal_walls: Vec::new(),
            vertical_walls: Vec::new(),
            goal: Position { x: 0, y: 0 },
        };
        maze.reset();
        maze
    }

    fn reset(&mut self)
        requires
            1 <= old(self).width < usize::MAX,
            1 <= old(self).height < usize::MAX,
        ensures
            final(self)@ == MazeModel::initial(old(self).width as nat, old(self).height as nat),
            final(self)@.wf(),
    {
        let width = self.width;
        let height = self.height;
        let ghost init = MazeModel::initial(width as nat, height as nat);
        let mut horizontal: Vec<Vec<Wall>> = Vec::new();
        let mut y: usize = 0;
        while y <= height
            invariant
                y <= height + 1,
                height < usize::MAX,
                init == MazeModel::initial(width as nat, height as nat),
                horizontal@.len() == y,
                forall|k: int| 0 <= k < y ==> (#[trigger] horizontal@[k])@ == init.horizontal[k],
            decreases height + 1 - y,
        {
            let w = if y == 0 || y == height {
                Wall::Present
            } else {
                Wall::Unexplored
            };
            let row = filled_row(width, w);
            assert(row@ =~= init.horizontal[y as int]);
            horizontal.push(row);
            y = y + 1;
        }
        let mut vertical: Vec<Vec<Wall>> = Vec::new();
        let mut y: usize = 0;
        while y < height
            invariant
                y <= height,
                1 <= width < usize::MAX,
                init == MazeModel::initial(width as nat, height as nat),
                vertical@.len() == y,
                forall|k: int| 0 <= k < y ==> (#[trigger] vertical@[k])@ == init.vertical[k],
            decreases height - y,
        {
            let mut row = filled_row(width + 1, Wall::Unexplored);
            row[0] = Wall::Present;
            row[width] = Wall::Present;
            if y == 0 {
                // east of the start cell: to the right of the robot's initial heading
                row[1] = Wall::Present;
            }
            assert(row@ =~= init.vertical[y as int]);
            vertical.push(row);
            y = y + 1;
        }
        self.horizontal_walls = horizontal;
        self.vertical_walls = vertical;
        self.goal = Position { x: width / 2, y: height / 2 };
        assert(self@.horizontal =~= init.horizontal);
        assert(self@.vertical =~= init.vertical);
    }

    /// Puts the maze back in its initial state, keeping its size.
    pub fn init(&mut self)
        requires
            old(self)@.wf(),
        ensures
            final(self)@ == MazeModel::initial(old(self)@.width, old(self)@.height),
            final(self)@.wf(),
    {
        self.reset();
    }

    /// The edge on side `compass` of cell `(x, y)`.
    pub fn get(&self, y: usize, x: usize, compass: Compass) -> (r: Wall)
        requires
            self@.wf(),
            self@.in_grid(y as int, x as int),
        ensures
            r == self@.wall(y as int, x as int, compass),
    {
        match compass {
            Compass::North => self.horizontal_walls[y + 1][x],
            Compass::East => self.vertical_walls[y][x + 1],
            Compass::South => self.horizontal_walls[y][x],
            Compass::West => self.vertical_walls[y][x],
        }
    }

    /// Sets the edge on side `compass` of cell `(x, y)`. A boundary edge stays
    /// `Present`: a request to make it anything else is ignored.
    pub fn set(&mut self, y: usize, x: usize, compass: Compass, wall: Wall)
        requires
            old(self)@.wf(),
            old(self)@.in_grid(y as int, x as int),
        ensures
            final(self)@.wf(),
            final(self)@ == old(self)@.after_set(y as int, x as int, compass, wall),
    {
        if (y == 0 && compass == Compass::South && wall != Wall::Present) || (y == self.height - 1
            && compass == Compass::North && wall != Wall::Present) || (x == 0 && compass
            == Compass::West && wall != Wall::Present) || (x == self.width - 1 && compass
            == Compass::East && wall != Wall::Present) {
            return ;
        }
        let ghost pre = self@;
        proof {
            assert(self.horizontal_walls@[y + 1]@ == pre.horizontal[y + 1]);
            assert(self.horizontal_walls@[y as int]@ == pre.horizontal[y as int]);
            assert(self.vertical_walls@[y as int]@ == pre.vertical[y as int]);
        }
        match compass {
            Compass::North => self.horizontal_walls[y + 1][x] = wall,
            Compass::East => self.vertical_walls[y][x + 1] = wall,
            Compass::South => self.horizontal_walls[y][x] = wall,
            Compass::West => self.vertical_walls[y][x] = wall,
        }
        assert(self@.horizontal =~= pre.with_wall(y as int, x as int, compass, wall).horizontal);
        assert(self@.vertical =~= pre.with_wall(y as int, x as int, compass, wall).vertical);
    }

    pub fn get_goal(&self) -> (r: Position)
        ensures
            r == self@.goal,
    {
        self.goal
    }

    pub fn set_goal(&mut self, pos: Position)
        ensures
            final(self)@ == (MazeModel { goal: pos, ..old(self)@ }),
    {
        self.goal = pos;
    }

    pub fn get_width(&self) -> (r: usize)
        ensures
            r == self@.width,
    {
        self.width
    }

    pub fn get_height(&self) -> (r: usize)
        ensures
            r == self@.height,
    {
        self.height
    }

    /// The cell, as `(y, x)`, across side `compass` of cell `(x, y)`; `None` where
    /// that side is the outer boundary. Walls play no part.
    pub fn get_neighbor_cell(&self, y: usize, x: usize, compass: Compass) -> (r: Option<
        (usize, usize),
    >)
        requires
            self@.wf(),
            self@.in_grid(y as int, x as int),
        ensures
            match r {
                Some((ny, nx)) => self@.neighbor(y as int, x as int, compass) == Some(
                    (ny as int, nx as int),
                ),
                None => self@.neighbor(y as int, x as int, compass) is None,
            },
    {
        match compass {
            Compass::North => {
                if y == self.height - 1 {
                    None
                } else {
                    Some((y + 1, x))
                }
            },
            Compass::East => {
                if x == self.width - 1 {
                    None
                } else {
                    Some((y, x + 1))
                }
            },
            Compass::South => {
                if y == 0 {
                    None
                } else {
                    Some((y - 1, x))
                }
            },
            Compass::West => {
                if x == 0 {
                    None
                } else {
                    Some((y, x - 1))
                }
            },
        }
    }
}

impl Default for Maze {
    /// A 16 x 16 maze in its initial state.
    fn default() -> (r: Self)
        ensures
            r@ == MazeModel::initial(16, 16),
    {
        Maze::new(16, 16)
    }
}


impl Maze {
    /// Renders the maze as text, top line first, with the given glyphs: each edge
    /// row is a pillar and an edge glyph per column, each cell row an edge glyph
    /// and a goal mark per column.
    pub fn to_text_data(
        &self,
        horizontal_wall_absent: &str,
        horizontal_wall_present: &str,
        horizontal_wall_unexplored: &str,
        vertical_wall_absent: &str,
        vertical_wall_present: &str,
        vertical_wall_unexplored: &str,
        pillar: &str,
        goal: &str,
    ) -> (r: String)
        requires
            self@.wf(),
        ensures
            r@ == maze_text(
                self@,
                TextStyle {
                    horizontal_absent: horizontal_wall_absent@,
                    horizontal_present: horizontal_wall_present@,
                    horizontal_unexplored: horizontal_wall_unexplored@,
                    vertical_absent: vertical_wall_absent@,
                    vertical_present: vertical_wall_present@,
                    vertical_unexplored: vertical_wall_unexplored@,
                    pillar: pillar@,
                    goal: goal@,
                },
            ),
    {
        let ha = chars_of(horizontal_wall_absent);
        let hp = chars_of(horizontal_wall_present);
        let hu = chars_of(horizontal_wall_unexplored);
        let va = chars_of(vertical_wall_absent);
        let vp = chars_of(vertical_wall_present);
        let vu = chars_of(vertical_wall_unexplored);
        let pl = chars_of(pillar);
        let gl = chars_of(goal);
        let ghost st = TextStyle {
            horizontal_absent: ha@,
            horizontal_present: hp@,
            horizontal_unexplored: hu@,
            vertical_absent: va@,
            vertical_present: vp@,
            vertical_unexplored: vu@,
            pillar: pl@,
            goal: gl@,
        };
        let ghost m = self@;
        let mut lines: Vec<Vec<char>> = Vec::new();
        let mut i: usize = 0;
        while i < self.height
            invariant
                m == self@,
                st == (TextStyle {
                    horizontal_absent: ha@,
                    horizontal_present: hp@,
                    horizontal_unexplored: hu@,
                    vertical_absent: va@,
                    vertical_present: vp@,
                    vertical_unexplored: vu@,
                    pillar: pl@,
                    goal: gl@,
                }),
                m.wf(),
                i <= m.height,
                lines@.len() == 2 * i,
                forall|b: int| 0 <= b < 2 * i ==> (#[trigger] lines@[b])@ == line_from_bottom(m, st, b),
            decreases self.height - i,
        {
            let ghost hrow = self.horizontal_walls@[i as int]@;
            assert(hrow == m.horizontal[i as int]);
            let mut line: Vec<char> = Vec::new();
            let mut j: usize = 0;
            while j < self.width
                invariant
                    m == self@,
                st == (TextStyle {
                    horizontal_absent: ha@,
                    horizontal_present: hp@,
                    horizontal_unexplored: hu@,
                    vertical_absent: va@,
                    vertical_present: vp@,
                    vertical_unexplored: vu@,
                    pillar: pl@,
                    goal: gl@,
                }),
                    m.wf(),
                    i < m.height,
                    j <= m.width,
                    hrow == m.horizontal[i as int],
                    hrow == self.horizontal_walls@[i as int]@,
                    line@ == edge_row_text(m, st, i as int, j as nat),
                decreases self.width - j,
            {
                let ghost before = line@;
                let w = self.horizontal_walls[i][j];
                assert(w == m.horizontal[i as int][j as int]);
                push_all(&mut line, &pl);
                assert(line@ == before + st.pillar);
                let g = pick(w, &ha, &hp, &hu);
                assert(g@ == glyph(w, st.horizontal_absent, st.horizontal_present, st.horizontal_unexplored));
                push_all(&mut line, g);
                assert(line@ == before + st.pillar + glyph(w, st.horizontal_absent, st.horizontal_present, st.horizontal_unexplored));
                j = j + 1;
                assert(line@ == edge_row_text(m, st, i as int, j as nat));
            }
            line.push('+');
            assert(line@ =~= line_from_bottom(m, st, 2 * i as int));
            lines.push(line);
            let ghost vrow = self.vertical_walls@[i as int]@;
            assert(vrow == m.vertical[i as int]);
            let mut line: Vec<char> = Vec::new();
            let mut j: usize = 0;
            while j < self.width + 1
                invariant
                    m == self@,
                st == (TextStyle {
                    horizontal_absent: ha@,
                    horizontal_present: hp@,
                    horizontal_unexplored: hu@,
                    vertical_absent: va@,
                    vertical_present: vp@,
                    vertical_unexplored: vu@,
                    pillar: pl@,
                    goal: gl@,
                }),
                    m.wf(),
                    i < m.height,
                    j <= m.width + 1,
                    vrow == m.vertical[i as int],
                    vrow == self.vertical_walls@[i as int]@,
                    line@ == cell_row_text(m, st, i as int, j as nat),
                decreases self.width + 1 - j,
            {
                let ghost before = line@;
                let w = self.vertical_walls[i][j];
                assert(w == m.vertical[i as int][j as int]);
                push_all(&mut line, pick(w, &va, &vp, &vu));
                if j == self.goal.x && i == self.goal.y {
                    push_all(&mut line, &gl);
                } else {
                    push_spaces(&mut line, gl.len());
                }
                assert(line@ == before + glyph(w, st.vertical_absent, st.vertical_present, st.vertical_unexplored) + goal_mark(m, st, i as int, j as int));
                j = j + 1;
                assert(line@ == cell_row_text(m, st, i as int, j as nat));
            }
            assert(line@ =~= line_from_bottom(m, st, 2 * i + 1));
            lines.push(line);
            i = i + 1;
        }
        let ghost hrow = self.horizontal_walls@[self.height as int]@;
        assert(hrow == m.horizontal[m.height as int]);
        let mut line: Vec<char> = Vec::new();
        let mut j: usize = 0;
        while j < self.width
            invariant
                m == self@,
                st == (TextStyle {
                    horizontal_absent: ha@,
                    horizontal_present: hp@,
                    horizontal_unexplored: hu@,
                    vertical_absent: va@,
                    vertical_present: vp@,
                    vertical_unexplored: vu@,
                    pillar: pl@,
                    goal: gl@,
                }),
                m.wf(),
                j <= m.width,
                hrow == m.horizontal[m.height as int],
                hrow == self.horizontal_walls@[m.height as int]@,
                line@ == edge_row_text(m, st, m.height as int, j as nat),
            decreases self.width - j,
        {
            let ghost before = line@;
            let w = self.horizontal_walls[self.height][j];
            assert(w == m.horizontal[m.height as int][j as int]);
            push_all(&mut line, &pl);
            push_all(&mut line, pick(w, &ha, &hp, &hu));
            assert(line@ == before + st.pillar + glyph(w, st.horizontal_absent, st.horizontal_present, st.horizontal_unexplored));
            j = j + 1;
            assert(line@ == edge_row_text(m, st, m.height as int, j as nat));
        }
        push_all(&mut line, &pl);
        lines.push(line);
        let ghost tl = text_lines(m, st);
        let n = lines.len();
        let mut out: Vec<char> = Vec::new();
        push_all(&mut out, &lines[n - 1]);
        assert(tl.take(1).drop_last() =~= Seq::<Seq<char>>::empty());
        assert(out@ == join_lines(tl.take(1)));
        let mut k: usize = 1;
        while k < n
            invariant
                n == lines@.len(),
                n == 2 * m.height + 1,
                m == self@,
                m.wf(),
                tl == text_lines(m, st),
                1 <= k <= n,
                forall|b: int| 0 <= b < n ==> (#[trigger] lines@[b])@ == line_from_bottom(m, st, b),
                out@ == join_lines(tl.take(k as int)),
            decreases n - k,
        {
            out.push('\n');
            push_all(&mut out, &lines[n - 1 - k]);
            assert(tl.take(k + 1).drop_last() =~= tl.take(k as int));
            k = k + 1;
        }
        assert(tl.take(n as int) =~= tl);
        string_of(&out)
    }
}


fn parse_wall(c: char, present: char) -> (r: Wall)
    ensures
        r == parse_edge(c, present),
{
    if c == ' ' {
        Wall::Absent
    } else if c == present {
        Wall::Present
    } else {
        Wall::Unexplored
    }
}

impl Maze {
    /// The maze in the file format: `-` and `|` for walls, a space for an open
    /// edge, `?` for an unexplored one, `+` for pillars and `G` on the goal cell.
    pub fn write_maze_text(&self) -> (r: String)
        requires
            self@.wf(),
        ensures
            r@ == maze_text(self@, file_style()),
    {
        proof {
            reveal_strlit(" ");
            reveal_strlit("-");
            reveal_strlit("|");
            reveal_strlit("+");
            reveal_strlit("G");
            reveal_strlit("?");
            assert("?"@ =~= seq!['?']);
            assert(" "@ =~= seq![' ']);
            assert("-"@ =~= seq!['-']);
            assert("|"@ =~= seq!['|']);
            assert("+"@ =~= seq!['+']);
            assert("G"@ =~= seq!['G']);
        }
        self.to_text_data(" ", "-", "?", " ", "|", "?", "+", "G")
    }

    /// Reads the walls and the goal from a maze text of `width` x `height` cells.
    /// The text is refused, and the maze left as it was, when the size is not the
    /// maze's own or a line is missing or short. Boundary edges stay present.
    pub fn read_maze_text(&mut self, text: &str, width: usize, height: usize) -> (r: Result<
        (),
        String,
    >)
        requires
            old(self)@.wf(),
        ensures
            final(self)@.wf(),
            r is Ok <==> (width == old(self)@.width && height == old(self)@.height && text_fits(
                rows_from_bottom(text@),
                width as nat,
                height as nat,
            )),
            r is Ok ==> final(self)@ == read_model(old(self)@, rows_from_bottom(text@)),
            r is Err ==> final(self)@ == old(self)@,
    {
        if width != self.width || height != self.height {
            return Err(String::from_str("maze size does not match"));
        }
        let rows = text_rows(text);
        let ghost rs = rows_from_bottom(text@);
        let ghost m = self@;
        let nrows = rows.len();
        assert(rs.len() == rows@.len());
        if nrows / 2 < height {
            return Err(String::from_str("maze text has too few lines"));
        }
        assert(rows@.len() >= 2 * height);
        let mut y: usize = 0;
        while y < height
            invariant
                y <= height,
                height == m.height,
                width == m.width,
                rs == line_views(rows@),
                rows@.len() >= 2 * height,
                nrows == rows@.len(),
                m.wf(),
                m == self@,
                rs == rows_from_bottom(text@),
                forall|k: int| 0 <= k < y ==> #[trigger] rows_fit(rs, k, width as nat),
            decreases height - y,
        {
            assert(rows@[2 * y as int]@ == rs[2 * y as int]);
            assert(rows@[2 * y + 1]@ == rs[2 * y + 1]);
            assert(2 * y + 1 < nrows);
            if rows[2 * y].len() < width || rows[2 * y + 1].len() / 2 < width {
                assert(!rows_fit(rs, y as int, width as nat));
                return Err(String::from_str("maze text has a short line"));
            }
            y = y + 1;
        }
        assert(text_fits(rs, width as nat, height as nat));
        let ghost target = read_model(m, rs);
        let mut horizontal: Vec<Vec<Wall>> = Vec::new();
        let mut y: usize = 0;
        while y <= height
            invariant
                y <= height + 1,
                height == m.height,
                width == m.width,
                m.wf(),
                rs == line_views(rows@),
                rows@.len() >= 2 * height,
                nrows == rows@.len(),
                text_fits(rs, width as nat, height as nat),
                target == read_model(m, rs),
                horizontal@.len() == y,
                forall|k: int| 0 <= k < y ==> (#[trigger] horizontal@[k])@ == target.horizontal[k],
            decreases height + 1 - y,
        {
            let mut row: Vec<Wall> = Vec::new();
            let mut x: usize = 0;
            while x < width
                invariant
                    y <= height,
                    x <= width,
                    height == m.height,
                    width == m.width,
                    rs == line_views(rows@),
                    rows@.len() >= 2 * height,
                    nrows == rows@.len(),
                    text_fits(rs, width as nat, height as nat),
                    target == read_model(m, rs),
                    row@ == target.horizontal[y as int].take(x as int),
                decreases width - x,
            {
                if y == 0 || y == height {
                    row.push(Wall::Present);
                } else {
                    assert(rows@[2 * y as int]@ == rs[2 * y as int]);
                    assert(rows_fit(rs, y as int, width as nat));
                    row.push(parse_wall(rows[2 * y][x], '-'));
                }
                x = x + 1;
                assert(row@ =~= target.horizontal[y as int].take(x as int));
            }
            assert(row@ =~= target.horizontal[y as int]);
            horizontal.push(row);
            y = y + 1;
        }
        let mut vertical: Vec<Vec<Wall>> = Vec::new();
        let mut goal = self.goal;
        let mut y: usize = 0;
        while y < height
            invariant
                y <= height,
                height == m.height,
                width == m.width,
                m.wf(),
                rs == line_views(rows@),
                rows@.len() >= 2 * height,
                nrows == rows@.len(),
                text_fits(rs, width as nat, height as nat),
                target == read_model(m, rs),
                vertical@.len() == y,
                forall|k: int| 0 <= k < y ==> (#[trigger] vertical@[k])@ == target.vertical[k],
                goal == goal_in_rows(rs, width as nat, y as nat, m.goal),
            decreases height - y,
        {
            assert(rows_fit(rs, y as int, width as nat));
            assert(rows@[2 * y + 1]@ == rs[2 * y + 1]);
            assert(rs[2 * y + 1].len() >= 2 * width);
            let vlen = rows[2 * y + 1].len();
            let ghost row_start_goal = goal;
            let mut row: Vec<Wall> = Vec::new();
            let mut x: usize = 0;
            while x <= width
                invariant
                    y < height,
                    x <= width + 1,
                    height == m.height,
                    width == m.width,
                    rs == line_views(rows@),
                    rows@[2 * y + 1]@ == rs[2 * y + 1],
                    rs[2 * y + 1].len() >= 2 * width,
                    rows@.len() >= 2 * height,
                    vlen == rs[2 * y + 1].len(),
                    nrows == rows@.len(),
                    target == read_model(m, rs),
                    row@ == target.vertical[y as int].take(x as int),
                    goal == goal_in_row(rs[2 * y + 1], y as int, if x <= width { x as nat } else { width as nat }, row_start_goal),
                decreases width + 1 - x,
            {
                if x == 0 || x == width {
                    row.push(Wall::Present);
                } else {
                    row.push(parse_wall(rows[2 * y + 1][2 * x], '|'));
                }
                if x < width {
                    if rows[2 * y + 1][2 * x + 1] == 'G' {
                        goal = Position { x, y };
                    }
                }
                x = x + 1;
                assert(row@ =~= target.vertical[y as int].take(x as int));
            }
            assert(row@ =~= target.vertical[y as int]);
            vertical.push(row);
            y = y + 1;
        }
        proof {
            lemma_read_model_wf(m, rs);
        }
        self.horizontal_walls = horizontal;
        self.vertical_walls = vertical;
        self.goal = goal;
        assert(self@.horizontal =~= target.horizontal);
        assert(self@.vertical =~= target.vertical);
        assert(self@.goal == target.goal);
        assert(self@ == target);
        assert(target.wf());
        Ok(())
    }
}


impl Location {
    /// `Y:`, `X:` (each right-aligned in two columns) and the heading's letter.
    pub open spec fn text(self) -> Seq<char> {
        seq!['Y', ':'] + right_aligned(decimal(self.pos.y as nat), 2) + seq![',', ' ', 'X', ':']
            + right_aligned(decimal(self.pos.x as nat), 2) + seq![',', ' ', 'D', 'i', 'r', ':']
            + self.dir.log_text()
    }

    /// The location as text, e.g. `Y: 3, X:12, Dir:N`.
    pub fn to_text(&self) -> (r: String)
        ensures
            r@ == self.text(),
    {
        let mut v: Vec<char> = Vec::new();
        v.push('Y');
        v.push(':');
        push_right_aligned(&mut v, self.pos.y, 2);
        v.push(',');
        v.push(' ');
        v.push('X');
        v.push(':');
        push_right_aligned(&mut v, self.pos.x, 2);
        v.push(',');
        v.push(' ');
        v.push('D');
        v.push('i');
        v.push('r');
        v.push(':');
        match self.dir {
            Compass::North => v.push('N'),
            Compass::East => v.push('E'),
            Compass::South => v.push('S'),
            Compass::West => v.push('W'),
        }
        assert(v@ =~= self.text());
        string_of(&v)
    }
}

impl Maze {
    /// The glyphs of the plain-text view of a maze: two characters per edge.
    pub open spec fn view_style() -> TextStyle {
        TextStyle {
            horizontal_absent: seq![' ', ' '],
            horizontal_present: seq!['-', '-'],
            horizontal_unexplored: seq![' ', ' '],
            vertical_absent: seq![' '],
            vertical_present: seq!['|'],
            vertical_unexplored: seq![' '],
            pillar: seq!['+'],
            goal: seq!['G', 'L'],
        }
    }

    /// The maze drawn for reading, followed by a newline.
    pub fn to_text(&self) -> (r: String)
        requires
            self@.wf(),
        ensures
            r@ == maze_text(self@, Maze::view_style()).push('\n'),
    {
        proof {
            reveal_strlit("  ");
            reveal_strlit("--");
            reveal_strlit(" ");
            reveal_strlit("|");
            reveal_strlit("+");
            reveal_strlit("GL");
            reveal_strlit("\n");
            assert("  "@ =~= seq![' ', ' ']);
            assert("--"@ =~= seq!['-', '-']);
            assert(" "@ =~= seq![' ']);
            assert("|"@ =~= seq!['|']);
            assert("+"@ =~= seq!['+']);
            assert("GL"@ =~= seq!['G', 'L']);
        }
        let mut s = self.to_text_data("  ", "--", "  ", " ", "|", " ", "+", "GL");
        s.append("\n");
        assert(s@ =~= maze_text(self@, Maze::view_style()).push('\n'));
        s
    }
}

} // verus!

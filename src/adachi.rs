use vstd::prelude::*;

use crate::distance::{
    field_shaped, field_sound, field_stable, field_sum, is_step_field, lemma_field_sum_nonneg,
    lemma_field_sum_update, lemma_stable_is_step_field, locally_stable, open_step, passable,
    reach_within,
};
use crate::path_finder::{NavigationError, PathFinder};
use crate::maze::{dx, dy, side_glyph, Compass, Direction, Location, Maze, MazeModel, Position, Wall};
use crate::text::{
    decimal, edge_row_text, join_all, join_lines, line_views, push_decimal,
    push_right_aligned, push_spaces, right_aligned, spaces, string_of, TextStyle,
};

verus! {

/// The value of a cell that the relaxation has not reached.
pub const UNREACHED: u16 = 65534;

/// How edges that nobody has seen yet are treated when distances are computed.
#[derive(Clone, Copy, Debug, PartialEq, Eq, Structural)]
pub enum StepMapMode {
    /// Unknown edges are passable: used while exploring.
    UnexploredAsAbsent,
    /// Unknown edges are blocked: only confirmed openings are used.
    UnexploredAsPresent,
}

/// The Adachi-method navigator: it keeps a map of the walls seen so far and a
/// field of distances to the goal, and steers toward the closest open neighbour.
pub struct Adachi {
    location: Location,
    maze: Maze,
    step_map: Vec<Vec<u16>>,
    mode: StepMapMode,
}

/// The mathematical content of an [`Adachi`] navigator.
pub struct AdachiModel {
    pub location: Location,
    pub maze: MazeModel,
    pub steps: Seq<Seq<u16>>,
    pub mode: StepMapMode,
}

impl AdachiModel {
    /// The map is well formed and the distance field is either not yet allocated or
    /// has the map's shape.
    pub open spec fn wf(self) -> bool {
        &&& self.maze.wf()
        &&& self.steps.len() == 0 || field_shaped(self.maze, self.steps)
    }
}

impl View for Adachi {
    type V = AdachiModel;

    closed spec fn view(&self) -> AdachiModel {
        AdachiModel {
            location: self.location,
            maze: self.maze@,
            steps: self.step_map@.map_values(|r: Vec<u16>| r@),
            mode: self.mode,
        }
    }
}

fn filled_steps(n: usize, v: u16) -> (r: Vec<u16>)
    ensures
        r@ == Seq::new(n as nat, |i: int| v),
{
    let mut r: Vec<u16> = Vec::new();
    let mut i: usize = 0;
    while i < n
        invariant
            i <= n,
            r@ == Seq::new(i as nat, |k: int| v),
        decreases n - i,
    {
        r.push(v);
        i = i + 1;
        assert(r@ =~= Seq::new(i as nat, |k: int| v));
    }
    r
}

fn is_passable(mode: StepMapMode, w: Wall) -> (r: bool)
    ensures
        r == passable(mode, w),
{
    match mode {
        StepMapMode::UnexploredAsAbsent => w == Wall::Absent || w == Wall::Unexplored,
        StepMapMode::UnexploredAsPresent => w == Wall::Absent,
    }
}

impl Adachi {
    /// A navigator on `maze`, at the start cell facing North, exploring.
    pub fn new(maze: Maze) -> (r: Self)
        requires
            maze@.wf(),
        ensures
            r@.location == Location::start(),
            r@.maze == maze@,
            r@.steps.len() == 0,
            r@.mode == StepMapMode::UnexploredAsAbsent,
            r@.wf(),
    {
        Adachi {
            location: Location { pos: Position { x: 0, y: 0 }, dir: Compass::North },
            maze: maze,
            step_map: Vec::new(),
            mode: StepMapMode::UnexploredAsAbsent,
        }
    }

    pub fn set_mode(&mut self, mode: StepMapMode)
        ensures
            final(self)@ == (AdachiModel { mode, ..old(self)@ }),
    {
        self.mode = mode;
    }

    /// The goal recorded in the navigator's map.
    pub fn get_goal(&self) -> (r: Position)
        ensures
            r == self@.maze.goal,
    {
        self.maze.get_goal()
    }

    /// Relaxes the entry of `(x, y)` across side `c`; true if it went down.
    fn relax(&mut self, y: usize, x: usize, c: Compass, goal: Position) -> (updated: bool)
        requires
            old(self)@.maze.wf(),
            old(self)@.maze.in_grid(y as int, x as int),
            old(self)@.maze.in_grid(goal.y as int, goal.x as int),
            field_sound(old(self)@.maze, old(self)@.mode, goal, old(self)@.steps),
        ensures
            final(self)@.maze == old(self)@.maze,
            final(self)@.mode == old(self)@.mode,
            final(self)@.location == old(self)@.location,
            field_sound(final(self)@.maze, final(self)@.mode, goal, final(self)@.steps),
            !updated ==> final(self)@.steps == old(self)@.steps && locally_stable(
                final(self)@.maze,
                final(self)@.mode,
                final(self)@.steps,
                y as int,
                x as int,
                c,
            ),
            updated ==> field_sum(final(self)@.steps) < field_sum(old(self)@.steps),
    {
        let ghost m = self@.maze;
        let ghost sm = self@.steps;
        match self.maze.get_neighbor_cell(y, x, c) {
            Some((ny, nx)) => {
                proof {
                    assert(sm[y as int].len() == m.width);
                    assert(sm[ny as int].len() == m.width);
                    assert(self.step_map@[y as int]@ == sm[y as int]);
                    assert(self.step_map@[ny as int]@ == sm[ny as int]);
                }
                let neighbor = self.step_map[ny][nx];
                let current = self.step_map[y][x];
                assert(sm[ny as int][nx as int] <= UNREACHED);
                assert(current <= UNREACHED);
                if is_passable(self.mode, self.maze.get(y, x, c)) && current > neighbor + 1 {
                    self.step_map[y][x] = neighbor + 1;
                    proof {
                        let sm2 = sm.update(y as int, sm[y as int].update(x as int, (neighbor + 1) as u16));
                        assert(self@.steps =~= sm2);
                        lemma_field_sum_update(sm, y as int, x as int, (neighbor + 1) as u16);
                        assert(reach_within(m, self.mode, goal, ny as int, nx as int, neighbor as nat));
                        assert(open_step(m, self.mode, y as int, x as int, c));
                        assert(reach_within(m, self.mode, goal, y as int, x as int, (neighbor + 1) as nat));
                        assert forall|yy: int, xx: int| m.in_grid(yy, xx) implies #[trigger] sm2[yy][xx] <= UNREACHED && (sm2[yy][xx] < UNREACHED
                            ==> reach_within(m, self.mode, goal, yy, xx, sm2[yy][xx] as nat)) by {
                            if yy != y || xx != x {
                                assert(sm2[yy][xx] == sm[yy][xx]);
                            }
                        }
                        assert(sm2[goal.y as int][goal.x as int] == 0);
                    }
                    return true;
                }
                false
            },
            None => false,
        }
    }

    /// Fills the distance field with the distance of every cell to `goal` under the
    /// current mode, by repeated relaxation passes until one changes nothing.
    pub fn calc_step_map(&mut self, goal: Position)
        requires
            old(self)@.wf(),
            old(self)@.maze.in_grid(goal.y as int, goal.x as int),
        ensures
            final(self)@.wf(),
            final(self)@.maze == old(self)@.maze,
            final(self)@.mode == old(self)@.mode,
            final(self)@.location == old(self)@.location,
            is_step_field(final(self)@.maze, final(self)@.mode, goal, final(self)@.steps),
            final(self)@.steps[goal.y as int][goal.x as int] == 0,
    {
        let width = self.maze.get_width();
        let height = self.maze.get_height();
        let ghost m = self@.maze;
        let ghost mode = self@.mode;
        let ghost loc = self@.location;
        if self.step_map.len() == 0 {
            let mut fresh: Vec<Vec<u16>> = Vec::new();
            let mut i: usize = 0;
            while i < height
                invariant
                    i <= height,
                    fresh@.len() == i,
                    forall|k: int| 0 <= k < i ==> (#[trigger] fresh@[k])@ == Seq::new(width as nat, |j: int| UNREACHED),
                decreases height - i,
            {
                fresh.push(filled_steps(width, UNREACHED));
                i = i + 1;
            }
            self.step_map = fresh;
        } else {
            let mut i: usize = 0;
            while i < height
                invariant
                    i <= height,
                    self@.maze == m,
                    self@.mode == mode,
                    self@.location == loc,
                    m.wf(),
                    width == m.width,
                    height == m.height,
                    field_shaped(m, self@.steps),
                    forall|k: int, j: int| 0 <= k < i && 0 <= j < width ==> #[trigger] self@.steps[k][j] == UNREACHED,
                decreases height - i,
            {
                let mut j: usize = 0;
                while j < width
                    invariant
                        i < height,
                        j <= width,
                        self@.maze == m,
                        self@.mode == mode,
                        self@.location == loc,
                        m.wf(),
                        width == m.width,
                        height == m.height,
                        field_shaped(m, self@.steps),
                        forall|k: int, l: int| 0 <= k < i && 0 <= l < width ==> #[trigger] self@.steps[k][l] == UNREACHED,
                        forall|l: int| 0 <= l < j ==> #[trigger] self@.steps[i as int][l] == UNREACHED,
                    decreases width - j,
                {
                    let ghost pre = self@.steps;
                    proof {
                        assert(pre[i as int].len() == width);
                        assert(self.step_map@[i as int]@ == pre[i as int]);
                    }
                    self.step_map[i][j] = UNREACHED;
                    proof {
                        assert(self@.steps =~= pre.update(i as int, pre[i as int].update(j as int, UNREACHED)));
                    }
                    j = j + 1;
                }
                i = i + 1;
            }
        }
        proof {
            let sm = self@.steps;
            assert(field_shaped(m, sm));
            assert(self.step_map@[goal.y as int]@ == sm[goal.y as int]);
        }
        let ghost pre = self@.steps;
        self.step_map[goal.y][goal.x] = 0;
        proof {
            let sm = self@.steps;
            assert(sm =~= pre.update(goal.y as int, pre[goal.y as int].update(goal.x as int, 0)));
            assert forall|y: int, x: int| m.in_grid(y, x) implies #[trigger] sm[y][x] <= UNREACHED && (sm[y][x] < UNREACHED
                ==> reach_within(m, mode, goal, y, x, sm[y][x] as nat)) by {
                if y != goal.y || x != goal.x {
                    assert(sm[y][x] == pre[y][x]);
                }
            }
            assert(field_sound(m, mode, goal, sm));
        }
        let mut no_cell_updated = false;
        while !no_cell_updated
            invariant
                self@.maze == m,
                self@.mode == mode,
                self@.location == loc,
                m.wf(),
                width == m.width,
                height == m.height,
                field_sound(m, mode, goal, self@.steps),
                no_cell_updated ==> field_stable(m, mode, self@.steps),
                m.in_grid(goal.y as int, goal.x as int),
            decreases field_sum(self@.steps) + (if no_cell_updated { 0int } else { 1int }),
        {
            no_cell_updated = true;
            let ghost start = self@.steps;
            proof {
                lemma_field_sum_nonneg(start);
            }
            let mut i: usize = 0;
            while i < height
                invariant
                    i <= height,
                    self@.maze == m,
                    self@.mode == mode,
                    self@.location == loc,
                    m.wf(),
                    width == m.width,
                    height == m.height,
                    field_sound(m, mode, goal, self@.steps),
                    no_cell_updated ==> self@.steps == start,
                    no_cell_updated ==> forall|y: int, x: int, c: Compass| 0 <= y < i && 0 <= x < width ==> #[trigger] locally_stable(m, mode, start, y, x, c),
                    !no_cell_updated ==> field_sum(self@.steps) < field_sum(start),
                    field_sum(self@.steps) <= field_sum(start),
                    m.in_grid(goal.y as int, goal.x as int),
                decreases height - i,
            {
                let mut j: usize = 0;
                while j < width
                    invariant
                        i < height,
                        j <= width,
                        self@.maze == m,
                        self@.mode == mode,
                        self@.location == loc,
                        m.wf(),
                        width == m.width,
                        height == m.height,
                        field_sound(m, mode, goal, self@.steps),
                        no_cell_updated ==> self@.steps == start,
                        no_cell_updated ==> forall|y: int, x: int, c: Compass| 0 <= y < i && 0 <= x < width ==> #[trigger] locally_stable(m, mode, start, y, x, c),
                        no_cell_updated ==> forall|x: int, c: Compass| 0 <= x < j ==> #[trigger] locally_stable(m, mode, start, i as int, x, c),
                        !no_cell_updated ==> field_sum(self@.steps) < field_sum(start),
                        field_sum(self@.steps) <= field_sum(start),
                        m.in_grid(goal.y as int, goal.x as int),
                    decreases width - j,
                {
                    let ghost before = self@.steps;
                    let compasses = Compass::iter();
                    let mut k: usize = 0;
                    while k < 4
                        invariant
                            i < height,
                            j < width,
                            k <= 4,
                            compasses@ == seq![Compass::North, Compass::East, Compass::South, Compass::West],
                            self@.maze == m,
                            self@.mode == mode,
                            self@.location == loc,
                            m.wf(),
                            width == m.width,
                            height == m.height,
                            field_sound(m, mode, goal, self@.steps),
                            m.in_grid(goal.y as int, goal.x as int),
                            no_cell_updated ==> self@.steps == before,
                            no_cell_updated ==> before == start,
                            no_cell_updated ==> forall|q: int| 0 <= q < k ==> #[trigger] locally_stable(m, mode, before, i as int, j as int, compasses@[q]),
                            !no_cell_updated ==> field_sum(self@.steps) < field_sum(start),
                            field_sum(self@.steps) <= field_sum(start),
                        decreases 4 - k,
                    {
                        if self.relax(i, j, compasses[k], goal) {
                            no_cell_updated = false;
                        }
                        k = k + 1;
                    }
                    proof {
                        if no_cell_updated {
                            assert forall|c: Compass| #[trigger] locally_stable(m, mode, start, i as int, j as int, c) by {
                                match c {
                                    Compass::North => assert(locally_stable(m, mode, before, i as int, j as int, compasses@[0])),
                                    Compass::East => assert(locally_stable(m, mode, before, i as int, j as int, compasses@[1])),
                                    Compass::South => assert(locally_stable(m, mode, before, i as int, j as int, compasses@[2])),
                                    Compass::West => assert(locally_stable(m, mode, before, i as int, j as int, compasses@[3])),
                                }
                            }
                        }
                    }
                    j = j + 1;
                }
                i = i + 1;
            }
            proof {
                lemma_field_sum_nonneg(self@.steps);
            }
        }
        proof {
            lemma_stable_is_step_field(m, mode, goal, self@.steps);
        }
    }

    /// The distance entry of cell `(x, y)`.
    pub fn get_step(&self, x: usize, y: usize) -> (r: u16)
        requires
            self@.wf(),
            self@.steps.len() > 0,
            self@.maze.in_grid(y as int, x as int),
        ensures
            r == self@.steps[y as int][x as int],
    {
        proof {
            assert(self@.steps[y as int].len() == self@.maze.width);
            assert(self.step_map@[y as int]@ == self@.steps[y as int]);
        }
        self.step_map[y][x]
    }
}


/// The map after recording what the sensors saw from `loc`: the edges ahead, to
/// the left and to the right of the robot.
pub open spec fn sensed(m: MazeModel, loc: Location, front: Wall, left: Wall, right: Wall) -> MazeModel {
    let y = loc.pos.y as int;
    let x = loc.pos.x as int;
    m.after_set(y, x, loc.dir.turned(Direction::Forward), front).after_set(
        y,
        x,
        loc.dir.turned(Direction::Left),
        left,
    ).after_set(y, x, loc.dir.turned(Direction::Right), right)
}

/// The distance entry of the cell across side `c` of `(x, y)`.
pub open spec fn dist_via(sm: Seq<Seq<u16>>, y: int, x: int, c: Compass) -> u16 {
    sm[y + dy(c)][x + dx(c)]
}

/// Side `c` of `(x, y)` is open and leads to a cell with a known path to the goal.
pub open spec fn candidate(m: MazeModel, sm: Seq<Seq<u16>>, y: int, x: int, c: Compass) -> bool {
    &&& m.wall(y, x, c) == Wall::Absent
    &&& m.neighbor(y, x, c) is Some
    &&& dist_via(sm, y, x, c) < UNREACHED
}

/// `c` is the side to take from `(x, y)`: a candidate with the smallest distance,
/// the first such one in the order North, East, South, West.
pub open spec fn best_choice(m: MazeModel, sm: Seq<Seq<u16>>, y: int, x: int, c: Compass) -> bool {
    &&& candidate(m, sm, y, x, c)
    &&& forall|c2: Compass| #[trigger]
        candidate(m, sm, y, x, c2) ==> dist_via(sm, y, x, c) <= dist_via(sm, y, x, c2)
    &&& forall|c2: Compass| #[trigger]
        candidate(m, sm, y, x, c2) && c2.quarter() < c.quarter() ==> dist_via(sm, y, x, c)
            < dist_via(sm, y, x, c2)
}

impl PathFinder for Adachi {
    open spec fn can_navigate(&self, goal: Position) -> bool {
        &&& self@.wf()
        &&& self@.maze.in_grid(self@.location.pos.y as int, self@.location.pos.x as int)
        &&& self@.maze.in_grid(goal.y as int, goal.x as int)
    }

    open spec fn location_spec(&self) -> Location {
        self@.location
    }

    /// Records the sensed walls, recomputes the distance field toward `goal` and
    /// picks the open side with the smallest distance.
    fn navigate(&mut self, front: Wall, left: Wall, right: Wall, goal: Position) -> (r: Result<
        Direction,
        NavigationError,
    >)
        ensures
            old(self)@.location.pos == old(self)@.maze.goal ==> r == Err::<
                Direction,
                NavigationError,
            >(NavigationError::GoalReached) && final(self)@ == old(self)@,
            old(self)@.location.pos != old(self)@.maze.goal ==> {
                let y = old(self)@.location.pos.y as int;
                let x = old(self)@.location.pos.x as int;
                let m = final(self)@.maze;
                let sm = final(self)@.steps;
                &&& m == sensed(old(self)@.maze, old(self)@.location, front, left, right)
                &&& final(self)@.location == old(self)@.location
                &&& final(self)@.mode == old(self)@.mode
                &&& final(self)@.wf()
                &&& is_step_field(m, final(self)@.mode, goal, sm)
                &&& (r == Err::<Direction, NavigationError>(NavigationError::NoPath) <==> forall|
                    c: Compass,
                | !#[trigger] candidate(m, sm, y, x, c))
                &&& r is Ok ==> best_choice(m, sm, y, x, old(self)@.location.dir.turned(r->Ok_0))
                &&& r is Ok ==> m.wall(y, x, old(self)@.location.dir.turned(r->Ok_0))
                    == Wall::Absent
            },
    {
        if self.maze.get_goal() == self.location.pos {
            return Err(NavigationError::GoalReached);
        }
        let cur_x = self.location.pos.x;
        let cur_y = self.location.pos.y;
        let cur_d = self.location.dir;
        self.maze.set(cur_y, cur_x, cur_d.turn(Direction::Forward), front);
        self.maze.set(cur_y, cur_x, cur_d.turn(Direction::Left), left);
        self.maze.set(cur_y, cur_x, cur_d.turn(Direction::Right), right);

        self.calc_step_map(goal);

        let ghost m = self@.maze;
        let ghost sm = self@.steps;
        let compasses = Compass::iter();
        let mut min_step: u16 = UNREACHED;
        let mut result: Option<Compass> = None;
        let mut k: usize = 0;
        while k < 4
            invariant
                k <= 4,
                compasses@ == seq![Compass::North, Compass::East, Compass::South, Compass::West],
                self@.maze == m,
                self@.steps == sm,
                self@.wf(),
                m.in_grid(cur_y as int, cur_x as int),
                is_step_field(m, self@.mode, goal, sm),
                result is None ==> min_step == UNREACHED && forall|q: int|
                    0 <= q < k ==> !#[trigger] candidate(m, sm, cur_y as int, cur_x as int, compasses@[q]),
                result is Some ==> {
                    let c = result->Some_0;
                    &&& candidate(m, sm, cur_y as int, cur_x as int, c)
                    &&& c.quarter() < k
                    &&& min_step == dist_via(sm, cur_y as int, cur_x as int, c)
                    &&& forall|q: int| 0 <= q < k && #[trigger] candidate(m, sm, cur_y as int, cur_x as int, compasses@[q])
                        ==> min_step <= dist_via(sm, cur_y as int, cur_x as int, compasses@[q])
                    &&& forall|q: int| 0 <= q < c.quarter() && #[trigger] candidate(m, sm, cur_y as int, cur_x as int, compasses@[q])
                        ==> min_step < dist_via(sm, cur_y as int, cur_x as int, compasses@[q])
                },
            decreases 4 - k,
        {
            let c = compasses[k];
            assert(c.quarter() == k);
            if self.maze.get(cur_y, cur_x, c) == Wall::Absent {
                match self.maze.get_neighbor_cell(cur_y, cur_x, c) {
                    Some((ny, nx)) => {
                        proof {
                            assert(sm[ny as int].len() == m.width);
                            assert(self.step_map@[ny as int]@ == sm[ny as int]);
                        }
                        let s = self.step_map[ny][nx];
                        if s < min_step {
                            min_step = s;
                            result = Some(c);
                        }
                    },
                    None => {},
                }
            }
            k = k + 1;
        }
        proof {
            assert forall|c: Compass| #[trigger] candidate(m, sm, cur_y as int, cur_x as int, c) implies
                candidate(m, sm, cur_y as int, cur_x as int, compasses@[c.quarter()]) by {
                assert(compasses@[c.quarter()] == c);
            }
        }
        match result {
            None => Err(NavigationError::NoPath),
            Some(c) => {
                let d = cur_d.get_direction_to(c);
                Ok(d)
            },
        }
    }

    fn get_location(&self) -> (r: Location) {
        self.location
    }

    fn set_location(&mut self, location: Location)
        ensures
            final(self)@ == (AdachiModel { location, ..old(self)@ }),
    {
        self.location = location;
    }
}


/// The glyphs of the distance-field rendering: three characters per edge.
pub open spec fn display_style() -> TextStyle {
    TextStyle {
        horizontal_absent: seq![' ', ' ', ' '],
        horizontal_present: seq!['-', '-', '-'],
        horizontal_unexplored: seq!['?', '?', '?'],
        vertical_absent: seq![' '],
        vertical_present: seq!['|'],
        vertical_unexplored: seq!['?'],
        pillar: seq!['+'],
        goal: seq![' ', ' ', ' '],
    }
}

/// The edge row `row` in the distance-field rendering.
pub open spec fn display_edge_line(m: MazeModel, row: int) -> Seq<char> {
    edge_row_text(m, display_style(), row, m.width) + seq!['+']
}

/// A distance entry in three columns; blank where the cell is unreached.
pub open spec fn step_cell_text(v: u16) -> Seq<char> {
    if v == UNREACHED {
        spaces(3)
    } else {
        right_aligned(decimal(v as nat), 3)
    }
}

/// The first `n` cells of row `row`: the west edge and the distance of each.
pub open spec fn step_row_text(a: AdachiModel, row: int, n: nat) -> Seq<char>
    decreases n,
{
    if n == 0 {
        Seq::empty()
    } else {
        step_row_text(a, row, (n - 1) as nat) + seq![side_glyph(a.maze.vertical[row][n - 1])]
            + step_cell_text(a.steps[row][n - 1])
    }
}

/// Cell row `row` of the rendering, closed by the east boundary and the row number.
pub open spec fn display_step_line(a: AdachiModel, row: int) -> Seq<char> {
    step_row_text(a, row, a.maze.width) + seq!['|', ' '] + decimal(row as nat)
}

/// The column numbers under the rendering.
pub open spec fn axis_text(n: nat) -> Seq<char>
    decreases n,
{
    if n == 0 {
        Seq::empty()
    } else {
        axis_text((n - 1) as nat) + seq![' '] + right_aligned(decimal((n - 1) as nat), 3)
    }
}

/// The lines of the rendering, top first: the top boundary, then each cell row
/// below the edge row north of it, the top boundary once more, and the axis.
pub open spec fn display_lines(a: AdachiModel) -> Seq<Seq<char>> {
    let h = a.maze.height as int;
    Seq::new(
        (2 * h + 2) as nat,
        |i: int|
            if i == 2 * h {
                display_edge_line(a.maze, h)
            } else if i == 2 * h + 1 {
                axis_text(a.maze.width)
            } else if i % 2 == 0 {
                display_edge_line(a.maze, h - i / 2)
            } else {
                display_step_line(a, h - 1 - i / 2)
            },
    )
}

impl Adachi {
    fn edge_line(&self, row: usize) -> (r: Vec<char>)
        requires
            self@.wf(),
            1 <= row <= self@.maze.height,
        ensures
            r@ == display_edge_line(self@.maze, row as int),
    {
        let ghost m = self@.maze;
        let width = self.maze.get_width();
        let mut line: Vec<char> = Vec::new();
        let mut j: usize = 0;
        while j < width
            invariant
                self@.wf(),
                m == self@.maze,
                width == m.width,
                1 <= row <= m.height,
                j <= width,
                line@ == edge_row_text(m, display_style(), row as int, j as nat),
            decreases width - j,
        {
            let w = self.maze.get(row - 1, j, Compass::North);
            line.push('+');
            match w {
                Wall::Absent => {
                    line.push(' ');
                    line.push(' ');
                    line.push(' ');
                },
                Wall::Present => {
                    line.push('-');
                    line.push('-');
                    line.push('-');
                },
                Wall::Unexplored => {
                    line.push('?');
                    line.push('?');
                    line.push('?');
                },
            }
            j = j + 1;
            assert(line@ =~= edge_row_text(m, display_style(), row as int, j as nat));
        }
        line.push('+');
        line
    }

    fn step_line(&self, row: usize) -> (r: Vec<char>)
        requires
            self@.wf(),
            self@.steps.len() > 0,
            row < self@.maze.height,
        ensures
            r@ == display_step_line(self@, row as int),
    {
        let ghost a = self@;
        let width = self.maze.get_width();
        proof {
            assert(a.steps[row as int].len() == a.maze.width);
            assert(self.step_map@[row as int]@ == a.steps[row as int]);
            assert(self.step_map@.len() == a.steps.len());
        }
        let mut line: Vec<char> = Vec::new();
        let mut j: usize = 0;
        while j < width
            invariant
                self@.wf(),
                a == self@,
                width == a.maze.width,
                row < a.maze.height,
                a.steps[row as int].len() == a.maze.width,
                self.step_map@[row as int]@ == a.steps[row as int],
                self.step_map@.len() == a.maze.height,
                j <= width,
                line@ == step_row_text(a, row as int, j as nat),
            decreases width - j,
        {
            let w = self.maze.get(row, j, Compass::West);
            match w {
                Wall::Absent => line.push(' '),
                Wall::Present => line.push('|'),
                Wall::Unexplored => line.push('?'),
            }
            let step = self.step_map[row][j];
            if step == UNREACHED {
                push_spaces(&mut line, 3);
            } else {
                push_right_aligned(&mut line, step as usize, 3);
            }
            j = j + 1;
            assert(line@ =~= step_row_text(a, row as int, j as nat));
        }
        line.push('|');
        line.push(' ');
        push_decimal(&mut line, row);
        assert(line@ =~= display_step_line(a, row as int));
        line
    }

    /// The distance field drawn inside the map: each cell shows its distance, or
    /// stays blank where it is unreached; rows are numbered on the right and
    /// columns below.
    pub fn display_step_map(&self) -> (r: String)
        requires
            self@.wf(),
            self@.steps.len() > 0,
        ensures
            r@ == join_lines(display_lines(self@)),
    {
        let ghost a = self@;
        let ghost dl = display_lines(a);
        let height = self.maze.get_height();
        let width = self.maze.get_width();
        let mut lines: Vec<Vec<char>> = Vec::new();
        let mut i: usize = height;
        while i > 0
            invariant
                self@.wf(),
                self@.steps.len() > 0,
                a == self@,
                dl == display_lines(a),
                height == a.maze.height,
                i <= height,
                lines@.len() == 2 * (height - i),
                forall|k: int| 0 <= k < lines@.len() ==> (#[trigger] lines@[k])@ == dl[k],
            decreases i,
        {
            i = i - 1;
            lines.push(self.edge_line(i + 1));
            lines.push(self.step_line(i));
        }
        lines.push(self.edge_line(height));
        let mut axis: Vec<char> = Vec::new();
        let mut j: usize = 0;
        while j < width
            invariant
                j <= width,
                axis@ == axis_text(j as nat),
            decreases width - j,
        {
            axis.push(' ');
            push_right_aligned(&mut axis, j, 3);
            j = j + 1;
            assert(axis@ =~= axis_text(j as nat));
        }
        lines.push(axis);
        assert(line_views(lines@) =~= dl);
        string_of(&join_all(&lines))
    }
}


} // verus!

use vstd::arithmetic::div_mod::lemma_fundamental_div_mod_converse;
use vstd::prelude::*;
use vstd::set_lib::{lemma_int_range, lemma_len_subset, set_int_range};

use crate::adachi::{StepMapMode, UNREACHED};
use crate::maze::{dx, dy, Compass, MazeModel, Position, Wall};

verus! {

/// Whether an edge in state `w` can be crossed under `mode`.
pub open spec fn passable(mode: StepMapMode, w: Wall) -> bool {
    match w {
        Wall::Absent => true,
        Wall::Present => false,
        Wall::Unexplored => mode == StepMapMode::UnexploredAsAbsent,
    }
}

/// A single move from `(x, y)` across side `c` into a neighbouring cell is allowed.
pub open spec fn open_step(m: MazeModel, mode: StepMapMode, y: int, x: int, c: Compass) -> bool {
    m.neighbor(y, x, c) is Some && passable(mode, m.wall(y, x, c))
}

/// The goal can be reached from `(x, y)` in at most `k` allowed moves.
pub open spec fn reach_within(
    m: MazeModel,
    mode: StepMapMode,
    goal: Position,
    y: int,
    x: int,
    k: nat,
) -> bool
    decreases k,
{
    if y == goal.y && x == goal.x {
        true
    } else if k == 0 {
        false
    } else {
        exists|c: Compass|
            #[trigger] open_step(m, mode, y, x, c) && reach_within(
                m,
                mode,
                goal,
                y + dy(c),
                x + dx(c),
                (k - 1) as nat,
            )
    }
}

/// `v` is the length of a shortest path from `(x, y)` to the goal, or `UNREACHED`
/// where no path shorter than `UNREACHED` exists.
pub open spec fn is_distance(
    m: MazeModel,
    mode: StepMapMode,
    goal: Position,
    y: int,
    x: int,
    v: u16,
) -> bool {
    &&& v <= UNREACHED
    &&& v < UNREACHED ==> reach_within(m, mode, goal, y, x, v as nat)
    &&& forall|k: nat| k < v ==> !#[trigger] reach_within(m, mode, goal, y, x, k)
}

/// `sm` has one row per row of cells and one entry per cell in each row.
pub open spec fn field_shaped(m: MazeModel, sm: Seq<Seq<u16>>) -> bool {
    &&& sm.len() == m.height
    &&& forall|y: int| 0 <= y < sm.len() ==> #[trigger] sm[y].len() == m.width
}

/// `sm` holds, for every cell, its distance to `goal` under `mode`.
pub open spec fn is_step_field(
    m: MazeModel,
    mode: StepMapMode,
    goal: Position,
    sm: Seq<Seq<u16>>,
) -> bool {
    &&& field_shaped(m, sm)
    &&& forall|y: int, x: int|
        m.in_grid(y, x) ==> is_distance(m, mode, goal, y, x, #[trigger] sm[y][x])
}

/// Every finite entry of `sm` is the length of some path to the goal.
pub open spec fn field_sound(
    m: MazeModel,
    mode: StepMapMode,
    goal: Position,
    sm: Seq<Seq<u16>>,
) -> bool {
    &&& field_shaped(m, sm)
    &&& sm[goal.y as int][goal.x as int] == 0
    &&& forall|y: int, x: int|
        m.in_grid(y, x) ==> #[trigger] sm[y][x] <= UNREACHED && (sm[y][x] < UNREACHED
            ==> reach_within(m, mode, goal, y, x, sm[y][x] as nat))
}

/// No allowed move from `(x, y)` across `c` would shorten its entry.
pub open spec fn locally_stable(
    m: MazeModel,
    mode: StepMapMode,
    sm: Seq<Seq<u16>>,
    y: int,
    x: int,
    c: Compass,
) -> bool {
    open_step(m, mode, y, x, c) ==> sm[y][x] <= sm[y + dy(c)][x + dx(c)] + 1
}

pub open spec fn field_stable(m: MazeModel, mode: StepMapMode, sm: Seq<Seq<u16>>) -> bool {
    forall|y: int, x: int, c: Compass|
        m.in_grid(y, x) ==> #[trigger] locally_stable(m, mode, sm, y, x, c)
}

pub open spec fn row_sum(r: Seq<u16>) -> int
    decreases r.len(),
{
    if r.len() == 0 {
        0
    } else {
        row_sum(r.drop_last()) + r.last()
    }
}

pub open spec fn field_sum(sm: Seq<Seq<u16>>) -> int
    decreases sm.len(),
{
    if sm.len() == 0 {
        0
    } else {
        field_sum(sm.drop_last()) + row_sum(sm.last())
    }
}

proof fn lemma_row_sum_update(r: Seq<u16>, i: int, v: u16)
    requires
        0 <= i < r.len(),
    ensures
        row_sum(r.update(i, v)) == row_sum(r) - r[i] + v,
        row_sum(r) >= 0,
    decreases r.len(),
{
    let r2 = r.update(i, v);
    if i == r.len() - 1 {
        assert(r2.drop_last() =~= r.drop_last());
        lemma_row_sum_nonneg(r.drop_last());
    } else {
        assert(r2.drop_last() =~= r.drop_last().update(i, v));
        lemma_row_sum_update(r.drop_last(), i, v);
    }
}

proof fn lemma_row_sum_nonneg(r: Seq<u16>)
    ensures
        row_sum(r) >= 0,
    decreases r.len(),
{
    if r.len() > 0 {
        lemma_row_sum_nonneg(r.drop_last());
    }
}

pub(crate) proof fn lemma_field_sum_nonneg(sm: Seq<Seq<u16>>)
    ensures
        field_sum(sm) >= 0,
    decreases sm.len(),
{
    if sm.len() > 0 {
        lemma_field_sum_nonneg(sm.drop_last());
        lemma_row_sum_nonneg(sm.last());
    }
}

pub(crate) proof fn lemma_field_sum_update(sm: Seq<Seq<u16>>, y: int, x: int, v: u16)
    requires
        0 <= y < sm.len(),
        0 <= x < sm[y].len(),
    ensures
        field_sum(sm.update(y, sm[y].update(x, v))) == field_sum(sm) - sm[y][x] + v,
    decreases sm.len(),
{
    let sm2 = sm.update(y, sm[y].update(x, v));
    if y == sm.len() - 1 {
        assert(sm2.drop_last() =~= sm.drop_last());
        lemma_row_sum_update(sm[y], x, v);
    } else {
        assert(sm2.drop_last() =~= sm.drop_last().update(y, sm[y].update(x, v)));
        lemma_field_sum_update(sm.drop_last(), y, x, v);
    }
}

/// In a sound and stable field, a cell from which the goal is `k` moves away has
/// an entry of at most `k`.
proof fn lemma_stable_bounds(
    m: MazeModel,
    mode: StepMapMode,
    goal: Position,
    sm: Seq<Seq<u16>>,
    y: int,
    x: int,
    k: nat,
)
    requires
        m.wf(),
        m.in_grid(y, x),
        field_sound(m, mode, goal, sm),
        field_stable(m, mode, sm),
        reach_within(m, mode, goal, y, x, k),
    ensures
        sm[y][x] <= k,
    decreases k,
{
    if y == goal.y && x == goal.x {
    } else {
        let c = choose|c: Compass|
            #[trigger] open_step(m, mode, y, x, c) && reach_within(
                m,
                mode,
                goal,
                y + dy(c),
                x + dx(c),
                (k - 1) as nat,
            );
        lemma_stable_bounds(m, mode, goal, sm, y + dy(c), x + dx(c), (k - 1) as nat);
        assert(locally_stable(m, mode, sm, y, x, c));
    }
}

/// A sound and stable field holds the distance of every cell.
pub(crate) proof fn lemma_stable_is_step_field(
    m: MazeModel,
    mode: StepMapMode,
    goal: Position,
    sm: Seq<Seq<u16>>,
)
    requires
        m.wf(),
        field_sound(m, mode, goal, sm),
        field_stable(m, mode, sm),
    ensures
        is_step_field(m, mode, goal, sm),
{
    assert forall|y: int, x: int| m.in_grid(y, x) implies is_distance(
        m,
        mode,
        goal,
        y,
        x,
        #[trigger] sm[y][x],
    ) by {
        assert forall|k: nat| k < sm[y][x] implies !#[trigger] reach_within(
            m,
            mode,
            goal,
            y,
            x,
            k,
        ) by {
            if reach_within(m, mode, goal, y, x, k) {
                lemma_stable_bounds(m, mode, goal, sm, y, x, k);
            }
        }
    }
}


/// A path that uses only confirmed openings is also a path when unknown edges
/// count as open.
proof fn lemma_reach_conservative_optimistic(
    m: MazeModel,
    goal: Position,
    y: int,
    x: int,
    k: nat,
)
    requires
        reach_within(m, StepMapMode::UnexploredAsPresent, goal, y, x, k),
    ensures
        reach_within(m, StepMapMode::UnexploredAsAbsent, goal, y, x, k),
    decreases k,
{
    if y == goal.y && x == goal.x {
    } else {
        let c = choose|c: Compass|
            #[trigger] open_step(m, StepMapMode::UnexploredAsPresent, y, x, c) && reach_within(
                m,
                StepMapMode::UnexploredAsPresent,
                goal,
                y + dy(c),
                x + dx(c),
                (k - 1) as nat,
            );
        lemma_reach_conservative_optimistic(m, goal, y + dy(c), x + dx(c), (k - 1) as nat);
        assert(open_step(m, StepMapMode::UnexploredAsAbsent, y, x, c));
    }
}

/// Treating unexplored edges as walls never brings a cell closer to the goal: every
/// entry of the conservative field is at least the optimistic one.
pub proof fn lemma_conservative_not_shorter(
    m: MazeModel,
    goal: Position,
    conservative: Seq<Seq<u16>>,
    optimistic: Seq<Seq<u16>>,
)
    requires
        is_step_field(m, StepMapMode::UnexploredAsPresent, goal, conservative),
        is_step_field(m, StepMapMode::UnexploredAsAbsent, goal, optimistic),
    ensures
        forall|y: int, x: int|
            m.in_grid(y, x) ==> #[trigger] conservative[y][x] >= optimistic[y][x],
{
    assert forall|y: int, x: int| m.in_grid(y, x) implies #[trigger] conservative[y][x]
        >= optimistic[y][x] by {
        let v = conservative[y][x];
        assert(is_distance(m, StepMapMode::UnexploredAsPresent, goal, y, x, v));
        assert(is_distance(m, StepMapMode::UnexploredAsAbsent, goal, y, x, optimistic[y][x]));
        if v < UNREACHED {
            lemma_reach_conservative_optimistic(m, goal, y, x, v as nat);
        }
    }
}

/// The distance field is determined by the map, the mode and the goal: two fields
/// computed without a wall change in between are identical.
pub proof fn lemma_step_field_unique(
    m: MazeModel,
    mode: StepMapMode,
    goal: Position,
    a: Seq<Seq<u16>>,
    b: Seq<Seq<u16>>,
)
    requires
        is_step_field(m, mode, goal, a),
        is_step_field(m, mode, goal, b),
    ensures
        a == b,
{
    assert forall|y: int| 0 <= y < a.len() implies #[trigger] a[y] == b[y] by {
        assert forall|x: int| 0 <= x < a[y].len() implies a[y][x] == b[y][x] by {
            assert(m.in_grid(y, x));
            assert(is_distance(m, mode, goal, y, x, a[y][x]));
            assert(is_distance(m, mode, goal, y, x, b[y][x]));
            if a[y][x] < b[y][x] {
                assert(!reach_within(m, mode, goal, y, x, a[y][x] as nat));
            } else if b[y][x] < a[y][x] {
                assert(!reach_within(m, mode, goal, y, x, b[y][x] as nat));
            }
        }
        assert(a[y] =~= b[y]);
    }
    assert(a =~= b);
}


proof fn lemma_reach_step(m: MazeModel, mode: StepMapMode, goal: Position, y: int, x: int, k: nat)
    requires
        reach_within(m, mode, goal, y, x, k),
    ensures
        reach_within(m, mode, goal, y, x, k + 1),
    decreases k,
{
    if !(y == goal.y && x == goal.x) {
        let c = choose|c: Compass|
            #[trigger] open_step(m, mode, y, x, c) && reach_within(
                m,
                mode,
                goal,
                y + dy(c),
                x + dx(c),
                (k - 1) as nat,
            );
        lemma_reach_step(m, mode, goal, y + dy(c), x + dx(c), (k - 1) as nat);
        assert(open_step(m, mode, y, x, c) && reach_within(
            m,
            mode,
            goal,
            y + dy(c),
            x + dx(c),
            k,
        ));
    }
}

proof fn lemma_reach_monotone(
    m: MazeModel,
    mode: StepMapMode,
    goal: Position,
    y: int,
    x: int,
    k: nat,
    k2: nat,
)
    requires
        reach_within(m, mode, goal, y, x, k),
        k <= k2,
    ensures
        reach_within(m, mode, goal, y, x, k2),
    decreases k2 - k,
{
    if k < k2 {
        lemma_reach_step(m, mode, goal, y, x, k);
        lemma_reach_monotone(m, mode, goal, y, x, k + 1, k2);
    }
}

/// One more move reaches no cell that `j` moves did not already reach.
pub open spec fn layer_stable(m: MazeModel, mode: StepMapMode, goal: Position, j: nat) -> bool {
    forall|y: int, x: int|
        m.in_grid(y, x) && #[trigger] reach_within(m, mode, goal, y, x, j + 1) ==> reach_within(
            m,
            mode,
            goal,
            y,
            x,
            j,
        )
}

/// The cells, by index `y * width + x`, from which the goal is at most `k` moves away.
pub open spec fn layer(m: MazeModel, mode: StepMapMode, goal: Position, k: nat) -> Set<int> {
    Set::new(
        |i: int|
            0 <= i < m.width * m.height && reach_within(
                m,
                mode,
                goal,
                i / m.width as int,
                i % m.width as int,
                k,
            ),
    )
}

proof fn lemma_cell_index(m: MazeModel, y: int, x: int)
    requires
        m.wf(),
        m.in_grid(y, x),
    ensures
        0 <= y * m.width + x < m.width * m.height,
        (y * m.width + x) / m.width as int == y,
        (y * m.width + x) % m.width as int == x,
{
    let w = m.width as int;
    let h = m.height as int;
    assert(0 <= y * w) by (nonlinear_arith)
        requires
            0 <= y,
            0 <= w,
    ;
    assert(y * w + x < w * h) by (nonlinear_arith)
        requires
            0 <= y < h,
            0 <= x < w,
    ;
    lemma_fundamental_div_mod_converse(y * w + x, w, y, x);
}

proof fn lemma_stable_forever(
    m: MazeModel,
    mode: StepMapMode,
    goal: Position,
    j: nat,
    y: int,
    x: int,
    k: nat,
)
    requires
        m.wf(),
        layer_stable(m, mode, goal, j),
        m.in_grid(y, x),
        j <= k,
        reach_within(m, mode, goal, y, x, k),
    ensures
        reach_within(m, mode, goal, y, x, j),
    decreases k,
{
    if k > j && !(y == goal.y && x == goal.x) {
        assert forall|yy: int, xx: int|
            m.in_grid(yy, xx) && #[trigger] reach_within(m, mode, goal, yy, xx, (k - 1) as nat) implies reach_within(
            m,
            mode,
            goal,
            yy,
            xx,
            j,
        ) by {
            lemma_stable_forever(m, mode, goal, j, yy, xx, (k - 1) as nat);
        }
        let c = choose|c: Compass|
            #[trigger] open_step(m, mode, y, x, c) && reach_within(
                m,
                mode,
                goal,
                y + dy(c),
                x + dx(c),
                (k - 1) as nat,
            );
        assert(m.in_grid(y + dy(c), x + dx(c)));
        assert(reach_within(m, mode, goal, y + dy(c), x + dx(c), j));
        assert(reach_within(m, mode, goal, y, x, j + 1));
    }
}

proof fn lemma_layer_growth(m: MazeModel, mode: StepMapMode, goal: Position, k: nat)
    requires
        m.wf(),
        m.in_grid(goal.y as int, goal.x as int),
        forall|j: nat| j < k ==> !#[trigger] layer_stable(m, mode, goal, j),
    ensures
        layer(m, mode, goal, k).finite(),
        layer(m, mode, goal, k).len() >= k + 1,
    decreases k,
{
    let n = m.width * m.height;
    lemma_int_range(0, n as int);
    let t = layer(m, mode, goal, k);
    assert(t.subset_of(set_int_range(0, n as int)));
    lemma_len_subset(t, set_int_range(0, n as int));
    if k == 0 {
        let g = goal.y * m.width + goal.x;
        lemma_cell_index(m, goal.y as int, goal.x as int);
        assert(t.contains(g));
        assert(Set::<int>::empty().insert(g).subset_of(t));
        lemma_len_subset(Set::<int>::empty().insert(g), t);
    } else {
        lemma_layer_growth(m, mode, goal, (k - 1) as nat);
        let prev = layer(m, mode, goal, (k - 1) as nat);
        assert(!layer_stable(m, mode, goal, (k - 1) as nat));
        let (y, x) = choose|y: int, x: int|
            m.in_grid(y, x) && #[trigger] reach_within(m, mode, goal, y, x, k) && !reach_within(
                m,
                mode,
                goal,
                y,
                x,
                (k - 1) as nat,
            );
        lemma_cell_index(m, y, x);
        let i = y * m.width + x;
        assert(!prev.contains(i));
        assert(t.contains(i));
        assert forall|j: int| prev.contains(j) implies t.contains(j) by {
            lemma_reach_step(m, mode, goal, j / m.width as int, j % m.width as int, (k - 1) as nat);
        }
        assert(prev.insert(i).subset_of(t));
        lemma_len_subset(prev.insert(i), t);
    }
}

/// Where the goal can be reached at all, it can be reached in fewer moves than
/// the grid has cells.
pub proof fn lemma_short_path(
    m: MazeModel,
    mode: StepMapMode,
    goal: Position,
    y: int,
    x: int,
    k: nat,
)
    requires
        m.wf(),
        m.in_grid(goal.y as int, goal.x as int),
        m.in_grid(y, x),
        reach_within(m, mode, goal, y, x, k),
    ensures
        reach_within(m, mode, goal, y, x, (m.width * m.height - 1) as nat),
{
    let n = m.width * m.height;
    assert(n >= 1) by (nonlinear_arith)
        requires
            m.width >= 1,
            m.height >= 1,
            n == m.width * m.height,
    ;
    if k <= n - 1 {
        lemma_reach_monotone(m, mode, goal, y, x, k, (n - 1) as nat);
    } else {
        if forall|j: nat| j < n ==> !#[trigger] layer_stable(m, mode, goal, j) {
            lemma_layer_growth(m, mode, goal, n);
            lemma_int_range(0, n as int);
            assert(layer(m, mode, goal, n).subset_of(set_int_range(0, n as int)));
            lemma_len_subset(layer(m, mode, goal, n), set_int_range(0, n as int));
            assert(false);
        }
        let j = choose|j: nat| j < n && #[trigger] layer_stable(m, mode, goal, j);
        lemma_stable_forever(m, mode, goal, j, y, x, k);
        lemma_reach_monotone(m, mode, goal, y, x, j, (n - 1) as nat);
    }
}

/// On a grid of at most `UNREACHED` cells the distance field is exact for every
/// cell from which the goal can be reached: its entry is finite and is the length
/// of a shortest path.
pub proof fn lemma_step_field_exact(
    m: MazeModel,
    mode: StepMapMode,
    goal: Position,
    sm: Seq<Seq<u16>>,
    y: int,
    x: int,
    k: nat,
)
    requires
        m.wf(),
        m.width * m.height <= UNREACHED,
        m.in_grid(goal.y as int, goal.x as int),
        is_step_field(m, mode, goal, sm),
        m.in_grid(y, x),
        reach_within(m, mode, goal, y, x, k),
    ensures
        sm[y][x] < UNREACHED,
        sm[y][x] <= k,
        reach_within(m, mode, goal, y, x, sm[y][x] as nat),
        forall|j: nat| j < sm[y][x] ==> !#[trigger] reach_within(m, mode, goal, y, x, j),
{
    lemma_short_path(m, mode, goal, y, x, k);
    assert(m.width * m.height >= 1) by (nonlinear_arith)
        requires
            m.width >= 1,
            m.height >= 1,
    ;
    let n1 = (m.width * m.height - 1) as nat;
    assert(reach_within(m, mode, goal, y, x, n1));
    assert(is_distance(m, mode, goal, y, x, sm[y][x]));
    if sm[y][x] == UNREACHED {
        assert(n1 < sm[y][x]);
        assert(!reach_within(m, mode, goal, y, x, n1));
    }
    if sm[y][x] > k {
        assert(!reach_within(m, mode, goal, y, x, k));
    }
}

} // verus!

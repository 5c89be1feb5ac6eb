use vstd::prelude::*;
use vstd::string::StrSliceExecFns;

use crate::maze::{MazeModel, Position, Wall};

verus! {

/// The glyphs of a text rendering of a maze.
pub struct TextStyle {
    pub horizontal_absent: Seq<char>,
    pub horizontal_present: Seq<char>,
    pub horizontal_unexplored: Seq<char>,
    pub vertical_absent: Seq<char>,
    pub vertical_present: Seq<char>,
    pub vertical_unexplored: Seq<char>,
    pub pillar: Seq<char>,
    pub goal: Seq<char>,
}

pub open spec fn glyph(w: Wall, absent: Seq<char>, present: Seq<char>, unexplored: Seq<char>) -> Seq<
    char,
> {
    match w {
        Wall::Absent => absent,
        Wall::Present => present,
        Wall::Unexplored => unexplored,
    }
}

pub open spec fn spaces(n: nat) -> Seq<char> {
    Seq::new(n, |i: int| ' ')
}

/// The first `n` columns of the edge row `row`: a pillar and an edge glyph each.
pub open spec fn edge_row_text(m: MazeModel, st: TextStyle, row: int, n: nat) -> Seq<char>
    decreases n,
{
    if n == 0 {
        Seq::empty()
    } else {
        edge_row_text(m, st, row, (n - 1) as nat) + st.pillar + glyph(
            m.horizontal[row][n - 1],
            st.horizontal_absent,
            st.horizontal_present,
            st.horizontal_unexplored,
        )
    }
}

/// What follows the west edge of cell `(col, row)`: the goal glyph on the goal
/// cell, as many spaces elsewhere.
pub open spec fn goal_mark(m: MazeModel, st: TextStyle, row: int, col: int) -> Seq<char> {
    if col == m.goal.x && row == m.goal.y {
        st.goal
    } else {
        spaces(st.goal.len())
    }
}

/// The first `n` columns of the cell row `row`: an edge glyph and a goal mark each.
pub open spec fn cell_row_text(m: MazeModel, st: TextStyle, row: int, n: nat) -> Seq<char>
    decreases n,
{
    if n == 0 {
        Seq::empty()
    } else {
        cell_row_text(m, st, row, (n - 1) as nat) + glyph(
            m.vertical[row][n - 1],
            st.vertical_absent,
            st.vertical_present,
            st.vertical_unexplored,
        ) + goal_mark(m, st, row, n - 1)
    }
}

/// Line `b` of the rendering, counted from the bottom: even lines are edge rows,
/// odd lines cell rows. Inner edge rows end in `+`, the top one in the pillar.
pub open spec fn line_from_bottom(m: MazeModel, st: TextStyle, b: int) -> Seq<char> {
    if b == 2 * m.height {
        edge_row_text(m, st, m.height as int, m.width) + st.pillar
    } else if b % 2 == 0 {
        edge_row_text(m, st, b / 2, m.width) + seq!['+']
    } else {
        cell_row_text(m, st, b / 2, m.width + 1)
    }
}

/// The lines of the rendering in text order, top line first.
pub open spec fn text_lines(m: MazeModel, st: TextStyle) -> Seq<Seq<char>> {
    Seq::new(2 * m.height + 1, |i: int| line_from_bottom(m, st, 2 * m.height - i))
}

/// Lines joined with a newline between each two.
pub open spec fn join_lines(ls: Seq<Seq<char>>) -> Seq<char>
    decreases ls.len(),
{
    if ls.len() == 0 {
        Seq::empty()
    } else if ls.len() == 1 {
        ls[0]
    } else {
        join_lines(ls.drop_last()) + seq!['\n'] + ls.last()
    }
}

/// The full text rendering of `m` in style `st`.
pub open spec fn maze_text(m: MazeModel, st: TextStyle) -> Seq<char> {
    join_lines(text_lines(m, st))
}

/// The characters of `s`, in order.
pub(crate) fn chars_of(s: &str) -> (r: Vec<char>)
    ensures
        r@ == s@,
{
    let n = s.unicode_len();
    let mut r: Vec<char> = Vec::new();
    let mut i: usize = 0;
    while i < n
        invariant
            n == s@.len(),
            i <= n,
            r@ == s@.take(i as int),
        decreases n - i,
    {
        r.push(s.get_char(i));
        i = i + 1;
        assert(r@ =~= s@.take(i as int));
    }
    assert(s@.take(n as int) =~= s@);
    r
}

/// Relies on `String`'s `FromIterator<char>`: the string of these characters.
#[verifier::external_body]
pub(crate) fn string_of(v: &Vec<char>) -> (r: String)
    ensures
        r@ == v@,
{
    v.iter().collect()
}

pub(crate) fn push_all(out: &mut Vec<char>, s: &Vec<char>)
    ensures
        final(out)@ == old(out)@ + s@,
{
    let mut i: usize = 0;
    while i < s.len()
        invariant
            i <= s.len(),
            out@ == old(out)@ + s@.take(i as int),
        decreases s.len() - i,
    {
        out.push(s[i]);
        i = i + 1;
        assert(out@ =~= old(out)@ + s@.take(i as int));
    }
    assert(s@.take(s.len() as int) =~= s@);
}

pub(crate) fn push_spaces(out: &mut Vec<char>, n: usize)
    ensures
        final(out)@ == old(out)@ + spaces(n as nat),
{
    let mut i: usize = 0;
    while i < n
        invariant
            i <= n,
            out@ == old(out)@ + spaces(i as nat),
        decreases n - i,
    {
        out.push(' ');
        i = i + 1;
        assert(out@ =~= old(out)@ + spaces(i as nat));
    }
}

pub(crate) fn pick<'a>(w: Wall, absent: &'a Vec<char>, present: &'a Vec<char>, unexplored: &'a Vec<char>) -> (r: &'a Vec<char>)
    ensures
        r@ == glyph(w, absent@, present@, unexplored@),
{
    match w {
        Wall::Absent => absent,
        Wall::Present => present,
        Wall::Unexplored => unexplored,
    }
}


/// The pieces of `s` between newlines; a text without a newline is one piece.
pub open spec fn split_newlines(s: Seq<char>) -> Seq<Seq<char>>
    decreases s.len(),
{
    if s.len() == 0 {
        seq![Seq::empty()]
    } else {
        let pre = split_newlines(s.drop_last());
        if s.last() == '\n' {
            pre.push(Seq::empty())
        } else {
            pre.update(pre.len() - 1, pre.last().push(s.last()))
        }
    }
}

/// A line without the carriage return that may end it.
pub open spec fn strip_cr(l: Seq<char>) -> Seq<char> {
    if l.len() > 0 && l.last() == '\r' {
        l.drop_last()
    } else {
        l
    }
}

/// The lines of a text: a final newline ends the last line rather than opening
/// an empty one, and a carriage return before a newline is dropped.
pub open spec fn lines_of(s: Seq<char>) -> Seq<Seq<char>> {
    let p = split_newlines(s);
    let q = if p.last().len() == 0 {
        p.drop_last()
    } else {
        p
    };
    q.map_values(|l: Seq<char>| strip_cr(l))
}

/// A line with every pillar glyph `+` removed.
pub open spec fn without_pillars(l: Seq<char>) -> Seq<char>
    decreases l.len(),
{
    if l.len() == 0 {
        Seq::empty()
    } else {
        without_pillars(l.drop_last()) + if l.last() == '+' {
            Seq::empty()
        } else {
            seq![l.last()]
        }
    }
}

/// The lines of a maze text from the bottom one up, pillars removed: row `2 * y`
/// holds the edges south of the cells of row `y`, row `2 * y + 1` those cells.
pub open spec fn rows_from_bottom(s: Seq<char>) -> Seq<Seq<char>> {
    let ls = lines_of(s);
    Seq::new(ls.len(), |b: int| without_pillars(ls[ls.len() - 1 - b]))
}

/// The edge row and the cell row of cell row `y` are long enough for `width` cells.
pub open spec fn rows_fit(rows: Seq<Seq<char>>, y: int, width: nat) -> bool {
    rows[2 * y].len() >= width && rows[2 * y + 1].len() >= 2 * width
}

/// The rows are long enough for a `width` x `height` maze.
pub open spec fn text_fits(rows: Seq<Seq<char>>, width: nat, height: nat) -> bool {
    &&& rows.len() >= 2 * height
    &&& forall|y: int| 0 <= y < height ==> #[trigger] rows_fit(rows, y, width)
}

/// Reading keeps a maze well formed.
pub proof fn lemma_read_model_wf(m: MazeModel, rows: Seq<Seq<char>>)
    requires
        m.wf(),
    ensures
        read_model(m, rows).wf(),
{
    let r = read_model(m, rows);
    assert forall|x: int| 0 <= x < r.width implies #[trigger] r.horizontal[0][x] == Wall::Present
        && r.horizontal[r.height as int][x] == Wall::Present by {
        assert(r.horizontal[0].len() == r.width);
        assert(r.horizontal[r.height as int].len() == r.width);
    }
    assert forall|y: int| 0 <= y < r.height implies #[trigger] r.vertical[y][0] == Wall::Present
        && r.vertical[y][r.width as int] == Wall::Present by {
        assert(r.vertical[y].len() == r.width + 1);
    }
}

/// The edge that glyph `c` stands for: a space is open, `present` is a wall, any
/// other glyph is unexplored.
pub open spec fn parse_edge(c: char, present: char) -> Wall {
    if c == ' ' {
        Wall::Absent
    } else if c == present {
        Wall::Present
    } else {
        Wall::Unexplored
    }
}

/// The goal after scanning the first `n` cells of cell row `y`: the last one
/// marked `G`, or `g` if none is.
pub open spec fn goal_in_row(row: Seq<char>, y: int, n: nat, g: Position) -> Position
    decreases n,
{
    if n == 0 {
        g
    } else if row[2 * (n - 1) + 1] == 'G' {
        Position { x: (n - 1) as usize, y: y as usize }
    } else {
        goal_in_row(row, y, (n - 1) as nat, g)
    }
}

/// The goal after scanning the first `n` cell rows, bottom up and west to east.
pub open spec fn goal_in_rows(rows: Seq<Seq<char>>, width: nat, n: nat, g: Position) -> Position
    decreases n,
{
    if n == 0 {
        g
    } else {
        goal_in_row(rows[2 * (n - 1) + 1], n - 1, width, goal_in_rows(rows, width, (n - 1) as nat, g))
    }
}

/// The maze read from `rows` into `m`: every inner edge as its glyph says, the
/// boundary kept present, and the goal moved to the last cell marked `G`.
pub open spec fn read_model(m: MazeModel, rows: Seq<Seq<char>>) -> MazeModel {
    MazeModel {
        horizontal: Seq::new(
            m.height + 1,
            |y: int|
                Seq::new(
                    m.width,
                    |x: int|
                        if y == 0 || y == m.height {
                            Wall::Present
                        } else {
                            parse_edge(rows[2 * y][x], '-')
                        },
                ),
        ),
        vertical: Seq::new(
            m.height,
            |y: int|
                Seq::new(
                    m.width + 1,
                    |x: int|
                        if x == 0 || x == m.width {
                            Wall::Present
                        } else {
                            parse_edge(rows[2 * y + 1][2 * x], '|')
                        },
                ),
        ),
        goal: goal_in_rows(rows, m.width, m.height, m.goal),
        ..m
    }
}

pub open spec fn line_views(v: Seq<Vec<char>>) -> Seq<Seq<char>> {
    v.map_values(|l: Vec<char>| l@)
}

/// The lines of `s`, as `lines_of` gives them.
pub(crate) fn split_lines(s: &Vec<char>) -> (r: Vec<Vec<char>>)
    ensures
        line_views(r@) == lines_of(s@),
{
    let mut pieces: Vec<Vec<char>> = Vec::new();
    let mut cur: Vec<char> = Vec::new();
    let mut i: usize = 0;
    while i < s.len()
        invariant
            i <= s.len(),
            split_newlines(s@.take(i as int)) == line_views(pieces@).push(cur@),
        decreases s.len() - i,
    {
        let c = s[i];
        assert(s@.take(i + 1).drop_last() =~= s@.take(i as int));
        if c == '\n' {
            pieces.push(cur);
            cur = Vec::new();
            assert(line_views(pieces@).push(cur@) =~= split_newlines(s@.take(i + 1)));
        } else {
            cur.push(c);
            assert(line_views(pieces@).push(cur@) =~= split_newlines(s@.take(i + 1)));
        }
        i = i + 1;
    }
    assert(s@.take(s.len() as int) =~= s@);
    let ghost p = split_newlines(s@);
    if cur.len() > 0 {
        pieces.push(cur);
        assert(line_views(pieces@) =~= p);
    } else {
        assert(line_views(pieces@) =~= p.drop_last());
    }
    let ghost q = line_views(pieces@);
    let mut out: Vec<Vec<char>> = Vec::new();
    let mut k: usize = 0;
    while k < pieces.len()
        invariant
            k <= pieces@.len(),
            q == line_views(pieces@),
            line_views(out@) == q.take(k as int).map_values(|l: Seq<char>| strip_cr(l)),
        decreases pieces.len() - k,
    {
        let l = &pieces[k];
        let mut line: Vec<char> = Vec::new();
        let n = if l.len() > 0 && l[l.len() - 1] == '\r' {
            l.len() - 1
        } else {
            l.len()
        };
        let mut j: usize = 0;
        while j < n
            invariant
                j <= n,
                n <= l@.len(),
                line@ == l@.take(j as int),
            decreases n - j,
        {
            line.push(l[j]);
            j = j + 1;
            assert(line@ =~= l@.take(j as int));
        }
        assert(line@ =~= strip_cr(l@));
        assert(q[k as int] == l@);
        let ghost prev = line_views(out@);
        out.push(line);
        assert(line_views(out@) =~= prev.push(strip_cr(q[k as int])));
        assert(q.take(k + 1) =~= q.take(k as int).push(q[k as int]));
        k = k + 1;
        assert(line_views(out@) =~= q.take(k as int).map_values(|l: Seq<char>| strip_cr(l)));
    }
    assert(q.take(pieces.len() as int) =~= q);
    out
}

/// `l` without its pillars.
pub(crate) fn strip_pillars(l: &Vec<char>) -> (r: Vec<char>)
    ensures
        r@ == without_pillars(l@),
{
    let mut r: Vec<char> = Vec::new();
    let mut i: usize = 0;
    while i < l.len()
        invariant
            i <= l.len(),
            r@ == without_pillars(l@.take(i as int)),
        decreases l.len() - i,
    {
        assert(l@.take(i + 1).drop_last() =~= l@.take(i as int));
        if l[i] != '+' {
            r.push(l[i]);
        }
        i = i + 1;
        assert(r@ =~= without_pillars(l@.take(i as int)));
    }
    assert(l@.take(l.len() as int) =~= l@);
    r
}

/// The rows of a maze text, bottom first, as `rows_from_bottom` gives them.
pub(crate) fn text_rows(text: &str) -> (r: Vec<Vec<char>>)
    ensures
        line_views(r@) == rows_from_bottom(text@),
{
    let chars = chars_of(text);
    let lines = split_lines(&chars);
    let ghost ls = lines_of(text@);
    assert(line_views(lines@) == ls);
    let n = lines.len();
    let mut rows: Vec<Vec<char>> = Vec::new();
    let mut b: usize = 0;
    while b < n
        invariant
            n == lines@.len(),
            ls == line_views(lines@),
            b <= n,
            rows@.len() == b,
            forall|k: int| 0 <= k < b ==> (#[trigger] rows@[k])@ == without_pillars(ls[n - 1 - k]),
        decreases n - b,
    {
        rows.push(strip_pillars(&lines[n - 1 - b]));
        b = b + 1;
    }
    assert(line_views(rows@) =~= rows_from_bottom(text@));
    rows
}


pub open spec fn digit(d: nat) -> char {
    seq!['0', '1', '2', '3', '4', '5', '6', '7', '8', '9'][d as int]
}

/// The decimal digits of `n`, most significant first.
pub open spec fn decimal(n: nat) -> Seq<char>
    decreases n,
{
    if n < 10 {
        seq![digit(n)]
    } else {
        decimal(n / 10).push(digit(n % 10))
    }
}

/// `s` padded on the left with spaces to at least `w` characters.
pub open spec fn right_aligned(s: Seq<char>, w: nat) -> Seq<char> {
    if s.len() < w {
        spaces((w - s.len()) as nat) + s
    } else {
        s
    }
}

fn digit_char(d: usize) -> (r: char)
    requires
        d < 10,
    ensures
        r == digit(d as nat),
{
    let digits = ['0', '1', '2', '3', '4', '5', '6', '7', '8', '9'];
    assert(digits@ =~= seq!['0', '1', '2', '3', '4', '5', '6', '7', '8', '9']);
    digits[d]
}

pub(crate) fn push_decimal(out: &mut Vec<char>, n: usize)
    ensures
        final(out)@ == old(out)@ + decimal(n as nat),
    decreases n,
{
    if n >= 10 {
        push_decimal(out, n / 10);
    }
    out.push(digit_char(n % 10));
    proof {
        if n >= 10 {
            assert(final(out)@ =~= old(out)@ + decimal(n as nat));
        } else {
            assert(final(out)@ =~= old(out)@ + decimal(n as nat));
        }
    }
}

/// Appends `n` in decimal, padded on the left to at least `w` characters.
pub(crate) fn push_right_aligned(out: &mut Vec<char>, n: usize, w: usize)
    ensures
        final(out)@ == old(out)@ + right_aligned(decimal(n as nat), w as nat),
{
    let mut d: Vec<char> = Vec::new();
    push_decimal(&mut d, n);
    assert(d@ =~= decimal(n as nat));
    if d.len() < w {
        push_spaces(out, w - d.len());
    }
    push_all(out, &d);
    assert(final(out)@ =~= old(out)@ + right_aligned(decimal(n as nat), w as nat));
}

/// The lines joined with a newline between each two.
pub(crate) fn join_all(lines: &Vec<Vec<char>>) -> (r: Vec<char>)
    ensures
        r@ == join_lines(line_views(lines@)),
{
    let ghost ls = line_views(lines@);
    let mut out: Vec<char> = Vec::new();
    if lines.len() == 0 {
        return out;
    }
    push_all(&mut out, &lines[0]);
    assert(ls.take(1).drop_last() =~= Seq::<Seq<char>>::empty());
    assert(out@ == join_lines(ls.take(1)));
    let mut k: usize = 1;
    while k < lines.len()
        invariant
            1 <= k <= lines@.len(),
            ls == line_views(lines@),
            out@ == join_lines(ls.take(k as int)),
        decreases lines.len() - k,
    {
        out.push('\n');
        push_all(&mut out, &lines[k]);
        assert(ls.take(k + 1).drop_last() =~= ls.take(k as int));
        k = k + 1;
    }
    assert(ls.take(lines.len() as int) =~= ls);
    out
}

/// The glyphs of the maze file format.
pub open spec fn file_style() -> TextStyle {
    TextStyle {
        horizontal_absent: seq![' '],
        horizontal_present: seq!['-'],
        horizontal_unexplored: seq!['?'],
        vertical_absent: seq![' '],
        vertical_present: seq!['|'],
        vertical_unexplored: seq!['?'],
        pillar: seq!['+'],
        goal: seq!['G'],
    }
}


/// The file glyph of a horizontal edge.
pub open spec fn edge_char(w: Wall) -> char {
    match w {
        Wall::Absent => ' ',
        Wall::Present => '-',
        Wall::Unexplored => '?',
    }
}

/// The file glyph of a vertical edge.
pub open spec fn side_char(w: Wall) -> char {
    match w {
        Wall::Absent => ' ',
        Wall::Present => '|',
        Wall::Unexplored => '?',
    }
}

proof fn lemma_split_len(s: Seq<char>)
    ensures
        split_newlines(s).len() >= 1,
    decreases s.len(),
{
    if s.len() > 0 {
        lemma_split_len(s.drop_last());
    }
}

proof fn lemma_split_append(a: Seq<char>, b: Seq<char>)
    requires
        forall|i: int| 0 <= i < b.len() ==> b[i] != '\n',
    ensures
        split_newlines(a + b) == split_newlines(a).update(
            split_newlines(a).len() - 1,
            split_newlines(a).last() + b,
        ),
    decreases b.len(),
{
    lemma_split_len(a);
    let p = split_newlines(a);
    if b.len() == 0 {
        assert(a + b =~= a);
        assert(p.update(p.len() - 1, p.last() + b) =~= p);
    } else {
        let b2 = b.drop_last();
        lemma_split_append(a, b2);
        assert((a + b).drop_last() =~= a + b2);
        assert((p.last() + b2).push(b.last()) =~= p.last() + b);
        assert(split_newlines(a + b) =~= p.update(p.len() - 1, p.last() + b));
    }
}

proof fn lemma_split_join(ls: Seq<Seq<char>>)
    requires
        ls.len() >= 1,
        forall|k: int, i: int| 0 <= k < ls.len() && 0 <= i < ls[k].len() ==> #[trigger] ls[k][i] != '\n',
    ensures
        split_newlines(join_lines(ls)) == ls,
    decreases ls.len(),
{
    if ls.len() == 1 {
        lemma_split_append(Seq::empty(), ls[0]);
        assert(Seq::<char>::empty() + ls[0] =~= ls[0]);
        assert(split_newlines(Seq::empty()).update(0, Seq::<char>::empty() + ls[0]) =~= ls);
    } else {
        let init = ls.drop_last();
        lemma_split_join(init);
        let a = join_lines(init) + seq!['\n'];
        assert(a.drop_last() =~= join_lines(init));
        assert(split_newlines(a) == init.push(Seq::empty()));
        lemma_split_append(a, ls.last());
        assert(Seq::<char>::empty() + ls.last() =~= ls.last());
        assert(init.push(Seq::empty()).update(init.len() as int, Seq::<char>::empty() + ls.last()) =~= ls);
    }
}

proof fn lemma_without_pillars_append(a: Seq<char>, b: Seq<char>)
    ensures
        without_pillars(a + b) == without_pillars(a) + without_pillars(b),
    decreases b.len(),
{
    if b.len() == 0 {
        assert(a + b =~= a);
        assert(without_pillars(a) + without_pillars(b) =~= without_pillars(a));
    } else {
        lemma_without_pillars_append(a, b.drop_last());
        assert((a + b).drop_last() =~= a + b.drop_last());
        assert((a + b).last() == b.last());
        assert(without_pillars(a + b) =~= without_pillars(a) + without_pillars(b));
    }
}

proof fn lemma_without_pillars_single(c: char)
    ensures
        without_pillars(seq![c]) == if c == '+' {
            Seq::<char>::empty()
        } else {
            seq![c]
        },
{
    assert(seq![c].drop_last() =~= Seq::<char>::empty());
    assert(without_pillars(Seq::<char>::empty()) == Seq::<char>::empty());
    assert(without_pillars(seq![c]) =~= if c == '+' {
        Seq::<char>::empty()
    } else {
        seq![c]
    });
}

proof fn lemma_without_pillars_none(l: Seq<char>)
    requires
        forall|i: int| 0 <= i < l.len() ==> l[i] != '+',
    ensures
        without_pillars(l) == l,
    decreases l.len(),
{
    if l.len() > 0 {
        lemma_without_pillars_none(l.drop_last());
        assert(without_pillars(l) =~= l);
    }
}

proof fn lemma_edge_row_file(m: MazeModel, row: int, n: nat)
    ensures
        edge_row_text(m, file_style(), row, n) == Seq::new(
            2 * n,
            |i: int|
                if i % 2 == 0 {
                    '+'
                } else {
                    edge_char(m.horizontal[row][i / 2])
                },
        ),
        without_pillars(edge_row_text(m, file_style(), row, n)) == Seq::new(
            n,
            |x: int| edge_char(m.horizontal[row][x]),
        ),
    decreases n,
{
    if n > 0 {
        lemma_edge_row_file(m, row, (n - 1) as nat);
        let prev = edge_row_text(m, file_style(), row, (n - 1) as nat);
        let g = glyph(m.horizontal[row][n - 1], seq![' '], seq!['-'], seq!['?']);
        assert(g =~= seq![edge_char(m.horizontal[row][n - 1])]);
        assert(edge_row_text(m, file_style(), row, n) =~= Seq::new(
            2 * n,
            |i: int|
                if i % 2 == 0 {
                    '+'
                } else {
                    edge_char(m.horizontal[row][i / 2])
                },
        ));
        lemma_without_pillars_append(prev, seq!['+']);
        lemma_without_pillars_append(prev + seq!['+'], g);
        lemma_without_pillars_single('+');
        lemma_without_pillars_single(edge_char(m.horizontal[row][n - 1]));
        assert(prev + seq!['+'] + g == edge_row_text(m, file_style(), row, n));
        assert(without_pillars(edge_row_text(m, file_style(), row, n)) =~= Seq::new(
            n,
            |x: int| edge_char(m.horizontal[row][x]),
        ));
    }
}

proof fn lemma_cell_row_file(m: MazeModel, row: int, n: nat)
    ensures
        cell_row_text(m, file_style(), row, n) == Seq::new(
            2 * n,
            |i: int|
                if i % 2 == 0 {
                    side_char(m.vertical[row][i / 2])
                } else if i / 2 == m.goal.x && row == m.goal.y {
                    'G'
                } else {
                    ' '
                },
        ),
    decreases n,
{
    if n > 0 {
        lemma_cell_row_file(m, row, (n - 1) as nat);
        let g = glyph(m.vertical[row][n - 1], seq![' '], seq!['|'], seq!['?']);
        assert(g =~= seq![side_char(m.vertical[row][n - 1])]);
        let gm = goal_mark(m, file_style(), row, n - 1);
        assert(spaces(1) =~= seq![' ']);
        assert(gm =~= seq![if n - 1 == m.goal.x && row == m.goal.y { 'G' } else { ' ' }]);
        assert(cell_row_text(m, file_style(), row, n) =~= Seq::new(
            2 * n,
            |i: int|
                if i % 2 == 0 {
                    side_char(m.vertical[row][i / 2])
                } else if i / 2 == m.goal.x && row == m.goal.y {
                    'G'
                } else {
                    ' '
                },
        ));
    }
}

proof fn lemma_goal_in_row(row: Seq<char>, y: int, n: nat, g: Position, goal: Position)
    requires
        row.len() >= 2 * n,
        forall|x: int| 0 <= x < n ==> (#[trigger] row[2 * x + 1] == 'G' <==> (x == goal.x && y == goal.y)),
        0 <= y,
        y <= usize::MAX,
    ensures
        goal_in_row(row, y, n, g) == if y == goal.y && goal.x < n {
            goal
        } else {
            g
        },
    decreases n,
{
    if n > 0 {
        assert(row[2 * (n - 1) + 1] == 'G' <==> (n - 1 == goal.x && y == goal.y));
        lemma_goal_in_row(row, y, (n - 1) as nat, g, goal);
    }
}

/// Writing a maze in the file format and reading the text back into a maze of the
/// same size gives back the same edges and the same goal, provided the goal is a
/// cell of the maze.
pub proof fn lemma_text_round_trip(m: MazeModel, t: MazeModel)
    requires
        m.wf(),
        t.wf(),
        t.width == m.width,
        t.height == m.height,
        m.in_grid(m.goal.y as int, m.goal.x as int),
    ensures
        text_fits(rows_from_bottom(maze_text(m, file_style())), m.width, m.height),
        read_model(t, rows_from_bottom(maze_text(m, file_style()))) == m,
{
    let st = file_style();
    let h = m.height as int;
    let w = m.width;
    let ls = text_lines(m, st);
    assert forall|b: int| 0 <= b <= 2 * h implies #[trigger] line_from_bottom(m, st, b) == if b % 2 == 0 {
        Seq::new(2 * w, |i: int| if i % 2 == 0 { '+' } else { edge_char(m.horizontal[b / 2][i / 2]) }) + seq!['+']
    } else {
        Seq::new(
            2 * (w + 1),
            |i: int|
                if i % 2 == 0 {
                    side_char(m.vertical[b / 2][i / 2])
                } else if i / 2 == m.goal.x && b / 2 == m.goal.y {
                    'G'
                } else {
                    ' '
                },
        )
    } by {
        lemma_edge_row_file(m, b / 2, w);
        lemma_cell_row_file(m, b / 2, w + 1);
    }
    assert forall|k: int, i: int| 0 <= k < ls.len() && 0 <= i < ls[k].len() implies #[trigger] ls[k][i] != '\n' && ls[k][i] != '\r' && (ls[k].last() != '\r') by {
        assert(ls[k] == line_from_bottom(m, st, 2 * h - k));
    }
    lemma_split_join(ls);
    assert(ls.last() == line_from_bottom(m, st, 0));
    assert(ls.last().len() > 0);
    assert forall|k: int| 0 <= k < ls.len() implies strip_cr(#[trigger] ls[k]) == ls[k] by {
        assert(ls[k] == line_from_bottom(m, st, 2 * h - k));
        assert(ls[k].len() > 0);
        assert(ls[k][ls[k].len() - 1] != '\r');
    }
    assert(lines_of(maze_text(m, st)) =~= ls);
    let rows = rows_from_bottom(maze_text(m, st));
    assert(rows.len() == 2 * h + 1);
    assert forall|y: int| 0 <= y <= h implies #[trigger] rows[2 * y] == Seq::new(w, |x: int| edge_char(m.horizontal[y][x])) by {
        assert(ls[ls.len() - 1 - 2 * y] == line_from_bottom(m, st, 2 * y));
        lemma_edge_row_file(m, y, w);
        let e = edge_row_text(m, st, y, w);
        lemma_without_pillars_append(e, seq!['+']);
        lemma_without_pillars_single('+');
        if y == h {
            assert(line_from_bottom(m, st, 2 * y) == e + seq!['+']);
        } else {
            assert(line_from_bottom(m, st, 2 * y) == e + seq!['+']);
        }
        assert(without_pillars(e) + Seq::<char>::empty() =~= without_pillars(e));
    }
    assert forall|y: int| 0 <= y < h implies #[trigger] rows[2 * y + 1] == cell_row_text(m, st, y, w + 1) by {
        assert(ls[ls.len() - 1 - (2 * y + 1)] == line_from_bottom(m, st, 2 * y + 1));
        lemma_cell_row_file(m, y, w + 1);
        lemma_without_pillars_none(cell_row_text(m, st, y, w + 1));
    }
    assert forall|y: int| 0 <= y < h implies #[trigger] rows_fit(rows, y, w) by {
        assert(rows[2 * y] == Seq::new(w, |x: int| edge_char(m.horizontal[y][x])));
        assert(rows[2 * y + 1] == cell_row_text(m, st, y, w + 1));
        lemma_cell_row_file(m, y, w + 1);
    }
    let r = read_model(t, rows);
    assert forall|y: int| 0 <= y <= h implies #[trigger] r.horizontal[y] == m.horizontal[y] by {
        assert(rows[2 * y] == Seq::new(w, |x: int| edge_char(m.horizontal[y][x])));
        assert forall|x: int| 0 <= x < w implies r.horizontal[y][x] == m.horizontal[y][x] by {
            if y == 0 {
                assert(m.horizontal[0][x] == Wall::Present);
            } else if y == h {
                assert(m.horizontal[h][x] == Wall::Present);
            }
        }
        assert(r.horizontal[y] =~= m.horizontal[y]);
    }
    assert(r.horizontal =~= m.horizontal);
    assert forall|y: int| 0 <= y < h implies #[trigger] r.vertical[y] == m.vertical[y] by {
        assert(rows[2 * y + 1] == cell_row_text(m, st, y, w + 1));
        lemma_cell_row_file(m, y, w + 1);
        assert forall|x: int| 0 <= x <= w implies r.vertical[y][x] == m.vertical[y][x] by {
            if x == 0 {
                assert(m.vertical[y][0] == Wall::Present);
            } else if x == w {
                assert(m.vertical[y][w as int] == Wall::Present);
            }
        }
        assert(r.vertical[y] =~= m.vertical[y]);
    }
    assert(r.vertical =~= m.vertical);
    lemma_goal_in_rows(rows, m, t.goal, m.height);
}

proof fn lemma_goal_in_rows(rows: Seq<Seq<char>>, m: MazeModel, g: Position, n: nat)
    requires
        m.wf(),
        m.in_grid(m.goal.y as int, m.goal.x as int),
        n <= m.height,
        rows.len() == 2 * m.height + 1,
        forall|y: int| 0 <= y < m.height ==> #[trigger] rows[2 * y + 1] == cell_row_text(m, file_style(), y, m.width + 1),
    ensures
        goal_in_rows(rows, m.width, n, g) == if m.goal.y < n {
            m.goal
        } else {
            g
        },
    decreases n,
{
    if n > 0 {
        lemma_goal_in_rows(rows, m, g, (n - 1) as nat);
        let y = n - 1;
        let row = rows[2 * y + 1];
        lemma_cell_row_file(m, y, m.width + 1);
        assert forall|x: int| 0 <= x < m.width implies (#[trigger] row[2 * x + 1] == 'G' <==> (x == m.goal.x && y == m.goal.y)) by {
            assert((2 * x + 1) / 2 == x);
            assert((2 * x + 1) % 2 == 1);
        }
        lemma_goal_in_row(row, y, m.width, goal_in_rows(rows, m.width, (n - 1) as nat, g), m.goal);
    }
}

} // verus!

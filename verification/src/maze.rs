use vstd::prelude::*;

verus! {

/// A level: rows of cells. `' '` is floor, `'g'`/`'G'` the goal, and any
/// other character a wall of that material (`'1'` to `'4'`).
pub type Maze = Vec<Vec<char>>;

/// The cells of a maze, row by row.
pub open spec fn grid(maze: &Maze) -> Seq<Seq<char>> {
    maze@.map_values(|row: Vec<char>| row@)
}

/// The pieces of `t` between its `'\n'` characters, in order: one more
/// piece than there are newlines.
pub open spec fn segments(t: Seq<char>) -> Seq<Seq<char>>
    decreases t.len(),
{
    if t.len() == 0 {
        seq![Seq::<char>::empty()]
    } else {
        let prev = segments(t.drop_last());
        if t.last() == '\n' {
            prev.push(Seq::<char>::empty())
        } else {
            prev.update(prev.len() - 1, prev.last().push(t.last()))
        }
    }
}

/// `line` without one trailing carriage return.
pub open spec fn strip_cr(line: Seq<char>) -> Seq<char> {
    if line.len() > 0 && line.last() == '\r' {
        line.drop_last()
    } else {
        line
    }
}

/// The lines of a text file: the text split at each `'\n'`, a `'\r'` just
/// before a `'\n'` dropped, and no line after a final `'\n'` (nor any line
/// at all in an empty text).
pub open spec fn text_lines(t: Seq<char>) -> Seq<Seq<char>> {
    let segs = segments(t);
    let body = Seq::new((segs.len() - 1) as nat, |i: int| strip_cr(segs[i]));
    if segs.last().len() == 0 {
        body
    } else {
        body.push(segs.last())
    }
}

/// `line` with the player marker `'p'` turned into floor.
pub open spec fn clear_marker(line: Seq<char>) -> Seq<char> {
    line.map_values(|ch: char| if ch == 'p' { ' ' } else { ch })
}

/// Whether `(row, col)` holds the player marker `'p'` in `lines`.
pub open spec fn marker_at(lines: Seq<Seq<char>>, row: int, col: int) -> bool {
    0 <= row < lines.len() && 0 <= col < lines[row].len() && lines[row][col] == 'p'
}

/// `(r2, c2)` comes after `(r1, c1)` in reading order.
pub open spec fn after(r1: int, c1: int, r2: int, c2: int) -> bool {
    r2 > r1 || (r2 == r1 && c2 > c1)
}

/// The player's starting cell in `lines`: the last `'p'` in reading order,
/// or `(0, 0)` when there is none.
pub open spec fn start_cell(lines: Seq<Seq<char>>, cell: (int, int)) -> bool {
    if exists|r: int, c: int| marker_at(lines, r, c) {
        &&& marker_at(lines, cell.0, cell.1)
        &&& forall|r: int, c: int| after(cell.0, cell.1, r, c) ==> !marker_at(lines, r, c)
    } else {
        cell == (0int, 0int)
    }
}

proof fn lemma_segments_nonempty(t: Seq<char>)
    ensures
        segments(t).len() >= 1,
    decreases t.len(),
{
    if t.len() > 0 {
        lemma_segments_nonempty(t.drop_last());
    }
}

/// Appending `ch` to a text extends its last piece, or starts a new piece
/// at a newline.
proof fn lemma_segments_push(t: Seq<char>, ch: char)
    ensures
        segments(t.push(ch)) == if ch == '\n' {
            segments(t).push(Seq::<char>::empty())
        } else {
            segments(t).update(segments(t).len() - 1, segments(t).last().push(ch))
        },
{
    assert(t.push(ch).drop_last() =~= t);
}

/// Reads a level from the text of a level file: each line a row, each
/// character a cell. The player marker `'p'` becomes floor, and the
/// returned cell is where the player starts (see `start_cell`).
pub fn parse_maze(text: &str) -> (res: (Maze, (usize, usize)))
    ensures
        grid(&res.0) == text_lines(text@).map_values(|line: Seq<char>| clear_marker(line)),
        start_cell(text_lines(text@), (res.1.0 as int, res.1.1 as int)),
{
    broadcast use vstd::string::group_string_axioms;
    let mut maze: Maze = Vec::new();
    let mut cells: Vec<char> = Vec::new();
    let mut player: Option<(usize, usize)> = None;
    let ghost mut k: int = 0;
    proof {
        assert(text@.subrange(0, 0) =~= Seq::<char>::empty());
        assert(grid(&maze) =~= Seq::<Seq<char>>::empty());
        assert(cells@ =~= clear_marker(Seq::<char>::empty()));
    }
    for ch in it: text.chars()
        invariant
            it.seq() == text@,
            k == it.index(),
            0 <= k <= text@.len(),
            ({
                let segs = segments(text@.subrange(0, k));
                &&& segs.len() >= 1
                &&& grid(&maze) == Seq::new(
                    (segs.len() - 1) as nat,
                    |i: int| clear_marker(strip_cr(segs[i])),
                )
                &&& cells@ == clear_marker(segs.last())
                &&& match player {
                    None => forall|r: int, c: int| !marker_at(segs, r, c),
                    Some(cell) => {
                        &&& marker_at(segs, cell.0 as int, cell.1 as int)
                        &&& forall|r: int, c: int|
                            after(cell.0 as int, cell.1 as int, r, c) ==> !marker_at(segs, r, c)
                    },
                }
            }),
    {
        let ghost pre = text@.subrange(0, k);
        let ghost segs = segments(pre);
        proof {
            assert(ch == text@[k]);
            assert(text@.subrange(0, k + 1) =~= pre.push(ch));
            lemma_segments_push(pre, ch);
            lemma_segments_nonempty(pre);
        }
        if ch == '\n' {
            let ghost last = segs.last();
            let n = cells.len();
            if n > 0 && cells[n - 1] == '\r' {
                cells.pop();
                proof {
                    assert(last.len() > 0 && last.last() == '\r');
                    assert(cells@ =~= clear_marker(strip_cr(last)));
                }
            } else {
                proof {
                    if last.len() > 0 {
                        assert(last.last() != '\r');
                    }
                    assert(cells@ =~= clear_marker(strip_cr(last)));
                }
            }
            let ghost before = grid(&maze);
            let ghost row = cells@;
            maze.push(cells);
            cells = Vec::new();
            proof {
                assert(grid(&maze) =~= before.push(row));
                let segs2 = segments(text@.subrange(0, k + 1));
                assert(segs2 =~= segs.push(Seq::<char>::empty()));
                assert(grid(&maze) =~= Seq::new(
                    (segs2.len() - 1) as nat,
                    |i: int| clear_marker(strip_cr(segs2[i])),
                ));
                assert(cells@ =~= clear_marker(segs2.last()));
                assert forall|r: int, c: int| marker_at(segs2, r, c) <==> marker_at(segs, r, c) by {
                    if r == segs.len() {
                        assert(segs2[r].len() == 0);
                    } else if 0 <= r < segs.len() {
                        assert(segs2[r] == segs[r]);
                    }
                }
            }
        } else {
            let ghost last = segs.last();
            if ch == 'p' {
                player = Some((maze.len(), cells.len()));
                cells.push(' ');
            } else {
                cells.push(ch);
            }
            proof {
                let segs2 = segments(text@.subrange(0, k + 1));
                let r0 = segs.len() - 1;
                assert(segs2 =~= segs.update(r0, last.push(ch)));
                assert(cells@ =~= clear_marker(last.push(ch)));
                assert(grid(&maze) =~= Seq::new(
                    (segs2.len() - 1) as nat,
                    |i: int| clear_marker(strip_cr(segs2[i])),
                ));
                assert(grid(&maze).len() == r0);
                assert forall|r: int, c: int|
                    marker_at(segs2, r, c) <==> (marker_at(segs, r, c) || (r == r0 && c == last.len() && ch == 'p')) by {
                    if r == r0 && 0 <= c < last.len() {
                        assert(segs2[r][c] == last[c]);
                    }
                }
            }
        }
        proof {
            k = k + 1;
        }
    }
    let ghost segs = segments(text@);
    let ghost lines = text_lines(text@);
    proof {
        assert(text@.subrange(0, text@.len() as int) =~= text@);
        lemma_segments_nonempty(text@);
    }
    let ghost before = grid(&maze);
    let ghost row = cells@;
    if cells.len() > 0 {
        maze.push(cells);
        proof {
            assert(grid(&maze) =~= before.push(row));
        }
    }
    proof {
        assert(grid(&maze) =~= lines.map_values(|line: Seq<char>| clear_marker(line)));
        assert forall|r: int, c: int| marker_at(lines, r, c) <==> marker_at(segs, r, c) by {
            if 0 <= r < segs.len() - 1 {
                assert(lines[r] == strip_cr(segs[r]));
                if 0 <= c < segs[r].len() && !(0 <= c < lines[r].len()) {
                    assert(segs[r][c] == '\r');
                }
                if 0 <= c < lines[r].len() {
                    assert(lines[r][c] == segs[r][c]);
                }
            } else if r == segs.len() - 1 && segs.last().len() > 0 {
                assert(lines[r] == segs[r]);
            }
        }
    }
    match player {
        Some(cell) => (maze, cell),
        None => (maze, (0, 0)),
    }
}

/// The cell at `(row, col)`, or `None` off the maze (rows may differ in
/// length).
pub open spec fn cell_of(g: Seq<Seq<char>>, row: int, col: int) -> Option<char> {
    if 0 <= row < g.len() && 0 <= col < g[row].len() {
        Some(g[row][col])
    } else {
        None
    }
}

/// The cell at `(row, col)`, or `None` off the maze.
pub fn cell(maze: &Maze, row: usize, col: usize) -> (r: Option<char>)
    ensures
        r == cell_of(grid(maze), row as int, col as int),
{
    if row < maze.len() && col < maze[row].len() {
        Some(maze[row][col])
    } else {
        None
    }
}

/// The length of the longest row (0 for no rows).
pub open spec fn longest_row(g: Seq<Seq<char>>) -> nat
    decreases g.len(),
{
    if g.len() == 0 {
        0
    } else {
        let m = longest_row(g.drop_last());
        if g.last().len() > m {
            g.last().len()
        } else {
            m
        }
    }
}

/// Every row is at most as long as the longest one.
pub proof fn lemma_longest_row(g: Seq<Seq<char>>, r: int)
    requires
        0 <= r < g.len(),
    ensures
        g[r].len() <= longest_row(g),
    decreases g.len(),
{
    if r < g.len() - 1 {
        lemma_longest_row(g.drop_last(), r);
    }
}

/// The number of rows of the maze and the length of its longest row.
pub fn maze_size(maze: &Maze) -> (size: (usize, usize))
    ensures
        size.0 == grid(maze).len(),
        size.1 == longest_row(grid(maze)),
{
    let ghost g = grid(maze);
    let mut cols: usize = 0;
    let mut i: usize = 0;
    proof {
        assert(g.take(0) =~= Seq::<Seq<char>>::empty());
    }
    while i < maze.len()
        invariant
            g == grid(maze),
            i <= maze@.len(),
            cols == longest_row(g.take(i as int)),
        decreases maze@.len() - i,
    {
        let n = maze[i].len();
        proof {
            assert(g.take(i + 1).drop_last() =~= g.take(i as int));
        }
        if n > cols {
            cols = n;
        }
        i = i + 1;
    }
    proof {
        assert(g.take(i as int) =~= g);
    }
    (maze.len(), cols)
}

/// Where a player starting in cell `(row, col)` stands, in world units
/// with cells `block_size` units square: the middle of the cell, as
/// `(x, y)`.
pub fn start_position(cell: (usize, usize), block_size: usize) -> (pos: (usize, usize))
    requires
        cell.1 * block_size + block_size / 2 <= usize::MAX,
        cell.0 * block_size + block_size / 2 <= usize::MAX,
    ensures
        pos == ((cell.1 * block_size + block_size / 2) as usize, (cell.0 * block_size + block_size / 2) as usize),
{
    proof {
        assert(cell.1 * block_size <= cell.1 * block_size + block_size / 2);
        assert(cell.0 * block_size <= cell.0 * block_size + block_size / 2);
    }
    (cell.1 * block_size + block_size / 2, cell.0 * block_size + block_size / 2)
}

/// The four directions the player can start facing.
#[derive(Clone, Copy, Debug, PartialEq, Eq, Structural)]
pub enum Direction {
    East,
    South,
    West,
    North,
}

/// The cell next to `(row, col)` toward `d` (rows grow southward, columns
/// eastward).
pub open spec fn neighbour(row: int, col: int, d: Direction) -> (int, int) {
    match d {
        Direction::East => (row, col + 1),
        Direction::South => (row + 1, col),
        Direction::West => (row, col - 1),
        Direction::North => (row - 1, col),
    }
}

/// The cell next to `(row, col)` toward `d` is plain floor `' '`.
pub open spec fn open_toward(g: Seq<Seq<char>>, row: int, col: int, d: Direction) -> bool {
    cell_of(g, neighbour(row, col, d).0, neighbour(row, col, d).1) == Some(' ')
}

/// Directions in the order they are tried.
pub open spec fn direction_rank(d: Direction) -> int {
    match d {
        Direction::East => 0,
        Direction::South => 1,
        Direction::West => 2,
        Direction::North => 3,
    }
}

/// The start direction is tried east, then south, then west, then north:
/// the east neighbour being floor gives east; otherwise a floor cell to
/// the south gives south; west only when east and south are not floor;
/// north only when east, south and west are not floor; nothing when none
/// of the four is floor.
pub open spec fn facing_order(g: Seq<Seq<char>>, row: int, col: int, r: Option<Direction>) -> bool {
    let east = cell_of(g, row, col + 1) == Some(' ');
    let south = cell_of(g, row + 1, col) == Some(' ');
    let west = cell_of(g, row, col - 1) == Some(' ');
    let north = cell_of(g, row - 1, col) == Some(' ');
    &&& east ==> r == Some(Direction::East)
    &&& !east && south ==> r == Some(Direction::South)
    &&& !east && !south && west ==> r == Some(Direction::West)
    &&& !east && !south && !west && north ==> r == Some(Direction::North)
    &&& !east && !south && !west && !north ==> r is None
}

/// A direction chosen by rank (the first open direction in rank order) is
/// the one the east-south-west-north order gives.
pub proof fn lemma_facing_order(g: Seq<Seq<char>>, row: int, col: int, r: Option<Direction>)
    requires
        match r {
            Some(d) => {
                &&& open_toward(g, row, col, d)
                &&& forall|e: Direction| direction_rank(e) < direction_rank(d) ==> !open_toward(g, row, col, e)
            },
            None => forall|e: Direction| !open_toward(g, row, col, e),
        },
    ensures
        facing_order(g, row, col, r),
{
    assert(open_toward(g, row, col, Direction::East) == (cell_of(g, row, col + 1) == Some(' ')));
    assert(open_toward(g, row, col, Direction::South) == (cell_of(g, row + 1, col) == Some(' ')));
    assert(open_toward(g, row, col, Direction::West) == (cell_of(g, row, col - 1) == Some(' ')));
    assert(open_toward(g, row, col, Direction::North) == (cell_of(g, row - 1, col) == Some(' ')));
    match r {
        Some(d) => {
            match d {
                Direction::East => {},
                Direction::South => {},
                Direction::West => {},
                Direction::North => {},
            }
        },
        None => {},
    }
}

/// The direction a player starting at `(row, col)` faces: the first of
/// east, south, west, north whose neighbouring cell is floor, so that a
/// level of any shape starts looking down an open corridor; `None` when no
/// neighbour is floor.
pub fn open_direction(maze: &Maze, row: usize, col: usize) -> (r: Option<Direction>)
    requires
        row < i32::MAX,
        col < i32::MAX,
    ensures
        match r {
            Some(d) => {
                &&& open_toward(grid(maze), row as int, col as int, d)
                &&& forall|e: Direction|
                    direction_rank(e) < direction_rank(d) ==> !open_toward(grid(maze), row as int, col as int, e)
            },
            None => forall|e: Direction| !open_toward(grid(maze), row as int, col as int, e),
        },
        facing_order(grid(maze), row as int, col as int, r),
{
    let g = Ghost(grid(maze));
    if cell(maze, row, col + 1) == Some(' ') {
        return Some(Direction::East);
    }
    if cell(maze, row + 1, col) == Some(' ') {
        return Some(Direction::South);
    }
    if col > 0 && cell(maze, row, col - 1) == Some(' ') {
        return Some(Direction::West);
    }
    if row > 0 && cell(maze, row - 1, col) == Some(' ') {
        return Some(Direction::North);
    }
    assert(cell_of(g@, row as int, col - 1) != Some(' '));
    assert(cell_of(g@, row - 1, col as int) != Some(' '));
    proof {
        assert forall|e: Direction| !open_toward(g@, row as int, col as int, e) by {
            match e {
                Direction::East => {},
                Direction::South => {},
                Direction::West => {},
                Direction::North => {},
            }
        }
    }
    None
}

/// Whether a cell stops movement: only floor and the goal can be walked
/// on, and everything off the maze counts as wall.
pub open spec fn blocks(c: Option<char>) -> bool {
    !(c == Some(' ') || c == Some('g') || c == Some('G'))
}

/// Whether the cell at `(row, col)` stops movement (see `blocks`).
pub fn is_wall_cell(maze: &Maze, row: usize, col: usize) -> (r: bool)
    ensures
        r == blocks(cell_of(grid(maze), row as int, col as int)),
{
    match cell(maze, row, col) {
        Some(' ') | Some('g') | Some('G') => false,
        Some(_) => true,
        None => true,
    }
}

/// Whether a player at world position `(x, y)` (truncated to whole units)
/// stands on the goal cell `'g'`, cells being `block_size` units square.
pub fn goal_reached(maze: &Maze, x: usize, y: usize, block_size: usize) -> (r: bool)
    requires
        block_size > 0,
    ensures
        r == (cell_of(grid(maze), (y / block_size) as int, (x / block_size) as int) == Some('g')),
{
    let i = x / block_size;
    let j = y / block_size;
    match cell(maze, j, i) {
        Some(c) => c == 'g',
        None => false,
    }
}

/// How the ray caster sees a cell it steps into.
#[derive(Clone, Copy, Debug, PartialEq, Eq, Structural)]
pub enum RayCell {
    /// Off the maze: the ray has left the level.
    Outside,
    /// Plain floor: the ray goes on.
    Open,
    /// Anything else stops the ray; the character is the wall's material.
    Wall(char),
}

/// How the ray caster sees the cell at column `map_x`, row `map_y`.
pub open spec fn ray_cell_of(g: Seq<Seq<char>>, map_x: int, map_y: int) -> RayCell {
    match cell_of(g, map_y, map_x) {
        None => RayCell::Outside,
        Some(c) => if c == ' ' {
            RayCell::Open
        } else {
            RayCell::Wall(c)
        },
    }
}

/// How the ray caster sees the cell at column `map_x`, row `map_y`
/// (negative coordinates are off the maze).
pub fn ray_cell(maze: &Maze, map_x: i32, map_y: i32) -> (r: RayCell)
    ensures
        r == ray_cell_of(grid(maze), map_x as int, map_y as int),
{
    if map_x < 0 || map_y < 0 {
        return RayCell::Outside;
    }
    match cell(maze, map_y as usize, map_x as usize) {
        None => RayCell::Outside,
        Some(' ') => RayCell::Open,
        Some(c) => RayCell::Wall(c),
    }
}

/// How many cells a ray may step through before it is given up:
/// `2 * (rows + longest row) + 16`, more than any ray inside the maze needs.
pub fn ray_step_limit(maze: &Maze) -> (limit: usize)
    requires
        (grid(maze).len() + longest_row(grid(maze))) * 2 + 16 <= usize::MAX,
    ensures
        limit == (grid(maze).len() + longest_row(grid(maze))) * 2 + 16,
{
    let (rows, cols) = maze_size(maze);
    (rows + cols) * 2 + 16
}

/// Walls stop the player, the goal does not, and everything off the maze
/// counts as wall, so a position outside the level can never be reached
/// and never indexes outside the grid.
pub proof fn lemma_walls_block(g: Seq<Seq<char>>, row: int, col: int)
    ensures
        !(0 <= row < g.len() && 0 <= col < g[row].len()) ==> blocks(cell_of(g, row, col)),
        cell_of(g, row, col) == Some('g') ==> !blocks(cell_of(g, row, col)),
        cell_of(g, row, col) == Some(' ') ==> !blocks(cell_of(g, row, col)),
        (0 <= row < g.len() && 0 <= col < g[row].len() && g[row][col] != ' ' && g[row][col] != 'g'
            && g[row][col] != 'G') ==> blocks(cell_of(g, row, col)),
{
}

/// After loading, the player starts on floor: the marker's cell reads
/// `' '` in the maze, and every other character of the file is kept.
pub proof fn lemma_start_on_floor(lines: Seq<Seq<char>>, cell: (int, int))
    requires
        start_cell(lines, cell),
        exists|r: int, c: int| marker_at(lines, r, c),
    ensures
        ({
            let g = lines.map_values(|line: Seq<char>| clear_marker(line));
            &&& cell_of(g, cell.0, cell.1) == Some(' ')
            &&& forall|r: int, c: int|
                0 <= r < lines.len() && 0 <= c < lines[r].len() && lines[r][c] != 'p' ==> cell_of(g, r, c)
                    == Some(lines[r][c])
        }),
{
}

} // verus!

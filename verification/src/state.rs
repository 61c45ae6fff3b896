use vstd::prelude::*;
use crate::maze::{Maze, grid};
use crate::render::hud::decimal;

verus! {

/// A grid cell, as `(row, column)`.
pub type Cell = (usize, usize);

/// The selectable levels: the name shown on the menu and the level file.
pub struct LevelInfo {
    pub name: &'static str,
    pub path: &'static str,
}

/// How many levels the menu offers.
pub const LEVEL_COUNT: usize = 3;

/// Torches placed in each level.
pub const TORCH_COUNT: usize = 4;

/// The name of level `index` on the menu.
pub open spec fn level_name(index: int) -> Seq<char> {
    if index == 0 {
        "NIVEL 1"@
    } else if index == 1 {
        "NIVEL 2"@
    } else {
        "NIVEL 3"@
    }
}

/// The file level `index` is read from.
pub open spec fn level_path(index: int) -> Seq<char> {
    if index == 0 {
        "assets/levels/level1.txt"@
    } else if index == 1 {
        "assets/levels/level2.txt"@
    } else {
        "assets/levels/level3.txt"@
    }
}

/// Menu entry `i` is level `i + 1`: it is named `NIVEL <i + 1>` and is read
/// from `assets/levels/level<i + 1>.txt`, so each entry plays its own file.
pub proof fn lemma_level_files(i: int, j: int)
    requires
        0 <= i < LEVEL_COUNT,
        0 <= j < LEVEL_COUNT,
    ensures
        level_name(i) == "NIVEL "@ + decimal((i + 1) as nat),
        level_path(i) == "assets/levels/level"@ + decimal((i + 1) as nat) + ".txt"@,
        i != j ==> level_path(i) != level_path(j),
{
    reveal_strlit("NIVEL ");
    reveal_strlit("NIVEL 1");
    reveal_strlit("NIVEL 2");
    reveal_strlit("NIVEL 3");
    reveal_strlit("assets/levels/level");
    reveal_strlit(".txt");
    reveal_strlit("assets/levels/level1.txt");
    reveal_strlit("assets/levels/level2.txt");
    reveal_strlit("assets/levels/level3.txt");
    assert(decimal(1) == seq!['1']);
    assert(decimal(2) == seq!['2']);
    assert(decimal(3) == seq!['3']);
    assert(level_name(i) =~= "NIVEL "@ + decimal((i + 1) as nat));
    assert(level_path(i) =~= "assets/levels/level"@ + decimal((i + 1) as nat) + ".txt"@);
    assert(level_path(j) =~= "assets/levels/level"@ + decimal((j + 1) as nat) + ".txt"@);
    if i != j {
        assert(level_path(i)[19] != level_path(j)[19]);
    }
}

/// Level `index` of the menu, or `None` past the last one.
pub fn level(index: usize) -> (r: Option<LevelInfo>)
    ensures
        match r {
            Some(info) => index < LEVEL_COUNT && info.name@ == level_name(index as int) && info.path@
                == level_path(index as int),
            None => index >= LEVEL_COUNT,
        },
{
    if index == 0 {
        Some(LevelInfo { name: "NIVEL 1", path: "assets/levels/level1.txt" })
    } else if index == 1 {
        Some(LevelInfo { name: "NIVEL 2", path: "assets/levels/level2.txt" })
    } else if index == 2 {
        Some(LevelInfo { name: "NIVEL 3", path: "assets/levels/level3.txt" })
    } else {
        None
    }
}

/// `|a.0 - b.0| + |a.1 - b.1|`.
pub open spec fn dist(a: Cell, b: Cell) -> int {
    let dr = if a.0 >= b.0 { a.0 - b.0 } else { b.0 - a.0 };
    let dc = if a.1 >= b.1 { a.1 - b.1 } else { b.1 - a.1 };
    dr + dc
}

/// The Manhattan distance between two cells.
pub fn manhattan(a: Cell, b: Cell) -> (d: i32)
    requires
        a.0 <= i32::MAX,
        a.1 <= i32::MAX,
        b.0 <= i32::MAX,
        b.1 <= i32::MAX,
        dist(a, b) <= i32::MAX,
    ensures
        d == dist(a, b),
{
    let dr: usize = if a.0 >= b.0 { a.0 - b.0 } else { b.0 - a.0 };
    let dc: usize = if a.1 >= b.1 { a.1 - b.1 } else { b.1 - a.1 };
    (dr + dc) as i32
}

/// Whether `c` marks the goal.
pub open spec fn is_goal(c: char) -> bool {
    c == 'g' || c == 'G'
}

/// `r` is the first goal cell of `g` in reading order, or `None` when `g`
/// has no goal.
pub open spec fn first_goal(g: Seq<Seq<char>>, r: Option<Cell>) -> bool {
    match r {
        Some(cell) => {
            &&& cell.0 < g.len()
            &&& cell.1 < g[cell.0 as int].len()
            &&& is_goal(g[cell.0 as int][cell.1 as int])
            &&& forall|row: int, col: int|
                0 <= row < g.len() && 0 <= col < g[row].len() && (row < cell.0 || (row == cell.0 && col
                    < cell.1)) ==> !is_goal(g[row][col])
        },
        None => forall|row: int, col: int|
            0 <= row < g.len() && 0 <= col < g[row].len() ==> !is_goal(g[row][col]),
    }
}

/// The first goal cell (`'g'` or `'G'`) in reading order, if any.
pub fn find_goal_cell(maze: &Maze) -> (r: Option<Cell>)
    ensures
        first_goal(grid(maze), r),
{
    let mut row: usize = 0;
    while row < maze.len()
        invariant
            row <= maze@.len(),
            forall|r: int, c: int|
                0 <= r < row && 0 <= c < grid(maze)[r].len() ==> !is_goal(grid(maze)[r][c]),
        decreases maze@.len() - row,
    {
        let line = &maze[row];
        let mut col: usize = 0;
        while col < line.len()
            invariant
                row < maze@.len(),
                line@ == grid(maze)[row as int],
                col <= line@.len(),
                forall|r: int, c: int|
                    0 <= r < row && 0 <= c < grid(maze)[r].len() ==> !is_goal(grid(maze)[r][c]),
                forall|c: int| 0 <= c < col ==> !is_goal(grid(maze)[row as int][c]),
            decreases line@.len() - col,
        {
            let cell = line[col];
            if cell == 'g' || cell == 'G' {
                return Some((row, col));
            }
            col = col + 1;
        }
        row = row + 1;
    }
    None
}

/// The floor cells (`' '`) among the first `n` columns of row `r`, other
/// than `start`, left to right.
pub open spec fn row_open_cells(g: Seq<Seq<char>>, start: Cell, r: int, n: int) -> Seq<Cell>
    decreases n,
{
    if n <= 0 {
        Seq::empty()
    } else {
        let prev = row_open_cells(g, start, r, n - 1);
        let cell = (r as usize, (n - 1) as usize);
        if g[r][n - 1] == ' ' && cell != start {
            prev.push(cell)
        } else {
            prev
        }
    }
}

/// The floor cells of the first `n` rows, other than `start`, in reading
/// order.
pub open spec fn open_cells_in_rows(g: Seq<Seq<char>>, start: Cell, n: int) -> Seq<Cell>
    decreases n,
{
    if n <= 0 {
        Seq::empty()
    } else {
        open_cells_in_rows(g, start, n - 1) + row_open_cells(g, start, n - 1, g[n - 1].len() as int)
    }
}

/// Every floor cell of the maze except `start`, in reading order.
pub open spec fn open_cells(g: Seq<Seq<char>>, start: Cell) -> Seq<Cell> {
    open_cells_in_rows(g, start, g.len() as int)
}

/// The smallest distance from `c` to a cell of `refs` (0 for none).
pub open spec fn min_dist(c: Cell, refs: Seq<Cell>) -> int
    decreases refs.len(),
{
    if refs.len() == 0 {
        0
    } else if refs.len() == 1 {
        dist(c, refs[0])
    } else {
        let m = min_dist(c, refs.drop_last());
        let d = dist(c, refs.last());
        if d < m {
            d
        } else {
            m
        }
    }
}

/// `min_dist` is the distance to the nearest cell of `refs`: no cell of
/// `refs` is closer, and some cell of `refs` is exactly that far.
pub proof fn lemma_min_dist_is_nearest(c: Cell, refs: Seq<Cell>)
    requires
        refs.len() > 0,
    ensures
        forall|k: int| 0 <= k < refs.len() ==> min_dist(c, refs) <= dist(c, #[trigger] refs[k]),
        exists|k: int| 0 <= k < refs.len() && min_dist(c, refs) == dist(c, #[trigger] refs[k]),
    decreases refs.len(),
{
    if refs.len() == 1 {
        assert(min_dist(c, refs) == dist(c, refs[0]));
    } else {
        let prev = refs.drop_last();
        lemma_min_dist_is_nearest(c, prev);
        assert forall|k: int| 0 <= k < refs.len() implies min_dist(c, refs) <= dist(c, #[trigger] refs[k]) by {
            if k < refs.len() - 1 {
                assert(refs[k] == prev[k]);
            }
        }
        let j = choose|j: int| 0 <= j < prev.len() && min_dist(c, prev) == dist(c, #[trigger] prev[j]);
        if dist(c, refs.last()) < min_dist(c, prev) {
            assert(min_dist(c, refs) == dist(c, refs[refs.len() - 1]));
        } else {
            assert(refs[j] == prev[j]);
            assert(min_dist(c, refs) == dist(c, refs[j]));
        }
    }
}

/// A cell's spacing is its distance to the nearest of the start and the
/// cells taken so far.
pub proof fn lemma_spacing_is_nearest(c: Cell, start: Cell, taken: Seq<Cell>)
    ensures
        spacing(c, start, taken) <= dist(c, start),
        forall|k: int| 0 <= k < taken.len() ==> spacing(c, start, taken) <= dist(c, #[trigger] taken[k]),
        spacing(c, start, taken) == dist(c, start) || exists|k: int|
            0 <= k < taken.len() && spacing(c, start, taken) == dist(c, #[trigger] taken[k]),
{
    let refs = seq![start] + taken;
    lemma_min_dist_is_nearest(c, refs);
    assert(refs[0] == start);
    assert forall|k: int| 0 <= k < taken.len() implies spacing(c, start, taken) <= dist(c, #[trigger] taken[k]) by {
        assert(refs[k + 1] == taken[k]);
    }
    let j = choose|j: int| 0 <= j < refs.len() && min_dist(c, refs) == dist(c, #[trigger] refs[j]);
    if j > 0 {
        assert(refs[j] == taken[j - 1]);
    }
}

/// How far `c` is from the start and from every cell taken so far.
pub open spec fn spacing(c: Cell, start: Cell, taken: Seq<Cell>) -> int {
    min_dist(c, seq![start] + taken)
}

/// `cands[j]` is the next pick of farthest-point sampling after `taken`: a
/// cell not yet taken whose spacing no other untaken cell exceeds, and the
/// last such cell in `cands` when several tie.
pub open spec fn farthest_pick(cands: Seq<Cell>, start: Cell, taken: Seq<Cell>, j: int) -> bool {
    &&& 0 <= j < cands.len()
    &&& !taken.contains(cands[j])
    &&& forall|j2: int|
        #![trigger cands[j2]]
        0 <= j2 < cands.len() && !taken.contains(cands[j2]) ==> spacing(cands[j2], start, taken)
            <= spacing(cands[j], start, taken) && (j2 > j ==> spacing(cands[j2], start, taken) < spacing(
            cands[j], start, taken))
}

/// `c` is the next pick of farthest-point sampling from `cands` after
/// `taken`: a candidate not taken yet whose spacing no other untaken
/// candidate exceeds, and every untaken candidate after it in `cands` is
/// strictly closer (so among ties the last one is picked).
#[verifier::opaque]
pub open spec fn is_farthest(cands: Seq<Cell>, start: Cell, taken: Seq<Cell>, c: Cell) -> bool {
    &&& cands.contains(c)
    &&& !taken.contains(c)
    &&& forall|j2: int|
        #![trigger cands[j2]]
        0 <= j2 < cands.len() && !taken.contains(cands[j2]) ==> spacing(cands[j2], start, taken)
            <= spacing(c, start, taken)
    &&& forall|j1: int, j2: int|
        #![trigger cands[j1], cands[j2]]
        0 <= j1 < j2 < cands.len() && cands[j1] == c && !taken.contains(cands[j2]) ==> spacing(
            cands[j2],
            start,
            taken,
        ) < spacing(c, start, taken)
}

/// `picked` are successive farthest-point picks from `cands`, starting
/// from `start`: each `picked[i]` is the pick after `picked[..i]`.
pub open spec fn farthest_point_sampling(cands: Seq<Cell>, start: Cell, picked: Seq<Cell>) -> bool {
    forall|i: int|
        #![trigger picked[i]]
        0 <= i < picked.len() ==> is_farthest(cands, start, picked.take(i), picked[i])
}

/// Coordinates small enough that distances fit an `i32`.
pub open spec fn small(c: Cell) -> bool {
    c.0 < 0x4000_0000 && c.1 < 0x4000_0000
}

/// A maze small enough that distances between its cells fit an `i32`.
pub open spec fn small_maze(g: Seq<Seq<char>>) -> bool {
    &&& g.len() < 0x4000_0000
    &&& forall|r: int| 0 <= r < g.len() ==> #[trigger] g[r].len() < 0x4000_0000
}

/// `a` comes strictly before `b` in reading order.
pub open spec fn before(a: Cell, b: Cell) -> bool {
    a.0 < b.0 || (a.0 == b.0 && a.1 < b.1)
}

fn contains_cell(cells: &Vec<Cell>, c: Cell) -> (r: bool)
    ensures
        r == cells@.contains(c),
{
    let mut i: usize = 0;
    while i < cells.len()
        invariant
            i <= cells@.len(),
            forall|k: int| 0 <= k < i ==> cells@[k] != c,
        decreases cells@.len() - i,
    {
        let d = cells[i];
        if d.0 == c.0 && d.1 == c.1 {
            assert(cells@[i as int] == c);
            return true;
        }
        i = i + 1;
    }
    false
}

/// The smallest distance from `c` to the cells of `reference`.
fn min_distance(c: Cell, reference: &Vec<Cell>) -> (d: i32)
    requires
        reference@.len() >= 1,
        small(c),
        forall|k: int| 0 <= k < reference@.len() ==> small(#[trigger] reference@[k]),
    ensures
        d == min_dist(c, reference@),
{
    let mut best = manhattan(c, reference[0]);
    let mut k: usize = 1;
    proof {
        assert(reference@.take(1).drop_last() =~= Seq::<Cell>::empty());
    }
    while k < reference.len()
        invariant
            1 <= k <= reference@.len(),
            small(c),
            forall|k: int| 0 <= k < reference@.len() ==> small(#[trigger] reference@[k]),
            best == min_dist(c, reference@.take(k as int)),
        decreases reference@.len() - k,
    {
        let d = manhattan(c, reference[k]);
        proof {
            assert(reference@.take(k + 1).drop_last() =~= reference@.take(k as int));
        }
        if d < best {
            best = d;
        }
        k = k + 1;
    }
    proof {
        assert(reference@.take(k as int) =~= reference@);
    }
    best
}

/// The floor cells of the maze other than `start`, in reading order.
fn collect_open_cells(maze: &Maze, start: Cell) -> (cells: Vec<Cell>)
    ensures
        cells@ == open_cells(grid(maze), start),
        cells@.no_duplicates(),
        forall|i: int|
            0 <= i < cells@.len() ==> (#[trigger] cells@[i]).0 < grid(maze).len() && cells@[i].1 < grid(
                maze,
            )[cells@[i].0 as int].len(),
{
    let ghost g = grid(maze);
    let mut cells: Vec<Cell> = Vec::new();
    let mut row: usize = 0;
    while row < maze.len()
        invariant
            g == grid(maze),
            row <= g.len(),
            cells@ == open_cells_in_rows(g, start, row as int),
            forall|i: int, k: int| 0 <= i < k < cells@.len() ==> before(cells@[i], cells@[k]),
            forall|i: int|
                0 <= i < cells@.len() ==> (#[trigger] cells@[i]).0 < row && cells@[i].1 < g[cells@[i].0 as int].len(),
        decreases g.len() - row,
    {
        let line = &maze[row];
        let mut col: usize = 0;
        while col < line.len()
            invariant
                g == grid(maze),
                row < g.len(),
                line@ == g[row as int],
                col <= line@.len(),
                cells@ == open_cells_in_rows(g, start, row as int) + row_open_cells(g, start, row as int, col as int),
                forall|i: int, k: int| 0 <= i < k < cells@.len() ==> before(cells@[i], cells@[k]),
                forall|i: int|
                    0 <= i < cells@.len() ==> before(#[trigger] cells@[i], (row, col)) && cells@[i].1 < g[cells@[i].0 as int].len()
                        && cells@[i].0 <= row,
            decreases line@.len() - col,
        {
            if line[col] == ' ' && !(row == start.0 && col == start.1) {
                cells.push((row, col));
            }
            col = col + 1;
        }
        proof {
            assert(open_cells_in_rows(g, start, row + 1) == open_cells_in_rows(g, start, row as int)
                + row_open_cells(g, start, row as int, g[row as int].len() as int));
        }
        row = row + 1;
    }
    proof {
        assert forall|i: int, k: int| 0 <= i < cells@.len() && 0 <= k < cells@.len() && i != k implies cells@[i]
            != cells@[k] by {
            if i < k {
                assert(before(cells@[i], cells@[k]));
            } else {
                assert(before(cells@[k], cells@[i]));
            }
        }
    }
    cells
}

/// The index in `cands` of the next farthest-point pick after `chosen`
/// (see `farthest_pick`).
fn farthest_index(cands: &Vec<Cell>, chosen: &Vec<Cell>, reference: &Vec<Cell>, start: Cell) -> (best: usize)
    requires
        cands@.no_duplicates(),
        chosen@.len() < cands@.len(),
        forall|i: int| 0 <= i < chosen@.len() ==> cands@.contains(#[trigger] chosen@[i]),
        forall|i: int| 0 <= i < cands@.len() ==> small(#[trigger] cands@[i]),
        small(start),
        reference@ == seq![start] + chosen@,
    ensures
        farthest_pick(cands@, start, chosen@, best as int),
{
    let ghost op = cands@;
    proof {
        assert forall|k: int| 0 <= k < reference@.len() implies small(#[trigger] reference@[k]) by {
            if k > 0 {
                assert(reference@[k] == chosen@[k - 1]);
                assert(op.contains(chosen@[k - 1]));
            }
        }
    }
    let mut found = false;
    let mut best: usize = 0;
    let mut best_key: i32 = 0;
    let mut j: usize = 0;
    while j < cands.len()
        invariant
            op == cands@,
            forall|i: int| 0 <= i < op.len() ==> small(#[trigger] op[i]),
            reference@ == seq![start] + chosen@,
            reference@.len() >= 1,
            forall|k: int| 0 <= k < reference@.len() ==> small(#[trigger] reference@[k]),
            j <= op.len(),
            found ==> best < j && !chosen@.contains(op[best as int]) && best_key == spacing(
                op[best as int],
                start,
                chosen@,
            ),
            !found ==> forall|j2: int| 0 <= j2 < j ==> chosen@.contains(#[trigger] op[j2]),
            found ==> forall|j2: int|
                #![trigger op[j2]]
                0 <= j2 < j && !chosen@.contains(op[j2]) ==> spacing(op[j2], start, chosen@) <= best_key
                    && (j2 > best ==> spacing(op[j2], start, chosen@) < best_key),
        decreases op.len() - j,
    {
        let c = cands[j];
        if !contains_cell(chosen, c) {
            let key = min_distance(c, reference);
            if !found || key >= best_key {
                best = j;
                best_key = key;
                found = true;
            }
        }
        j = j + 1;
    }
    proof {
        if !found {
            assert(op.to_set().subset_of(chosen@.to_set())) by {
                assert forall|x: Cell| op.to_set().contains(x) implies chosen@.to_set().contains(x) by {
                    let j2 = choose|j2: int| 0 <= j2 < op.len() && op[j2] == x;
                    assert(chosen@.contains(op[j2]));
                }
            }
            op.unique_seq_to_set();
            chosen@.lemma_cardinality_of_set();
            vstd::set_lib::lemma_len_subset(op.to_set(), chosen@.to_set());
            assert(false);
        }
    }
    best
}

/// Picks with known indices in `cands` are a farthest-point sampling.
proof fn lemma_sampling_from_picks(cands: Seq<Cell>, start: Cell, picked: Seq<Cell>, picks: Seq<int>)
    requires
        cands.no_duplicates(),
        picks.len() == picked.len(),
        forall|i: int|
            #![trigger picks[i]]
            0 <= i < picked.len() ==> farthest_pick(cands, start, picked.take(i), picks[i])
                && cands[picks[i]] == picked[i],
    ensures
        farthest_point_sampling(cands, start, picked),
{
    assert forall|i: int|
        #![trigger picked[i]]
        0 <= i < picked.len() implies is_farthest(cands, start, picked.take(i), picked[i]) by {
        reveal(is_farthest);
        let j = picks[i];
        let taken = picked.take(i);
        assert(farthest_pick(cands, start, taken, j));
        assert(cands[j] == picked[i]);
        assert forall|j1: int, j2: int|
            #![trigger cands[j1], cands[j2]]
            0 <= j1 < j2 < cands.len() && cands[j1] == picked[i] && !taken.contains(cands[j2])
                implies spacing(cands[j2], start, taken) < spacing(picked[i], start, taken) by {
            assert(j1 == j);
        }
    }
}

/// Taking one more farthest-point pick keeps every earlier pick valid.
proof fn lemma_extend_picks(op: Seq<Cell>, start: Cell, old_chosen: Seq<Cell>, picks: Seq<int>, best: int)
    requires
        old_chosen.no_duplicates(),
        picks.len() == old_chosen.len(),
        forall|i: int| 0 <= i < old_chosen.len() ==> op.contains(#[trigger] old_chosen[i]),
        forall|i: int|
            #![trigger picks[i]]
            0 <= i < old_chosen.len() ==> farthest_pick(op, start, old_chosen.take(i), picks[i])
                && op[picks[i]] == old_chosen[i],
        farthest_pick(op, start, old_chosen, best),
    ensures
        ({
            let chosen = old_chosen.push(op[best]);
            let picks2 = picks.push(best);
            &&& chosen.no_duplicates()
            &&& forall|i: int| 0 <= i < chosen.len() ==> op.contains(#[trigger] chosen[i])
            &&& forall|i: int|
                #![trigger picks2[i]]
                0 <= i < chosen.len() ==> farthest_pick(op, start, chosen.take(i), picks2[i])
                    && op[picks2[i]] == chosen[i]
        }),
{
    let chosen = old_chosen.push(op[best]);
    let picks2 = picks.push(best);
    let step = old_chosen.len() as int;
    assert forall|i: int| 0 <= i <= step implies chosen.take(i) =~= old_chosen.take(i) by {}
    assert(old_chosen.take(step) =~= old_chosen);
    assert forall|i: int| 0 <= i < step + 1 implies op.contains(#[trigger] chosen[i]) by {
        if i == step {
            assert(op[best] == chosen[i]);
        } else {
            assert(chosen[i] == old_chosen[i]);
        }
    }
    assert forall|i: int|
        #![trigger picks2[i]]
        0 <= i < step + 1 implies farthest_pick(op, start, chosen.take(i), picks2[i]) && op[picks2[i]]
            == chosen[i] by {
        assert(chosen.take(i) == old_chosen.take(i));
        if i < step {
            assert(picks2[i] == picks[i]);
            assert(chosen[i] == old_chosen[i]);
        }
    }
    assert forall|a: int, b: int| 0 <= a < chosen.len() && 0 <= b < chosen.len() && a != b implies chosen[a]
        != chosen[b] by {
        if a == step {
            assert(chosen[b] == old_chosen[b]);
        } else if b == step {
            assert(chosen[a] == old_chosen[a]);
        }
    }
}

/// Picks up to `count` floor cells spread over the maze, for torches:
/// starting from `start` (the player's cell), each pick is the floor cell
/// farthest from `start` and from every cell picked before (farthest-point
/// sampling, see `farthest_pick`). Never picks `start`, never picks a cell
/// twice, and picks `count` cells or every floor cell when there are fewer.
pub fn scatter_open_cells(maze: &Maze, start: Cell, count: usize) -> (picked: Vec<Cell>)
    requires
        small_maze(grid(maze)),
        small(start),
    ensures
        picked@.len() == if count < open_cells(grid(maze), start).len() {
            count as int
        } else {
            open_cells(grid(maze), start).len() as int
        },
        farthest_point_sampling(open_cells(grid(maze), start), start, picked@),
{
    let ghost g = grid(maze);
    let cands = collect_open_cells(maze, start);
    let ghost op = cands@;
    proof {
        assert forall|i: int| 0 <= i < op.len() implies small(#[trigger] op[i]) by {
            assert(g[op[i].0 as int].len() < 0x4000_0000);
        }
    }
    let mut chosen: Vec<Cell> = Vec::new();
    let mut reference: Vec<Cell> = Vec::new();
    reference.push(start);
    let n = if count < cands.len() { count } else { cands.len() };
    let mut step: usize = 0;
    let ghost mut picks: Seq<int> = Seq::empty();
    proof {
        assert(reference@ =~= seq![start] + chosen@);
    }
    while step < n
        invariant
            g == grid(maze),
            op == cands@,
            op == open_cells(g, start),
            op.no_duplicates(),
            forall|i: int| 0 <= i < op.len() ==> small(#[trigger] op[i]),
            small(start),
            n <= op.len(),
            n == if count < op.len() { count as int } else { op.len() as int },
            step <= n,
            chosen@.len() == step,
            reference@ == seq![start] + chosen@,
            chosen@.no_duplicates(),
            forall|i: int| 0 <= i < step ==> op.contains(#[trigger] chosen@[i]),
            picks.len() == step,
            forall|i: int|
                #![trigger picks[i]]
                0 <= i < step ==> farthest_pick(op, start, chosen@.take(i), picks[i]) && op[picks[i]]
                    == chosen@[i],
        decreases n - step,
    {
        let best = farthest_index(&cands, &chosen, &reference, start);
        let pick = cands[best];
        let ghost old_chosen = chosen@;
        proof {
            lemma_extend_picks(op, start, old_chosen, picks, best as int);
            picks = picks.push(best as int);
        }
        chosen.push(pick);
        reference.push(pick);
        proof {
            assert(chosen@ == old_chosen.push(op[best as int]));
            assert(reference@ =~= seq![start] + chosen@);
        }
        step = step + 1;
    }
    proof {
        lemma_sampling_from_picks(op, start, chosen@, picks);
        assert(op == open_cells(grid(maze), start));
    }
    chosen
}

/// Whether `maze` and `start` are small enough for `scatter_open_cells`
/// and `sprite_cells`: every distance between their cells fits an `i32`.
pub fn spacing_fits(maze: &Maze, start: Cell) -> (ok: bool)
    ensures
        ok == (small_maze(grid(maze)) && small(start)),
{
    if maze.len() >= 0x4000_0000 || start.0 >= 0x4000_0000 || start.1 >= 0x4000_0000 {
        return false;
    }
    let mut i: usize = 0;
    while i < maze.len()
        invariant
            i <= maze@.len(),
            forall|r: int| 0 <= r < i ==> #[trigger] grid(maze)[r].len() < 0x4000_0000,
        decreases maze@.len() - i,
    {
        if maze[i].len() >= 0x4000_0000 {
            assert(grid(maze)[i as int].len() >= 0x4000_0000);
            return false;
        }
        i = i + 1;
    }
    true
}

/// Where a level's sprites go: torches on `TORCH_COUNT` cells spread out
/// from the player's cell `start` (see `scatter_open_cells`), and the chest
/// on the goal, if the level has one (see `find_goal_cell`).
pub fn sprite_cells(maze: &Maze, start: Cell) -> (cells: (Vec<Cell>, Option<Cell>))
    requires
        small_maze(grid(maze)),
        small(start),
    ensures
        cells.0@.len() == if TORCH_COUNT < open_cells(grid(maze), start).len() {
            TORCH_COUNT as int
        } else {
            open_cells(grid(maze), start).len() as int
        },
        farthest_point_sampling(open_cells(grid(maze), start), start, cells.0@),
        first_goal(grid(maze), cells.1),
{
    let torches = scatter_open_cells(maze, start, TORCH_COUNT);
    let goal = find_goal_cell(maze);
    (torches, goal)
}

proof fn lemma_row_open_cells(g: Seq<Seq<char>>, start: Cell, r: int, n: int)
    requires
        0 <= r < g.len(),
        r <= usize::MAX,
        n <= g[r].len(),
        g[r].len() <= usize::MAX,
    ensures
        forall|i: int|
            0 <= i < row_open_cells(g, start, r, n).len() ==> {
                let c = #[trigger] row_open_cells(g, start, r, n)[i];
                &&& c.0 == r
                &&& c.1 < n
                &&& g[r][c.1 as int] == ' '
                &&& c != start
            },
    decreases n,
{
    if n > 0 {
        lemma_row_open_cells(g, start, r, n - 1);
        let prev = row_open_cells(g, start, r, n - 1);
        let cur = row_open_cells(g, start, r, n);
        assert forall|i: int| 0 <= i < cur.len() implies {
            let c = #[trigger] cur[i];
            &&& c.0 == r
            &&& c.1 < n
            &&& g[r][c.1 as int] == ' '
            &&& c != start
        } by {
            if i < prev.len() {
                assert(cur[i] == prev[i]);
            }
        }
    }
}

proof fn lemma_open_cells_in_rows(g: Seq<Seq<char>>, start: Cell, n: int)
    requires
        n <= g.len(),
        g.len() <= usize::MAX,
        forall|r: int| 0 <= r < g.len() ==> #[trigger] g[r].len() <= usize::MAX,
    ensures
        forall|i: int|
            0 <= i < open_cells_in_rows(g, start, n).len() ==> {
                let c = #[trigger] open_cells_in_rows(g, start, n)[i];
                &&& c.0 < n
                &&& c.1 < g[c.0 as int].len()
                &&& g[c.0 as int][c.1 as int] == ' '
                &&& c != start
            },
    decreases n,
{
    if n > 0 {
        lemma_open_cells_in_rows(g, start, n - 1);
        lemma_row_open_cells(g, start, n - 1, g[n - 1].len() as int);
        let prev = open_cells_in_rows(g, start, n - 1);
        let row = row_open_cells(g, start, n - 1, g[n - 1].len() as int);
        assert forall|i: int| 0 <= i < open_cells_in_rows(g, start, n).len() implies {
            let c = #[trigger] open_cells_in_rows(g, start, n)[i];
            &&& c.0 < n
            &&& c.1 < g[c.0 as int].len()
            &&& g[c.0 as int][c.1 as int] == ' '
            &&& c != start
        } by {
            if i < prev.len() {
                assert(open_cells_in_rows(g, start, n)[i] == prev[i]);
            } else {
                assert(open_cells_in_rows(g, start, n)[i] == row[i - prev.len()]);
            }
        }
    }
}

/// A pick is an untaken candidate.
proof fn lemma_pick_is_candidate(cands: Seq<Cell>, start: Cell, taken: Seq<Cell>, c: Cell)
    requires
        is_farthest(cands, start, taken, c),
    ensures
        cands.contains(c),
        !taken.contains(c),
{
    reveal(is_farthest);
}

/// Torches stand apart: the picks of `scatter_open_cells` are distinct
/// floor cells of the maze, none of them the player's starting cell.
pub proof fn lemma_torches_on_distinct_floor(g: Seq<Seq<char>>, start: Cell, picked: Seq<Cell>)
    requires
        g.len() <= usize::MAX,
        forall|r: int| 0 <= r < g.len() ==> #[trigger] g[r].len() <= usize::MAX,
        farthest_point_sampling(open_cells(g, start), start, picked),
    ensures
        picked.no_duplicates(),
        forall|i: int|
            0 <= i < picked.len() ==> {
                &&& crate::maze::cell_of(g, (#[trigger] picked[i]).0 as int, picked[i].1 as int) == Some(' ')
                &&& picked[i] != start
            },
{
    let cands = open_cells(g, start);
    assert forall|i: int| 0 <= i < picked.len() implies cands.contains(#[trigger] picked[i]) && !picked.take(i).contains(
        picked[i],
    ) by {
        lemma_pick_is_candidate(cands, start, picked.take(i), picked[i]);
    }
    lemma_open_cells_in_rows(g, start, g.len() as int);
    assert forall|i: int| 0 <= i < picked.len() implies {
        &&& crate::maze::cell_of(g, (#[trigger] picked[i]).0 as int, picked[i].1 as int) == Some(' ')
        &&& picked[i] != start
    } by {
        assert(cands.contains(picked[i]));
        let j = choose|j: int| 0 <= j < cands.len() && cands[j] == picked[i];
        assert(cands[j] == picked[i]);
    }
    assert forall|a: int, b: int| 0 <= a < picked.len() && 0 <= b < picked.len() && a != b implies picked[a]
        != picked[b] by {
        if a < b {
            assert(!picked.take(b).contains(picked[b]));
            assert(picked.take(b)[a] == picked[a]);
        } else {
            assert(!picked.take(a).contains(picked[a]));
            assert(picked.take(a)[b] == picked[b]);
        }
    }
}

} // verus!

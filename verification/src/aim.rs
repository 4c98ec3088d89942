use vstd::prelude::*;
use rand::Rng;
use crate::text::{decimal, push_decimal, string_from_chars};
use crate::scores::{
    get_date,
    is_date_text,
    lemma_place_keeps_saved_ok,
    place_score_to_save,
    saved_ok,
    sort_desc,
    top5,
    units_view,
    SaveDataUnit,
};

verus! {

/// Side of the square grid of targets.
pub const GRID_SIZE: usize = 5;

/// The grid of targets: `true` is a lit cell, a target to hit.
pub type Grid = [[bool; 5]; 5];

/// The grid as rows of cells.
pub open spec fn grid_view(g: Grid) -> Seq<Seq<bool>> {
    g@.map_values(|row: [bool; 5]| row@)
}

/// A 5x5 grid of rows.
pub open spec fn grid_shaped(g: Seq<Seq<bool>>) -> bool {
    g.len() == 5 && forall|i: int| 0 <= i < 5 ==> #[trigger] g[i].len() == 5
}

/// The number of `true` in `s`.
pub open spec fn count_true(s: Seq<bool>) -> nat
    decreases s.len(),
{
    if s.len() == 0 {
        0
    } else {
        count_true(s.drop_last()) + if s.last() {
            1nat
        } else {
            0nat
        }
    }
}

/// The number of lit cells.
pub open spec fn lit_count(g: Seq<Seq<bool>>) -> nat
    decreases g.len(),
{
    if g.len() == 0 {
        0
    } else {
        lit_count(g.drop_last()) + count_true(g.last())
    }
}

/// `g` with `v` written at row `i`, column `j`.
pub open spec fn set_cell(g: Seq<Seq<bool>>, i: int, j: int, v: bool) -> Seq<Seq<bool>> {
    g.update(i, g[i].update(j, v))
}

/// Row `i`, column `j` is a cell of the grid and is not lit.
pub open spec fn is_free(g: Seq<Seq<bool>>, i: int, j: int) -> bool {
    0 <= i < 5 && 0 <= j < 5 && !g[i][j]
}

/// Some cell of the grid is free.
pub open spec fn has_free(g: Seq<Seq<bool>>) -> bool {
    exists|i: int, j: int| is_free(g, i, j)
}

/// The grid where no cell is lit.
pub open spec fn dark_grid() -> Seq<Seq<bool>> {
    Seq::new(5, |i: int| Seq::new(5, |j: int| false))
}

proof fn lemma_grid_view_shape(g: Grid)
    ensures
        grid_shaped(grid_view(g)),
        forall|i: int, j: int|
            0 <= i < 5 && 0 <= j < 5 ==> #[trigger] grid_view(g)[i][j] == g[i][j],
{
}

proof fn lemma_count_true_update(s: Seq<bool>, j: int, v: bool)
    requires
        0 <= j < s.len(),
    ensures
        count_true(s.update(j, v)) + (if s[j] { 1int } else { 0int }) == count_true(s) + (if v {
            1int
        } else {
            0int
        }),
    decreases s.len(),
{
    if j < s.len() - 1 {
        assert(s.update(j, v).drop_last() =~= s.drop_last().update(j, v));
        lemma_count_true_update(s.drop_last(), j, v);
    } else {
        assert(s.update(j, v).drop_last() =~= s.drop_last());
    }
}

proof fn lemma_lit_count_update_row(g: Seq<Seq<bool>>, i: int, r: Seq<bool>)
    requires
        0 <= i < g.len(),
    ensures
        lit_count(g.update(i, r)) + count_true(g[i]) == lit_count(g) + count_true(r),
    decreases g.len(),
{
    if i < g.len() - 1 {
        assert(g.update(i, r).drop_last() =~= g.drop_last().update(i, r));
        lemma_lit_count_update_row(g.drop_last(), i, r);
    } else {
        assert(g.update(i, r).drop_last() =~= g.drop_last());
    }
}

/// Lighting a free cell adds one lit cell; darkening a lit one removes one.
pub proof fn lemma_lit_count_set_cell(g: Seq<Seq<bool>>, i: int, j: int, v: bool)
    requires
        grid_shaped(g),
        0 <= i < 5,
        0 <= j < 5,
    ensures
        lit_count(set_cell(g, i, j, v)) + (if g[i][j] { 1int } else { 0int }) == lit_count(g) + (
        if v {
            1int
        } else {
            0int
        }),
{
    lemma_count_true_update(g[i], j, v);
    lemma_lit_count_update_row(g, i, g[i].update(j, v));
}

proof fn lemma_count_true_bound(s: Seq<bool>)
    ensures
        count_true(s) <= s.len(),
        count_true(s) == s.len() ==> forall|j: int| 0 <= j < s.len() ==> #[trigger] s[j],
    decreases s.len(),
{
    if s.len() > 0 {
        lemma_count_true_bound(s.drop_last());
        assert forall|j: int| 0 <= j < s.len() && count_true(s) == s.len() implies #[trigger] s[j] by {
            if j < s.len() - 1 {
                assert(s[j] == s.drop_last()[j]);
            }
        }
    }
}

proof fn lemma_lit_count_bound(g: Seq<Seq<bool>>)
    requires
        forall|i: int| 0 <= i < g.len() ==> #[trigger] g[i].len() == 5,
    ensures
        lit_count(g) <= 5 * g.len(),
        lit_count(g) == 5 * g.len() ==> forall|i: int, j: int|
            0 <= i < g.len() && 0 <= j < 5 ==> #[trigger] g[i][j],
    decreases g.len(),
{
    if g.len() > 0 {
        let h = g.drop_last();
        assert forall|i: int| 0 <= i < h.len() implies #[trigger] h[i].len() == 5 by {
            assert(h[i] == g[i]);
        }
        lemma_lit_count_bound(h);
        lemma_count_true_bound(g.last());
        assert forall|i: int, j: int|
            0 <= i < g.len() && 0 <= j < 5 && lit_count(g) == 5 * g.len() implies #[trigger] g[i][j] by {
            if i < g.len() - 1 {
                assert(g[i] == h[i]);
            }
        }
    }
}

/// A grid with fewer than 25 lit cells has a free cell.
pub proof fn lemma_free_cell_exists(g: Seq<Seq<bool>>)
    requires
        grid_shaped(g),
        lit_count(g) < 25,
    ensures
        has_free(g),
{
    lemma_lit_count_bound(g);
    if !has_free(g) {
        assert forall|i: int, j: int| 0 <= i < 5 && 0 <= j < 5 implies #[trigger] g[i][j] by {
            assert(!is_free(g, i, j));
        }
        lemma_all_lit_count(g);
    }
}

proof fn lemma_all_lit_count(g: Seq<Seq<bool>>)
    requires
        grid_shaped(g),
        forall|i: int, j: int| 0 <= i < 5 && 0 <= j < 5 ==> #[trigger] g[i][j],
    ensures
        lit_count(g) == 25,
{
    assert forall|i: int| 0 <= i < 5 implies #[trigger] count_true(g[i]) == 5 by {
        lemma_count_true_full(g[i]);
    }
    assert(lit_count(g) == 25) by {
        reveal_with_fuel(lit_count, 6);
        assert(g.drop_last().drop_last().drop_last().drop_last().drop_last().len() == 0);
        assert(g.last() == g[4]);
        assert(g.drop_last().last() == g[3]);
        assert(g.drop_last().drop_last().last() == g[2]);
        assert(g.drop_last().drop_last().drop_last().last() == g[1]);
        assert(g.drop_last().drop_last().drop_last().drop_last().last() == g[0]);
    }
}

proof fn lemma_count_true_full(s: Seq<bool>)
    requires
        forall|j: int| 0 <= j < s.len() ==> #[trigger] s[j],
    ensures
        count_true(s) == s.len(),
    decreases s.len(),
{
    if s.len() > 0 {
        assert(forall|j: int| 0 <= j < s.len() - 1 ==> #[trigger] s.drop_last()[j] == s[j]);
        lemma_count_true_full(s.drop_last());
    }
}

proof fn lemma_dark_grid_count()
    ensures
        lit_count(dark_grid()) == 0,
{
    let g = dark_grid();
    assert forall|i: int| 0 <= i < 5 implies #[trigger] count_true(g[i]) == 0 by {
        let r = g[i];
        assert(count_true(r) == 0) by {
            reveal_with_fuel(count_true, 6);
            assert(r.drop_last().drop_last().drop_last().drop_last().drop_last().len() == 0);
        }
    }
    assert(lit_count(g) == 0) by {
        reveal_with_fuel(lit_count, 6);
        assert(g.drop_last().drop_last().drop_last().drop_last().drop_last().len() == 0);
        assert(g.last() == g[4]);
        assert(g.drop_last().last() == g[3]);
        assert(g.drop_last().drop_last().last() == g[2]);
        assert(g.drop_last().drop_last().drop_last().last() == g[1]);
        assert(g.drop_last().drop_last().drop_last().drop_last().last() == g[0]);
    }
}

/// rand's `Rng::gen_range(0..bound)` on the thread-local generator.
///
/// Trusted: it claims only that the number lies in `0..bound`; which one
/// comes out is left to chance and not stated.
#[verifier::external_body]
fn random_below(bound: usize) -> (r: usize)
    requires
        bound > 0,
    ensures
        r < bound,
{
    rand::thread_rng().gen_range(0..bound)
}

/// The free cells among the first `c` cells, counted row by row, in that
/// order.
pub open spec fn free_cells_upto(g: Seq<Seq<bool>>, c: nat) -> Seq<(usize, usize)>
    decreases c,
{
    if c == 0 {
        seq![]
    } else {
        let prev = free_cells_upto(g, (c - 1) as nat);
        let i = (c - 1) / 5;
        let j = (c - 1) % 5;
        if !g[i][j] {
            prev.push((i as usize, j as usize))
        } else {
            prev
        }
    }
}

/// The free cells of the grid, row by row, each row left to right.
pub open spec fn free_cells(g: Seq<Seq<bool>>) -> Seq<(usize, usize)> {
    free_cells_upto(g, 25)
}

proof fn lemma_free_cells_upto(g: Seq<Seq<bool>>, c: nat)
    requires
        c <= 25,
    ensures
        forall|k: int|
            0 <= k < free_cells_upto(g, c).len() ==> is_free(
                g,
                #[trigger] free_cells_upto(g, c)[k].0 as int,
                free_cells_upto(g, c)[k].1 as int,
            ),
        forall|i: int, j: int|
            0 <= i < 5 && 0 <= j < 5 && 5 * i + j < c && !g[i][j] ==> free_cells_upto(
                g,
                c,
            ).contains((i as usize, j as usize)),
    decreases c,
{
    if c > 0 {
        lemma_free_cells_upto(g, (c - 1) as nat);
        let prev = free_cells_upto(g, (c - 1) as nat);
        let cur = free_cells_upto(g, c);
        assert forall|k: int| 0 <= k < cur.len() implies is_free(
            g,
            #[trigger] cur[k].0 as int,
            cur[k].1 as int,
        ) by {
            if k < prev.len() {
                assert(cur[k] == prev[k]);
            }
        }
        assert forall|i: int, j: int|
            0 <= i < 5 && 0 <= j < 5 && 5 * i + j < c && !g[i][j] implies cur.contains(
            (i as usize, j as usize),
        ) by {
            if 5 * i + j < c - 1 {
                let k = choose|k: int| 0 <= k < prev.len() && prev[k] == (i as usize, j as usize);
                assert(cur[k] == prev[k]);
            } else {
                assert(i == (c - 1) / 5 && j == (c - 1) % 5);
                assert(cur[cur.len() - 1] == (i as usize, j as usize));
            }
        }
    }
}

/// Every cell that `free_cells` lists is free, and a grid with a free cell
/// lists at least one.
pub proof fn lemma_free_cells(g: Seq<Seq<bool>>)
    ensures
        forall|k: int|
            0 <= k < free_cells(g).len() ==> is_free(
                g,
                #[trigger] free_cells(g)[k].0 as int,
                free_cells(g)[k].1 as int,
            ),
        has_free(g) ==> free_cells(g).len() > 0,
{
    lemma_free_cells_upto(g, 25);
    if has_free(g) {
        let (i, j) = choose|i: int, j: int| is_free(g, i, j);
        assert(free_cells(g).contains((i as usize, j as usize)));
    }
}

/// The free cells of the grid, row by row, each row left to right.
pub fn free_cell_list(grid: &Grid) -> (v: Vec<(usize, usize)>)
    ensures
        v@ == free_cells(grid_view(*grid)),
{
    proof {
        lemma_grid_view_shape(*grid);
    }
    let ghost g = grid_view(*grid);
    let mut free: Vec<(usize, usize)> = Vec::new();
    let mut x: usize = 0;
    while x < GRID_SIZE
        invariant
            0 <= x <= 5,
            g == grid_view(*grid),
            grid_shaped(g),
            free@ == free_cells_upto(g, (5 * x) as nat),
        decreases 5 - x,
    {
        let mut y: usize = 0;
        while y < GRID_SIZE
            invariant
                0 <= x < 5,
                0 <= y <= 5,
                g == grid_view(*grid),
                grid_shaped(g),
                free@ == free_cells_upto(g, (5 * x + y) as nat),
            decreases 5 - y,
        {
            proof {
                lemma_grid_view_shape(*grid);
            }
            let ghost c = (5 * x + y + 1) as nat;
            assert((c - 1) / 5 == x && (c - 1) % 5 == y);
            if !grid[x][y] {
                free.push((x, y));
            }
            y = y + 1;
        }
        x = x + 1;
    }
    free
}

/// Lights the `k`-th free cell of the grid, counting row by row.
pub fn light_free_cell(grid: &mut Grid, k: usize)
    requires
        k < free_cells(grid_view(*old(grid))).len(),
    ensures
        grid_view(*final(grid)) == set_cell(
            grid_view(*old(grid)),
            free_cells(grid_view(*old(grid)))[k as int].0 as int,
            free_cells(grid_view(*old(grid)))[k as int].1 as int,
            true,
        ),
        lit_count(grid_view(*final(grid))) == lit_count(grid_view(*old(grid))) + 1,
{
    proof {
        lemma_grid_view_shape(*grid);
        lemma_free_cells(grid_view(*grid));
    }
    let ghost g = grid_view(*grid);
    let free = free_cell_list(grid);
    let (cx, cy) = free[k];
    assert(is_free(g, cx as int, cy as int));
    let mut row = grid[cx];
    row[cy] = true;
    grid[cx] = row;
    proof {
        lemma_grid_view_shape(*grid);
        assert(grid_view(*grid) =~= set_cell(g, cx as int, cy as int, true));
        lemma_lit_count_set_cell(g, cx as int, cy as int, true);
    }
}

/// Lights one free cell, chosen at random: the random draw picks the
/// index of the cell among the free cells, row by row, so each has the
/// same chance if the generator's draw is uniform.
pub fn add_rand_to_grid(grid: &mut Grid)
    requires
        has_free(grid_view(*old(grid))),
    ensures
        exists|k: int|
            0 <= k < free_cells(grid_view(*old(grid))).len() && grid_view(*final(grid)) == light_kth(
                grid_view(*old(grid)),
                k,
            ),
        exists|i: int, j: int|
            is_free(grid_view(*old(grid)), i, j) && grid_view(*final(grid)) == set_cell(
                grid_view(*old(grid)),
                i,
                j,
                true,
            ),
        lit_count(grid_view(*final(grid))) == lit_count(grid_view(*old(grid))) + 1,
{
    proof {
        lemma_free_cells(grid_view(*grid));
    }
    let ghost g = grid_view(*grid);
    let n = free_cell_list(grid).len();
    let k = random_below(n);
    light_free_cell(grid, k);
    assert(is_free(g, free_cells(g)[k as int].0 as int, free_cells(g)[k as int].1 as int));
    assert(grid_view(*grid) == light_kth(g, k as int));
}

/// `g` with its `k`-th free cell, counting row by row, lit.
pub open spec fn light_kth(g: Seq<Seq<bool>>, k: int) -> Seq<Seq<bool>> {
    set_cell(g, free_cells(g)[k].0 as int, free_cells(g)[k].1 as int, true)
}

/// The grid that lighting the free cells with the indices `draws`, one
/// after the other, makes of a dark grid. It depends on the draws alone.
pub open spec fn targets_from(draws: Seq<int>) -> Seq<Seq<bool>>
    decreases draws.len(),
{
    if draws.len() == 0 {
        dark_grid()
    } else {
        light_kth(targets_from(draws.drop_last()), draws.last())
    }
}

/// Darkens every cell, then lights three free cells at random. What comes
/// out depends only on the three random draws, not on the old grid.
pub fn reset_grid(grid: &mut Grid)
    ensures
        lit_count(grid_view(*final(grid))) == 3,
        exists|draws: Seq<int>|
            draws.len() == 3 && grid_view(*final(grid)) == targets_from(draws),
{
    let mut x: usize = 0;
    while x < GRID_SIZE
        invariant
            0 <= x <= 5,
            forall|i: int, j: int| 0 <= i < x && 0 <= j < 5 ==> !grid[i][j],
        decreases 5 - x,
    {
        let mut y: usize = 0;
        while y < GRID_SIZE
            invariant
                0 <= x < 5,
                0 <= y <= 5,
                forall|i: int, j: int| 0 <= i < x && 0 <= j < 5 ==> !grid[i][j],
                forall|j: int| 0 <= j < y ==> !grid[x as int][j],
            decreases 5 - y,
        {
            let mut row = grid[x];
            row[y] = false;
            grid[x] = row;
            y = y + 1;
        }
        x = x + 1;
    }
    proof {
        lemma_grid_view_shape(*grid);
        assert forall|i: int| 0 <= i < 5 implies #[trigger] grid_view(*grid)[i] =~= dark_grid()[i] by {
        }
        assert(grid_view(*grid) =~= dark_grid());
        lemma_dark_grid_count();
    }
    let ghost mut draws: Seq<int> = seq![];
    let mut n: usize = 0;
    while n < 3
        invariant
            0 <= n <= 3,
            lit_count(grid_view(*grid)) == n,
            draws.len() == n,
            grid_view(*grid) == targets_from(draws),
        decreases 3 - n,
    {
        proof {
            lemma_grid_view_shape(*grid);
            lemma_free_cell_exists(grid_view(*grid));
        }
        let ghost before = grid_view(*grid);
        add_rand_to_grid(grid);
        proof {
            let k = choose|k: int|
                0 <= k < free_cells(before).len() && grid_view(*grid) == light_kth(before, k);
            assert(draws.push(k).drop_last() =~= draws);
            draws = draws.push(k);
        }
        n = n + 1;
    }
}

/// Starts a new round: a fresh grid with three targets, no score, the
/// first target score (35), and the clock not yet started.
pub fn new_game(
    grid: &mut Grid,
    score: &mut i32,
    target_score: &mut i32,
    has_started: &mut bool,
    mouse_holded: &mut bool,
)
    ensures
        lit_count(grid_view(*final(grid))) == 3,
        *final(score) == 0,
        *final(target_score) == 35,
        !*final(has_started),
        !*final(mouse_holded),
{
    reset_grid(grid);
    *score = 0;
    *target_score = 35;
    *has_started = false;
    *mouse_holded = false;
}

/// What a click on row `x`, column `y` does to the grid `g0`, the score and
/// the started flag, giving `g1`, `score1` and `started1`.
pub open spec fn click_outcome(
    g0: Seq<Seq<bool>>,
    x: int,
    y: int,
    score0: int,
    started0: bool,
    g1: Seq<Seq<bool>>,
    score1: int,
    started1: bool,
) -> bool {
    if !(0 <= x < 5 && 0 <= y < 5) {
        g1 == g0 && score1 == score0 && started1 == started0
    } else if g0[x][y] {
        let cleared = set_cell(g0, x, y, false);
        &&& started1
        &&& score1 == score0 + 1
        &&& exists|i: int, j: int| is_free(cleared, i, j) && g1 == set_cell(cleared, i, j, true)
    } else {
        &&& g1 == g0
        &&& started1 == started0
        &&& score1 == (if score0 - 4 < 0 {
            0
        } else {
            score0 - 4
        })
    }
}

/// A click on row `x`, column `y` of the grid. A hit on a lit cell darkens
/// it, lights another at random, scores a point and starts the clock; a
/// miss costs four points, but the score does not drop below zero. A click
/// outside the grid does nothing.
pub fn click_cell(grid: &mut Grid, x: usize, y: usize, score: &mut i32, has_started: &mut bool)
    requires
        x < 5 && y < 5 && old(grid)[x as int][y as int] ==> *old(score) < i32::MAX,
        x < 5 && y < 5 && !old(grid)[x as int][y as int] ==> *old(score) >= i32::MIN + 4,
    ensures
        !(x < 5 && y < 5) ==> *final(grid) == *old(grid) && *final(score) == *old(score)
            && *final(has_started) == *old(has_started),
        x < 5 && y < 5 && old(grid)[x as int][y as int] ==> {
            let cleared = set_cell(grid_view(*old(grid)), x as int, y as int, false);
            &&& *final(has_started)
            &&& *final(score) == *old(score) + 1
            &&& exists|i: int, j: int|
                is_free(cleared, i, j) && grid_view(*final(grid)) == set_cell(cleared, i, j, true)
        },
        x < 5 && y < 5 && !old(grid)[x as int][y as int] ==> {
            &&& *final(grid) == *old(grid)
            &&& *final(has_started) == *old(has_started)
            &&& *final(score) == (if *old(score) - 4 < 0 { 0 } else { *old(score) - 4 })
        },
        lit_count(grid_view(*final(grid))) == lit_count(grid_view(*old(grid))),
        *old(score) >= 0 ==> *final(score) >= 0,
        click_outcome(
            grid_view(*old(grid)),
            x as int,
            y as int,
            *old(score) as int,
            *old(has_started),
            grid_view(*final(grid)),
            *final(score) as int,
            *final(has_started),
        ),
{
    if x < GRID_SIZE && y < GRID_SIZE {
        if grid[x][y] {
            if !*has_started {
                *has_started = true;
            }
            *score = *score + 1;
            let ghost g = grid_view(*grid);
            let mut row = grid[x];
            row[y] = false;
            grid[x] = row;
            proof {
                lemma_grid_view_shape(*old(grid));
                lemma_grid_view_shape(*grid);
                assert(grid_view(*grid) =~= set_cell(g, x as int, y as int, false));
                lemma_lit_count_set_cell(g, x as int, y as int, false);
                assert(is_free(grid_view(*grid), x as int, y as int));
            }
            add_rand_to_grid(grid);
        } else {
            *score = *score - 4;
            if *score < 0 {
                *score = 0;
            }
        }
    }
}

/// What happens when the round's time is up.
#[derive(PartialEq, Eq, Structural, Clone, Copy, Debug)]
pub enum TimeUp {
    /// The target score was missed: the game is over.
    GameOver,
    /// The target was reached: the next round asks for this score.
    NextRound(i32),
}

/// When time is up: below the target the game ends, else the target
/// rises by 35.
pub fn on_time_up(score: i32, target_score: i32) -> (t: TimeUp)
    requires
        score >= target_score ==> target_score <= i32::MAX - 35,
    ensures
        score < target_score ==> t == TimeUp::GameOver,
        score >= target_score ==> t == TimeUp::NextRound((target_score + 35) as i32),
{
    if score < target_score {
        TimeUp::GameOver
    } else {
        TimeUp::NextRound(target_score + 35)
    }
}

/// The entries of the options screen, top to bottom.
#[derive(PartialEq, Eq, Structural, Clone, Copy, Debug)]
pub enum MenuOptions {
    TargetTime,
    TargetScore,
    Reset,
    Back,
}

/// The entry above `o`; above the first comes the last.
pub open spec fn option_above(o: MenuOptions) -> MenuOptions {
    match o {
        MenuOptions::TargetTime => MenuOptions::Back,
        MenuOptions::TargetScore => MenuOptions::TargetTime,
        MenuOptions::Reset => MenuOptions::TargetScore,
        MenuOptions::Back => MenuOptions::Reset,
    }
}

/// The entry below `o`; below the last comes the first.
pub open spec fn option_below(o: MenuOptions) -> MenuOptions {
    match o {
        MenuOptions::TargetTime => MenuOptions::TargetScore,
        MenuOptions::TargetScore => MenuOptions::Reset,
        MenuOptions::Reset => MenuOptions::Back,
        MenuOptions::Back => MenuOptions::TargetTime,
    }
}

/// Moves the selection one entry up, from the first to the last.
pub fn option_up(o: MenuOptions) -> (r: MenuOptions)
    ensures
        r == option_above(o),
{
    match o {
        MenuOptions::TargetTime => MenuOptions::Back,
        MenuOptions::TargetScore => MenuOptions::TargetTime,
        MenuOptions::Reset => MenuOptions::TargetScore,
        MenuOptions::Back => MenuOptions::Reset,
    }
}

/// Moves the selection one entry down, from the last to the first.
pub fn option_down(o: MenuOptions) -> (r: MenuOptions)
    ensures
        r == option_below(o),
{
    match o {
        MenuOptions::TargetTime => MenuOptions::TargetScore,
        MenuOptions::TargetScore => MenuOptions::Reset,
        MenuOptions::Reset => MenuOptions::Back,
        MenuOptions::Back => MenuOptions::TargetTime,
    }
}

/// Moving the selection up and then down (or down and then up) comes back
/// to the same entry, and four moves the same way go round the whole menu.
pub proof fn lemma_menu_moves_invert(o: MenuOptions)
    ensures
        option_below(option_above(o)) == o,
        option_above(option_below(o)) == o,
        option_below(option_below(option_below(option_below(o)))) == o,
        option_below(o) != o,
{
}

/// A key of the options screen, in the order in which they are looked at.
#[derive(PartialEq, Eq, Structural, Clone, Copy, Debug)]
pub enum OptionsKey {
    Escape,
    Up,
    Down,
    Left,
    Right,
    Return,
}

/// What the options screen asks of the rest of the game.
#[derive(PartialEq, Eq, Structural, Clone, Copy, Debug)]
pub enum OptionsAction {
    Nothing,
    /// Go back to the main menu.
    ToMenu,
    /// Shorten the round time by a second, if it is above zero.
    ShorterTime,
    /// Lengthen the round time by a second.
    LongerTime,
    /// Forget the best scores.
    ResetScores,
}

/// The state of the options screen.
pub struct OptionsScreen {
    pub selected: MenuOptions,
    pub target_score: i32,
    /// A key was acted on in the last frame; the next frame acts on none.
    pub button_holded: bool,
}

/// What a key does to the selected entry and the target score.
pub open spec fn key_effect(selected: MenuOptions, target_score: i32, key: OptionsKey) -> (
    MenuOptions,
    int,
    OptionsAction,
) {
    match key {
        OptionsKey::Escape => (selected, target_score as int, OptionsAction::ToMenu),
        OptionsKey::Up => (option_above(selected), target_score as int, OptionsAction::Nothing),
        OptionsKey::Down => (option_below(selected), target_score as int, OptionsAction::Nothing),
        OptionsKey::Left => match selected {
            MenuOptions::TargetTime => (selected, target_score as int, OptionsAction::ShorterTime),
            MenuOptions::TargetScore => (
                selected,
                if target_score > 0 {
                    target_score - 1
                } else {
                    target_score as int
                },
                OptionsAction::Nothing,
            ),
            _ => (selected, target_score as int, OptionsAction::Nothing),
        },
        OptionsKey::Right => match selected {
            MenuOptions::TargetTime => (selected, target_score as int, OptionsAction::LongerTime),
            MenuOptions::TargetScore => (selected, target_score + 1, OptionsAction::Nothing),
            _ => (selected, target_score as int, OptionsAction::Nothing),
        },
        OptionsKey::Return => match selected {
            MenuOptions::Reset => (selected, target_score as int, OptionsAction::ResetScores),
            MenuOptions::Back => (selected, target_score as int, OptionsAction::ToMenu),
            _ => (selected, target_score as int, OptionsAction::Nothing),
        },
    }
}

/// One frame of the options screen with `key` pressed (or none). A key is
/// acted on only if none was in the frame before.
pub fn options_step(screen: &mut OptionsScreen, key: Option<OptionsKey>) -> (a: OptionsAction)
    requires
        key == Some(OptionsKey::Right) && !old(screen).button_holded && old(screen).selected
            == MenuOptions::TargetScore ==> old(screen).target_score < i32::MAX,
    ensures
        final(screen).button_holded == (key is Some && !old(screen).button_holded),
        (key is None || old(screen).button_holded) ==> {
            &&& a == OptionsAction::Nothing
            &&& final(screen).selected == old(screen).selected
            &&& final(screen).target_score == old(screen).target_score
        },
        key is Some && !old(screen).button_holded ==> {
            let (sel, ts, act) = key_effect(
                old(screen).selected,
                old(screen).target_score,
                key.unwrap(),
            );
            &&& final(screen).selected == sel
            &&& final(screen).target_score == ts
            &&& a == act
        },
{
    if screen.button_holded || key.is_none() {
        screen.button_holded = false;
        return OptionsAction::Nothing;
    }
    let k = key.unwrap();
    screen.button_holded = true;
    match k {
        OptionsKey::Escape => OptionsAction::ToMenu,
        OptionsKey::Up => {
            screen.selected = option_up(screen.selected);
            OptionsAction::Nothing
        },
        OptionsKey::Down => {
            screen.selected = option_down(screen.selected);
            OptionsAction::Nothing
        },
        OptionsKey::Left => match screen.selected {
            MenuOptions::TargetTime => OptionsAction::ShorterTime,
            MenuOptions::TargetScore => {
                if screen.target_score > 0 {
                    screen.target_score = screen.target_score - 1;
                }
                OptionsAction::Nothing
            },
            _ => OptionsAction::Nothing,
        },
        OptionsKey::Right => match screen.selected {
            MenuOptions::TargetTime => OptionsAction::LongerTime,
            MenuOptions::TargetScore => {
                screen.target_score = screen.target_score + 1;
                OptionsAction::Nothing
            },
            _ => OptionsAction::Nothing,
        },
        OptionsKey::Return => match screen.selected {
            MenuOptions::Reset => OptionsAction::ResetScores,
            MenuOptions::Back => OptionsAction::ToMenu,
            _ => OptionsAction::Nothing,
        },
    }
}

/// The screens of the game.
#[derive(PartialEq, Eq, Structural, Clone, Copy, Debug)]
pub enum GameState {
    Menu,
    Game,
    End,
    Options,
}

/// What the main menu does in a frame.
pub struct MenuStep {
    /// A new game is set up.
    pub new_game: bool,
    /// The screen of the next frame.
    pub next: GameState,
    /// The program ends.
    pub quit: bool,
}

/// The main menu: a left click starts a game, a right click opens the
/// options (and wins over a left click in the same frame), Escape quits.
pub fn menu_step(left_click: bool, right_click: bool, escape: bool) -> (s: MenuStep)
    ensures
        s.new_game == left_click,
        s.next == (if right_click {
            GameState::Options
        } else if left_click {
            GameState::Game
        } else {
            GameState::Menu
        }),
        s.quit == escape,
{
    let mut next = GameState::Menu;
    if left_click {
        next = GameState::Game;
    }
    if right_click {
        next = GameState::Options;
    }
    MenuStep { new_game: left_click, next, quit: escape }
}

/// `s` with zeros put in front until it is at least `width` long.
pub open spec fn pad_zeros(s: Seq<char>, width: nat) -> Seq<char>
    decreases width - s.len(),
{
    if s.len() < width {
        pad_zeros(seq!['0'] + s, width)
    } else {
        s
    }
}

/// The score as the game shows it: in decimal, with zeros in front to at
/// least three characters.
pub fn zero_pad3(value: i32) -> (s: String)
    ensures
        s@ == pad_zeros(decimal(value as int), 3),
{
    let mut v: Vec<char> = Vec::new();
    push_decimal(&mut v, value as i64);
    assert(v@ =~= decimal(value as int));
    while v.len() < 3
        invariant
            pad_zeros(v@, 3) == pad_zeros(decimal(value as int), 3),
        decreases 3 - v.len(),
    {
        let ghost before = v@;
        v.insert(0, '0');
        assert(v@ =~= seq!['0'] + before);
    }
    string_from_chars(&v)
}

/// The state of a game that lasts from frame to frame, but for the clock.
pub struct Session {
    pub grid: Grid,
    pub score: i32,
    pub target_score: i32,
    /// The clock runs: the first target was hit.
    pub has_started: bool,
    /// The mouse button was down in the last frame.
    pub mouse_holded: bool,
    /// The best scores, best first.
    pub saved_data: Vec<SaveDataUnit>,
}

/// What holds of a game in every frame: three targets are lit, the score
/// is not negative, and one to five best scores are kept, best first.
pub open spec fn session_ok(s: Session) -> bool {
    &&& lit_count(grid_view(s.grid)) == 3
    &&& s.score >= 0
    &&& saved_ok(units_view(s.saved_data@))
}

/// A game as the program starts it, with these best scores: three targets,
/// no score, the target score 40, the clock stopped.
pub fn new_session(saved_data: Vec<SaveDataUnit>) -> (s: Session)
    requires
        saved_ok(units_view(saved_data@)),
    ensures
        session_ok(s),
        s.score == 0,
        s.target_score == 40,
        !s.has_started,
        !s.mouse_holded,
        s.saved_data@ == saved_data@,
{
    let mut grid: Grid = [[false, false, false, false, false]; 5];
    reset_grid(&mut grid);
    Session {
        grid,
        score: 0,
        target_score: 40,
        has_started: false,
        mouse_holded: false,
        saved_data,
    }
}

/// Starts a new round of the game (`new_game`), keeping the best scores.
pub fn start_round(s: &mut Session)
    requires
        saved_ok(units_view(old(s).saved_data@)),
    ensures
        session_ok(*final(s)),
        final(s).score == 0,
        final(s).target_score == 35,
        !final(s).has_started,
        !final(s).mouse_holded,
        final(s).saved_data@ == old(s).saved_data@,
{
    new_game(&mut s.grid, &mut s.score, &mut s.target_score, &mut s.has_started, &mut s.mouse_holded);
}

/// What a frame of play asks of the rest of the program.
pub struct GameFrame {
    /// The time ran out below the target: the score was placed among the
    /// best scores, which are to be saved.
    pub game_over: bool,
    /// The time ran out with the target reached: the round time grows.
    pub next_round: bool,
    /// A new game was started: the clock is to be reset.
    pub new_game: bool,
    /// The next frame shows the end screen.
    pub to_end: bool,
    /// The time ran out below the target, but the machine's clock could not
    /// be read as today's date: the frame stopped there and changed nothing.
    pub clock_failed: bool,
}

/// One frame of play. `time_up` says whether the clock has reached the
/// round time; `left` whether the mouse button is down, over row `x`,
/// column `y`; `key_r` and `key_l` whether R (new game) and L (give up) are
/// down. First the time is checked, then a new press of the button is a
/// click, then R and L are handled. Where the round is lost but today's
/// date cannot be read, the frame stops at once (`clock_failed`).
pub fn game_frame(
    s: &mut Session,
    time_up: bool,
    left: bool,
    x: usize,
    y: usize,
    key_r: bool,
    key_l: bool,
) -> (f: GameFrame)
    requires
        session_ok(*old(s)),
        time_up && old(s).score >= old(s).target_score ==> old(s).target_score <= i32::MAX - 35,
        left && !old(s).mouse_holded && x < 5 && y < 5 && old(s).grid[x as int][y as int]
            ==> old(s).score < i32::MAX,
    ensures
        session_ok(*final(s)),
        f.clock_failed ==> {
            &&& time_up && old(s).score < old(s).target_score
            &&& *final(s) == *old(s)
            &&& !f.game_over && !f.next_round && !f.new_game && !f.to_end
        },
        !f.clock_failed ==> {
            &&& f.game_over == (time_up && old(s).score < old(s).target_score)
            &&& f.next_round == (time_up && old(s).score >= old(s).target_score)
            &&& f.new_game == key_r
            &&& f.to_end == (f.game_over || key_l)
            &&& f.game_over ==> exists|date: Seq<char>|
                is_date_text(date) && units_view(final(s).saved_data@) == top5(
                    sort_desc(units_view(old(s).saved_data@).push((old(s).score as int, date))),
                )
            &&& !f.game_over ==> final(s).saved_data@ == old(s).saved_data@
            &&& key_r ==> {
                &&& final(s).score == 0
                &&& final(s).target_score == 35
                &&& !final(s).has_started
                &&& !final(s).mouse_holded
            }
            &&& !key_r ==> {
                &&& final(s).target_score == (if f.next_round {
                    old(s).target_score + 35
                } else {
                    old(s).target_score as int
                })
                &&& final(s).mouse_holded == left
                &&& (left && !old(s).mouse_holded) ==> click_outcome(
                    grid_view(old(s).grid),
                    x as int,
                    y as int,
                    old(s).score as int,
                    old(s).has_started,
                    grid_view(final(s).grid),
                    final(s).score as int,
                    final(s).has_started,
                )
                &&& !(left && !old(s).mouse_holded) ==> {
                    &&& final(s).grid == old(s).grid
                    &&& final(s).score == old(s).score
                    &&& final(s).has_started == old(s).has_started
                }
            }
        },
{
    let mut game_over = false;
    let mut next_round = false;
    if time_up {
        match on_time_up(s.score, s.target_score) {
            TimeUp::GameOver => {
                let date = match get_date() {
                    Some(date) => date,
                    None => {
                        return GameFrame {
                            game_over: false,
                            next_round: false,
                            new_game: false,
                            to_end: false,
                            clock_failed: true,
                        };
                    },
                };
                let mut data: Vec<SaveDataUnit> = Vec::new();
                std::mem::swap(&mut data, &mut s.saved_data);
                let ghost d = date@;
                s.saved_data = place_score_to_save(s.score, date, data);
                proof {
                    lemma_place_keeps_saved_ok(units_view(old(s).saved_data@), (s.score as int, d));
                }
                game_over = true;
            },
            TimeUp::NextRound(t) => {
                s.target_score = t;
                next_round = true;
            },
        }
    }
    if left && !s.mouse_holded {
        s.mouse_holded = true;
        click_cell(&mut s.grid, x, y, &mut s.score, &mut s.has_started);
    }
    if !left {
        s.mouse_holded = false;
    }
    if key_r {
        start_round(s);
    }
    GameFrame {
        game_over,
        next_round,
        new_game: key_r,
        to_end: game_over || key_l,
        clock_failed: false,
    }
}

/// What the end screen does in a frame.
pub struct EndStep {
    /// The next frame shows the main menu.
    pub to_menu: bool,
    /// The program ends.
    pub quit: bool,
}

/// The end screen: Space or Return goes back to the main menu, Escape quits.
pub fn end_step(space_or_return: bool, escape: bool) -> (e: EndStep)
    ensures
        e.to_menu == space_or_return,
        e.quit == escape,
{
    EndStep { to_menu: space_or_return, quit: escape }
}

} // verus!

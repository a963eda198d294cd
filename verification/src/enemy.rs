use vstd::prelude::*;

use crate::grid::{grid_wf, hits, in_grid, is_solid, passable, passable_at, replace_all, take_markers};

verus! {

/// A patrolling enemy: walks along its platform, turns at walls and edges,
/// and falls when nothing is below it.
#[derive(Clone, Copy, Debug)]
pub struct Enemy {
    pub col: i32,
    pub row: i32,
    /// -1 walks left, 1 walks right.
    pub dir: i32,
}

/// The enemies of a grid: one at each `'@'`, in reading order, walking right.
pub open spec fn spawned_enemies(g: Seq<Seq<char>>) -> Seq<Enemy> {
    hits(g, '@').map_values(|p: (int, int)| Enemy { col: p.1 as i32, row: p.0 as i32, dir: 1 })
}

/// Whether the cell below `(col, row)` carries an enemy: a solid tile, or
/// the bottom edge of the grid.
pub open spec fn has_ground(g: Seq<Seq<char>>, col: int, row: int) -> bool {
    row + 1 >= g.len() || is_solid(g[row + 1][col])
}

/// One tick of an enemy.
pub open spec fn enemy_step(e: Enemy, g: Seq<Seq<char>>) -> Enemy {
    let new_col = e.col + e.dir;
    let moved = if !passable(g, new_col, e.row as int) || !has_ground(g, new_col, e.row as int) {
        Enemy { dir: -e.dir as i32, ..e }
    } else {
        Enemy { col: new_col as i32, ..e }
    };
    if passable(g, moved.col as int, moved.row + 1) {
        Enemy { row: (moved.row + 1) as i32, ..moved }
    } else {
        moved
    }
}

/// An enemy inside the grid, walking left or right.
pub open spec fn enemy_wf(e: Enemy, g: Seq<Seq<char>>) -> bool {
    &&& in_grid(g, e.col as int, e.row as int)
    &&& e.dir == 1 || e.dir == -1
}

/// What `Enemy::update` needs so that its arithmetic does not overflow.
pub open spec fn enemy_step_ok(e: Enemy) -> bool {
    &&& e.dir != i32::MIN
    &&& i32::MIN <= e.col + e.dir <= i32::MAX
    &&& e.row < i32::MAX
}

impl Enemy {
    /// Takes every `'@'` out of the grid and makes an enemy there.
    pub fn spawn_all(grid: &mut Vec<Vec<char>>) -> (enemies: Vec<Enemy>)
        ensures
            final(grid).deep_view() == replace_all(old(grid).deep_view(), '@', ' '),
            enemies@ == spawned_enemies(old(grid).deep_view()),
    {
        let ghost g0 = grid.deep_view();
        let cells = take_markers(grid, '@');
        let mut enemies: Vec<Enemy> = Vec::new();
        let mut k: usize = 0;
        while k < cells.len()
            invariant
                k <= cells@.len(),
                cells@.len() == hits(g0, '@').len(),
                forall|j: int|
                    0 <= j < cells@.len() ==> (#[trigger] cells@[j]).0 == hits(g0, '@')[j].0
                        && cells@[j].1 == hits(g0, '@')[j].1,
                enemies@ == spawned_enemies(g0).take(k as int),
            decreases cells@.len() - k,
        {
            let (r, c) = cells[k];
            enemies.push(Enemy { col: c as i32, row: r as i32, dir: 1 });
            assert(enemies@ =~= spawned_enemies(g0).take(k + 1));
            k = k + 1;
        }
        assert(enemies@ =~= spawned_enemies(g0));
        enemies
    }

    /// One tick: step forward unless a wall or an edge is ahead (then turn
    /// round), then fall one row if the cell below is free.
    pub fn update(&mut self, grid: &Vec<Vec<char>>)
        requires
            grid_wf(grid.deep_view()),
            enemy_step_ok(*old(self)),
        ensures
            *final(self) == enemy_step(*old(self), grid.deep_view()),
            enemy_wf(*old(self), grid.deep_view()) ==> enemy_wf(*final(self), grid.deep_view()),
    {
        let new_col = self.col + self.dir;
        if !self.is_passable(grid, new_col, self.row) || !self.has_ground(grid, new_col, self.row) {
            self.dir = -self.dir;
        } else {
            self.col = new_col;
        }
        let below = self.row + 1;
        if self.is_passable(grid, self.col, below) {
            self.row = below;
        }
    }

    fn is_passable(&self, grid: &Vec<Vec<char>>, col: i32, row: i32) -> (b: bool)
        requires
            grid_wf(grid.deep_view()),
        ensures
            b == passable(grid.deep_view(), col as int, row as int),
    {
        passable_at(grid, col, row)
    }

    fn has_ground(&self, grid: &Vec<Vec<char>>, col: i32, row: i32) -> (b: bool)
        requires
            grid_wf(grid.deep_view()),
            in_grid(grid.deep_view(), col as int, row as int),
        ensures
            b == has_ground(grid.deep_view(), col as int, row as int),
    {
        let below = row + 1;
        if below >= grid.len() as i32 {
            return true;
        }
        proof {
            assert(grid.deep_view()[below as int].len() == grid.deep_view()[0].len());
        }
        let ch = grid[below as usize][col as usize];
        ch == '#' || ch == '=' || ch == 'H'
    }
}

/// Law: an enemy whose next cell (in its direction) is free and stands on a
/// `'#'`, `'='` or `'H'` tile steps into it and keeps its direction.
pub proof fn lemma_enemy_walks_on(e: Enemy, g: Seq<Seq<char>>)
    requires
        grid_wf(g),
        0 <= e.col + e.dir < g[0].len(),
        0 <= e.row,
        e.row + 1 < g.len(),
        g[e.row as int][e.col + e.dir] != '#',
        g[e.row as int][e.col + e.dir] != '=',
        g[e.row as int][e.col + e.dir] != 'H',
        g[e.row + 1][e.col + e.dir] == '#' || g[e.row + 1][e.col + e.dir] == '=' || g[e.row + 1][e.col
            + e.dir] == 'H',
    ensures
        enemy_step(e, g) == (Enemy { col: (e.col + e.dir) as i32, ..e }),
{
    assert(g[e.row + 1].len() == g[0].len());
    assert(g[e.row as int].len() == g[0].len());
}

} // verus!

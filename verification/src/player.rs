use vstd::prelude::*;

use crate::grid::{
    cell_at, cols_of, grid_wf, hits, in_grid, lemma_first_hit, lemma_no_hits, passable,
    passable_at, set_cell, tile, tile_at,
};

verus! {

/// What happened to the player during one tick, for the sounds.
#[derive(Clone, Copy, Debug)]
pub struct PlayerEvents {
    pub jumped: bool,
    pub stepped: bool,
    pub died: bool,
    pub sprung: bool,
}

/// The keys held down during a tick.
#[derive(Clone, Copy, Debug)]
pub struct Keys {
    pub a: bool,
    pub left: bool,
    pub d: bool,
    pub right: bool,
    pub w: bool,
    pub up: bool,
    pub space: bool,
    pub s: bool,
    pub down: bool,
}

/// The player, a dollar sign on the grid.
#[derive(Clone, Copy, Debug)]
pub struct Player {
    pub col: i32,
    pub row: i32,
    pub jump_remaining: i32,
    pub alive: bool,
    pub stunned: bool,
    pub on_ladder: bool,
    pub spawn_col: i32,
    pub spawn_row: i32,
    pub lives: i32,
}

/// Lives a player starts with.
pub const START_LIVES: i32 = 10;

/// A fresh player standing at `(col, row)`.
pub open spec fn player_at(col: i32, row: i32) -> Player {
    Player {
        col,
        row,
        jump_remaining: 0,
        alive: true,
        stunned: false,
        on_ladder: false,
        spawn_col: col,
        spawn_row: row,
        lives: START_LIVES,
    }
}

/// The player of a grid: at its first `'$'` in reading order, or at
/// `(1, 1)` where it has none.
pub open spec fn spawned_player(g: Seq<Seq<char>>) -> Player {
    let h = hits(g, '$');
    if h.len() > 0 {
        player_at(h[0].1 as i32, h[0].0 as i32)
    } else {
        player_at(1, 1)
    }
}

/// The grid once the player has been taken out of it: its first `'$'`
/// becomes a space.
pub open spec fn grid_without_player(g: Seq<Seq<char>>) -> Seq<Seq<char>> {
    let h = hits(g, '$');
    if h.len() > 0 {
        g.update(h[0].0, g[h[0].0].update(h[0].1, ' '))
    } else {
        g
    }
}

/// Horizontal direction asked for: right wins over left.
pub open spec fn key_dx(k: Keys) -> int {
    if k.d || k.right {
        1
    } else if k.a || k.left {
        -1
    } else {
        0
    }
}

/// The up keys: W, Up or Space.
pub open spec fn want_up(k: Keys) -> bool {
    k.w || k.up || k.space
}

/// The down keys: S or Down.
pub open spec fn want_down(k: Keys) -> bool {
    k.s || k.down
}

/// Standing on something: the cell below is not passable.
pub open spec fn on_ground(g: Seq<Seq<char>>, p: Player) -> bool {
    !passable(g, p.col as int, p.row + 1)
}

/// Tiles that kill.
pub open spec fn is_spike(ch: char) -> bool {
    ch == '^' || ch == 'v' || ch == '>' || ch == '<'
}

/// Losing a life: nothing while stunned; otherwise one life less, and
/// either death (no lives left) or a stun.
pub open spec fn die_spec(p: Player) -> Player {
    if p.stunned {
        p
    } else if p.lives - 1 <= 0 {
        Player { lives: (p.lives - 1) as i32, alive: false, ..p }
    } else {
        Player { lives: (p.lives - 1) as i32, stunned: true, jump_remaining: 0, ..p }
    }
}

/// Back at the spawn point, free to move.
pub open spec fn respawn_spec(p: Player) -> Player {
    Player {
        stunned: false,
        on_ladder: false,
        col: p.spawn_col,
        row: p.spawn_row,
        jump_remaining: 0,
        ..p
    }
}

/// Stepping down onto a ladder from the ground.
pub open spec fn enters_ladder(p: Player, g: Seq<Seq<char>>, k: Keys) -> bool {
    !p.on_ladder && on_ground(g, p) && tile(g, p.col as int, p.row + 1) == 'H' && want_down(k)
}

/// Movement on a ladder: up and down through `'H'` tiles (climbing off the
/// top onto a free tile), sideways off the ladder.
pub open spec fn ladder_move(p: Player, g: Seq<Seq<char>>, k: Keys) -> Player {
    let p1 = if want_up(k) {
        if tile(g, p.col as int, p.row - 1) == 'H' {
            Player { row: (p.row - 1) as i32, ..p }
        } else if passable(g, p.col as int, p.row - 1) {
            Player { row: (p.row - 1) as i32, on_ladder: false, ..p }
        } else {
            p
        }
    } else {
        p
    };
    let p2 = if want_down(k) && tile(g, p1.col as int, p1.row + 1) == 'H' {
        Player { row: (p1.row + 1) as i32, ..p1 }
    } else {
        p1
    };
    let dx = key_dx(k);
    if dx != 0 && passable(g, p2.col + dx, p2.row as int) {
        Player { col: (p2.col + dx) as i32, on_ladder: false, ..p2 }
    } else {
        p2
    }
}

/// Normal movement before springs and slides: an up key (W, Up or Space)
/// on the ground
/// starts a jump of two rows; sideways walking (not on a slide), stepping
/// onto a ladder; then one row up while a jump lasts, or one row down.
/// Also tells whether a jump started.
pub open spec fn walk(p: Player, g: Seq<Seq<char>>, k: Keys) -> (Player, bool) {
    let jumped = want_up(k) && on_ground(g, p);
    let q0 = if jumped {
        Player { jump_remaining: 2, ..p }
    } else {
        p
    };
    let here = g[p.row as int][p.col as int];
    let on_slide = here == '/' || here == '\\';
    let dx = key_dx(k);
    let q1 = if !on_slide && dx != 0 {
        if tile(g, q0.col + dx, q0.row as int) == 'H' {
            Player { col: (q0.col + dx) as i32, on_ladder: true, ..q0 }
        } else if passable(g, q0.col + dx, q0.row as int) {
            Player { col: (q0.col + dx) as i32, ..q0 }
        } else {
            q0
        }
    } else {
        q0
    };
    let q2 = if q1.jump_remaining > 0 {
        if passable(g, q1.col as int, q1.row - 1) {
            Player { row: (q1.row - 1) as i32, jump_remaining: (q1.jump_remaining - 1) as i32, ..q1 }
        } else {
            Player { jump_remaining: 0, ..q1 }
        }
    } else if passable(g, q1.col as int, q1.row + 1) {
        Player { row: (q1.row + 1) as i32, ..q1 }
    } else {
        q1
    };
    (q2, jumped)
}

/// Normal movement: `walk`, then a spring under the player lifts it out
/// and one below launches a jump of four rows, then a slide pushes it one
/// tile. Also tells whether a jump started and whether a spring fired.
pub open spec fn normal_move(p: Player, g: Seq<Seq<char>>, k: Keys) -> (Player, bool, bool) {
    let (q2, jumped) = walk(p, g, k);
    let q3 = if g[q2.row as int][q2.col as int] == 'z' {
        Player { row: (q2.row - 1) as i32, ..q2 }
    } else {
        q2
    };
    let sprung = 0 <= q3.row + 1 < g.len() && g[q3.row + 1][q3.col as int] == 'z';
    let q4 = if sprung {
        Player { jump_remaining: 4, ..q3 }
    } else {
        q3
    };
    let cur = g[q4.row as int][q4.col as int];
    let sdx: int = if cur == '/' {
        -1
    } else if cur == '\\' {
        1
    } else {
        0
    };
    let q5 = if sdx != 0 && passable(g, q4.col + sdx, q4.row as int) {
        Player { col: (q4.col + sdx) as i32, ..q4 }
    } else {
        q4
    };
    (q5, jumped, sprung)
}

/// Movement of a living player in one tick, with whether a jump started and
/// whether a spring fired.
pub open spec fn move_step(p: Player, g: Seq<Seq<char>>, k: Keys) -> (Player, bool, bool) {
    if enters_ladder(p, g, k) {
        (Player { on_ladder: true, row: (p.row + 1) as i32, ..p }, false, false)
    } else if p.on_ladder {
        (ladder_move(p, g, k), false, false)
    } else {
        normal_move(p, g, k)
    }
}

/// One tick of the player: a dead or stunned player does nothing; otherwise
/// it moves, dies on spikes, and reports what happened.
pub open spec fn player_step(p: Player, g: Seq<Seq<char>>, k: Keys) -> (Player, PlayerEvents) {
    if !p.alive || p.stunned {
        (p, PlayerEvents { jumped: false, stepped: false, died: false, sprung: false })
    } else {
        let (m, jumped, sprung) = move_step(p, g, k);
        let died = is_spike(g[m.row as int][m.col as int]);
        let f = if died {
            die_spec(m)
        } else {
            m
        };
        let stepped = f.col != p.col && on_ground(g, f);
        (f, PlayerEvents { jumped, stepped, died, sprung })
    }
}

/// A spring in the top row would lift the player out of the grid.
pub open spec fn lifted_out(p: Player, g: Seq<Seq<char>>, k: Keys) -> bool {
    let q2 = walk(p, g, k).0;
    !enters_ladder(p, g, k) && !p.on_ladder && q2.row == 0 && g[0][q2.col as int] == 'z'
}

/// What `Player::update` needs: a living player stands inside a rectangular
/// grid, no spring lifts it out of the grid, and a death can take a life.
pub open spec fn player_step_ok(p: Player, g: Seq<Seq<char>>, k: Keys) -> bool {
    p.alive && !p.stunned ==> {
        &&& grid_wf(g)
        &&& in_grid(g, p.col as int, p.row as int)
        &&& !lifted_out(p, g, k)
        &&& p.lives > i32::MIN
    }
}


/// Lemma: walking keeps a player inside the grid.
pub proof fn lemma_walk_in_grid(p: Player, g: Seq<Seq<char>>, k: Keys)
    requires
        grid_wf(g),
        in_grid(g, p.col as int, p.row as int),
    ensures
        in_grid(g, walk(p, g, k).0.col as int, walk(p, g, k).0.row as int),
{
}

/// Lemma: without a spring in the top row, no spring lifts the player out of
/// the grid.
pub proof fn lemma_no_top_spring(p: Player, g: Seq<Seq<char>>, k: Keys)
    requires
        grid_wf(g),
        in_grid(g, p.col as int, p.row as int),
        forall|c: int| 0 <= c < cols_of(g) ==> #[trigger] g[0][c] != 'z',
    ensures
        !lifted_out(p, g, k),
{
    lemma_walk_in_grid(p, g, k);
}

/// Lemma: a tick takes at most one life.
pub proof fn lemma_step_lives(p: Player, g: Seq<Seq<char>>, k: Keys)
    requires
        p.lives > i32::MIN,
    ensures
        player_step(p, g, k).0.lives == p.lives || player_step(p, g, k).0.lives == p.lives - 1,
{
}

impl Player {
    /// Takes the first `'$'` out of the grid and puts the player there, with
    /// `START_LIVES` lives; `(1, 1)` where the grid has none.
    pub fn spawn(grid: &mut Vec<Vec<char>>) -> (p: Player)
        ensures
            p == spawned_player(old(grid).deep_view()),
            final(grid).deep_view() == grid_without_player(old(grid).deep_view()),
    {
        let ghost g0 = grid.deep_view();
        let rows = grid.len();
        let mut r: usize = 0;
        while r < rows
            invariant
                rows == g0.len(),
                r <= rows,
                grid.deep_view() == g0,
                g0 == old(grid).deep_view(),
                forall|i: int, j: int|
                    0 <= i < r && 0 <= j < g0[i].len() ==> #[trigger] g0[i][j] != '$',
            decreases rows - r,
        {
            let cols = grid[r].len();
            assert(g0[r as int].len() == cols);
            let mut c: usize = 0;
            while c < cols
                invariant
                    rows == g0.len(),
                    r < rows,
                    cols == g0[r as int].len(),
                    c <= cols,
                    grid.deep_view() == g0,
                    g0 == old(grid).deep_view(),
                    forall|i: int, j: int|
                        0 <= i < r && 0 <= j < g0[i].len() ==> #[trigger] g0[i][j] != '$',
                    forall|j: int| 0 <= j < c ==> #[trigger] g0[r as int][j] != '$',
                decreases cols - c,
            {
                assert(g0[r as int][c as int] == grid@[r as int]@[c as int]);
                if grid[r][c] == '$' {
                    proof {
                        lemma_first_hit(g0, '$', r as int, c as int);
                    }
                    set_cell(grid, r, c, ' ');
                    let ci: i32 = c as i32;
                    let ri: i32 = r as i32;
                    assert(ci == (hits(g0, '$')[0].1) as i32);
                    assert(ri == (hits(g0, '$')[0].0) as i32);
                    assert(grid.deep_view() =~= grid_without_player(g0));
                    return Player {
                        col: ci,
                        row: ri,
                        jump_remaining: 0,
                        alive: true,
                        stunned: false,
                        on_ladder: false,
                        spawn_col: ci,
                        spawn_row: ri,
                        lives: START_LIVES,
                    };
                }
                c = c + 1;
            }
            r = r + 1;
        }
        proof {
            lemma_no_hits(g0, '$', rows as int);
        }
        Player {
            col: 1,
            row: 1,
            jump_remaining: 0,
            alive: true,
            stunned: false,
            on_ladder: false,
            spawn_col: 1,
            spawn_row: 1,
            lives: START_LIVES,
        }
    }

    /// Loses a life (see `die_spec`).
    pub fn die(&mut self)
        requires
            old(self).stunned || old(self).lives > i32::MIN,
        ensures
            *final(self) == die_spec(*old(self)),
    {
        if self.stunned {
            return;
        }
        self.lives = self.lives - 1;
        if self.lives <= 0 {
            self.alive = false;
        } else {
            self.stunned = true;
            self.jump_remaining = 0;
        }
    }

    /// Back to the spawn point (see `respawn_spec`).
    pub fn respawn(&mut self)
        ensures
            *final(self) == respawn_spec(*old(self)),
    {
        self.stunned = false;
        self.on_ladder = false;
        self.col = self.spawn_col;
        self.row = self.spawn_row;
        self.jump_remaining = 0;
    }


    fn ladder_step(&mut self, grid: &Vec<Vec<char>>, keys: &Keys, dx: i32)
        requires
            grid_wf(grid.deep_view()),
            in_grid(grid.deep_view(), old(self).col as int, old(self).row as int),
            dx == key_dx(*keys),
        ensures
            *final(self) == ladder_move(*old(self), grid.deep_view(), *keys),
            in_grid(grid.deep_view(), final(self).col as int, final(self).row as int),
    {
        if keys.w || keys.up || keys.space {
            let above = tile_at(grid, self.col, self.row - 1);
            if above == 'H' {
                self.row = self.row - 1;
            } else if passable_at(grid, self.col, self.row - 1) {
                self.row = self.row - 1;
                self.on_ladder = false;
            }
        }
        if keys.s || keys.down {
            if tile_at(grid, self.col, self.row + 1) == 'H' {
                self.row = self.row + 1;
            }
        }
        if dx != 0 {
            let new_col = self.col + dx;
            if passable_at(grid, new_col, self.row) {
                self.col = new_col;
                self.on_ladder = false;
            }
        }
    }

    fn walk_step(&mut self, grid: &Vec<Vec<char>>, keys: &Keys, dx: i32) -> (jumped: bool)
        requires
            grid_wf(grid.deep_view()),
            in_grid(grid.deep_view(), old(self).col as int, old(self).row as int),
            dx == key_dx(*keys),
        ensures
            (*final(self), jumped) == walk(*old(self), grid.deep_view(), *keys),
            in_grid(grid.deep_view(), final(self).col as int, final(self).row as int),
    {
        let mut jumped = false;
        if (keys.w || keys.up || keys.space) && self.on_ground(grid) {
            self.jump_remaining = 2;
            jumped = true;
        }
        let here = cell_at(grid, self.col, self.row);
        let on_slide = here == '/' || here == '\\';
        if !on_slide && dx != 0 {
            let new_col = self.col + dx;
            if tile_at(grid, new_col, self.row) == 'H' {
                self.col = new_col;
                self.on_ladder = true;
            } else if passable_at(grid, new_col, self.row) {
                self.col = new_col;
            }
        }
        if self.jump_remaining > 0 {
            let new_row = self.row - 1;
            if passable_at(grid, self.col, new_row) {
                self.row = new_row;
                self.jump_remaining = self.jump_remaining - 1;
            } else {
                self.jump_remaining = 0;
            }
        } else {
            let new_row = self.row + 1;
            if passable_at(grid, self.col, new_row) {
                self.row = new_row;
            }
        }
        jumped
    }

    fn normal_step(&mut self, grid: &Vec<Vec<char>>, keys: &Keys, dx: i32) -> (res: (bool, bool))
        requires
            grid_wf(grid.deep_view()),
            in_grid(grid.deep_view(), old(self).col as int, old(self).row as int),
            dx == key_dx(*keys),
            !(walk(*old(self), grid.deep_view(), *keys).0.row == 0 && grid.deep_view()[0][walk(
                *old(self),
                grid.deep_view(),
                *keys,
            ).0.col as int] == 'z'),
        ensures
            (*final(self), res.0, res.1) == normal_move(*old(self), grid.deep_view(), *keys),
            in_grid(grid.deep_view(), final(self).col as int, final(self).row as int),
    {
        let jumped = self.walk_step(grid, keys, dx);
        if cell_at(grid, self.col, self.row) == 'z' {
            self.row = self.row - 1;
        }
        let below = self.row + 1;
        let mut sprung = false;
        if below >= 0 && below < grid.len() as i32 {
            if cell_at(grid, self.col, below) == 'z' {
                self.jump_remaining = 4;
                sprung = true;
            }
        }
        let current = cell_at(grid, self.col, self.row);
        let slide_dx: i32 = if current == '/' {
            -1
        } else if current == '\\' {
            1
        } else {
            0
        };
        if slide_dx != 0 {
            let new_col = self.col + slide_dx;
            if passable_at(grid, new_col, self.row) {
                self.col = new_col;
            }
        }
        (jumped, sprung)
    }

    /// One tick of the player (see `player_step`), with the keys held down.
    pub fn update(&mut self, grid: &Vec<Vec<char>>, keys: &Keys) -> (events: PlayerEvents)
        requires
            player_step_ok(*old(self), grid.deep_view(), *keys),
        ensures
            (*final(self), events) == player_step(*old(self), grid.deep_view(), *keys),
            in_grid(grid.deep_view(), old(self).col as int, old(self).row as int) ==> in_grid(
                grid.deep_view(),
                final(self).col as int,
                final(self).row as int,
            ),
    {
        let mut events = PlayerEvents { jumped: false, stepped: false, died: false, sprung: false };
        if !self.alive || self.stunned {
            return events;
        }
        let old_col = self.col;
        let mut dx: i32 = 0;
        if keys.a || keys.left {
            dx = -1;
        }
        if keys.d || keys.right {
            dx = 1;
        }
        let want_down = keys.s || keys.down;
        let below_tile = tile_at(grid, self.col, self.row + 1);
        if !self.on_ladder && self.on_ground(grid) && below_tile == 'H' && want_down {
            self.on_ladder = true;
            self.row = self.row + 1;
        } else if self.on_ladder {
            self.ladder_step(grid, keys, dx);
        } else {
            let (jumped, sprung) = self.normal_step(grid, keys, dx);
            events.jumped = jumped;
            events.sprung = sprung;
        }
        let current = cell_at(grid, self.col, self.row);
        if current == '^' || current == 'v' || current == '>' || current == '<' {
            self.die();
            events.died = true;
        }
        if self.col != old_col && self.on_ground(grid) {
            events.stepped = true;
        }
        events
    }

    /// Whether `update` can run with these keys (see `player_step_ok`), for a
    /// player inside a rectangular grid.
    pub fn can_update(&self, grid: &Vec<Vec<char>>, keys: &Keys) -> (b: bool)
        requires
            grid_wf(grid.deep_view()),
            in_grid(grid.deep_view(), self.col as int, self.row as int),
        ensures
            b == player_step_ok(*self, grid.deep_view(), *keys),
    {
        if !self.alive || self.stunned {
            return true;
        }
        if self.lives == i32::MIN {
            return false;
        }
        let want_down = keys.s || keys.down;
        if !self.on_ladder && self.on_ground(grid) && tile_at(grid, self.col, self.row + 1) == 'H'
            && want_down {
            return true;
        }
        if self.on_ladder {
            return true;
        }
        let mut dx: i32 = 0;
        if keys.a || keys.left {
            dx = -1;
        }
        if keys.d || keys.right {
            dx = 1;
        }
        let mut q = *self;
        q.walk_step(grid, keys, dx);
        !(q.row == 0 && cell_at(grid, q.col, 0) == 'z')
    }

    fn on_ground(&self, grid: &Vec<Vec<char>>) -> (b: bool)
        requires
            grid_wf(grid.deep_view()),
            in_grid(grid.deep_view(), self.col as int, self.row as int),
        ensures
            b == on_ground(grid.deep_view(), *self),
    {
        !passable_at(grid, self.col, self.row + 1)
    }
}

/// Law: a player on a ladder that ends a tick in another column has stepped
/// off the ladder.
pub proof fn lemma_ladder_side_step_leaves(p: Player, g: Seq<Seq<char>>, k: Keys)
    requires
        p.alive,
        !p.stunned,
        p.on_ladder,
    ensures
        player_step(p, g, k).0.col != p.col ==> !player_step(p, g, k).0.on_ladder,
{
}

} // verus!

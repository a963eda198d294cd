use vstd::prelude::*;

pub use crate::grid::{parse_grid, LEVEL_COLS, LEVEL_ROWS};

use crate::enemy::{enemy_step, enemy_wf, spawned_enemies, Enemy};
use crate::grid::{
    cell_at, cols_of, copy_grid, grid_of_text, grid_wf, hits, in_grid, lemma_hits_in_grid,
    replace_all, set_cell,
};
use crate::platform::{
    grid_after_moving, grid_after_vertical, moving_platforms, moving_tick, moving_wf,
    vertical_platforms, vertical_wf, MovingPlatform, VerticalPlatform,
};
use crate::player::{
    die_spec, grid_without_player, player_step, player_step_ok, spawned_player, Keys, Player,
    PlayerEvents, START_LIVES,
};
use crate::scroller::{bbox, scroller_lines, ScrollPhase, Scroller};

verus! {

/// A level as written: its name and its text (the grid's rows, then the
/// scroller's lines).
pub struct LevelSource {
    pub name: String,
    pub text: String,
}

/// The level being played, with the list of all levels.
pub struct Level {
    pub grid: Vec<Vec<char>>,
    pub player: Player,
    pub enemies: Vec<Enemy>,
    pub platforms: Vec<MovingPlatform>,
    pub vplatforms: Vec<VerticalPlatform>,
    pub scroller: Option<Scroller>,
    pub idx: usize,
    pub score: u32,
    pub sources: Vec<LevelSource>,
}

/// A secret level's text starts with `'S'`.
pub open spec fn is_secret_text(t: Seq<char>) -> bool {
    t.len() > 0 && t[0] == 'S'
}

/// The grid with the secret marker (an `'S'` in the top left corner) cleared.
pub open spec fn unmark_secret(g: Seq<Seq<char>>) -> Seq<Seq<char>> {
    if g[0][0] == 'S' {
        g.update(0, g[0].update(0, ' '))
    } else {
        g
    }
}

/// What `scroller::spawn` gives for a grid and a level text.
pub open spec fn scroller_spawned(s: Option<Scroller>, g: Seq<Seq<char>>, t: Seq<char>) -> bool {
    &&& (s is Some <==> hits(g, '!').len() > 0 && scroller_lines(t).len() > 0)
    &&& s matches Some(sc) ==> {
        let b = bbox(hits(g, '!'));
        &&& sc.wf()
        &&& sc.row_start == b.0
        &&& sc.row_end == b.1 + 1
        &&& sc.col_start == b.2
        &&& sc.col_end == b.3 + 1
        &&& sc.line_views() == scroller_lines(t)
        &&& sc.current_line == 0
        &&& sc.phase == ScrollPhase::SlideOn
    }
}

/// The grid of level text `t` as its scroller leaves it.
pub open spec fn stage_scroller(t: Seq<char>) -> Seq<Seq<char>> {
    replace_all(unmark_secret(grid_of_text(t)), '!', ' ')
}

/// ... as the player leaves it.
pub open spec fn stage_player(t: Seq<char>) -> Seq<Seq<char>> {
    grid_without_player(stage_scroller(t))
}

/// ... as the enemies leave it.
pub open spec fn stage_enemies(t: Seq<char>) -> Seq<Seq<char>> {
    replace_all(stage_player(t), '@', ' ')
}

/// ... as the moving platforms leave it.
pub open spec fn stage_moving(t: Seq<char>) -> Seq<Seq<char>> {
    grid_after_moving(stage_enemies(t))
}

/// `l` holds level `idx` of `srcs` as loaded, with `lives` lives: the grid
/// parsed from its text, the secret marker cleared, then the scroller, the
/// player, the enemies, the moving and the vertical platforms taken out of
/// it in that order, and a score of 0.
pub open spec fn is_loaded(l: Level, srcs: Seq<LevelSource>, idx: int, lives: i32) -> bool {
    let t = srcs[idx].text@;
    &&& l.sources@ == srcs
    &&& l.idx == idx
    &&& l.score == 0
    &&& scroller_spawned(l.scroller, unmark_secret(grid_of_text(t)), t)
    &&& l.player == Player { lives, ..spawned_player(stage_scroller(t)) }
    &&& l.enemies@ == spawned_enemies(stage_player(t))
    &&& l.platforms@ == moving_platforms(stage_enemies(t))
    &&& l.vplatforms@ == vertical_platforms(stage_moving(t))
    &&& l.grid.deep_view() == grid_after_vertical(stage_moving(t))
}

/// The first level from `n` on that is not skipped: with `skip_secret`,
/// secret levels are skipped. The number of levels where none is left.
pub open spec fn next_playable(srcs: Seq<LevelSource>, n: int, skip_secret: bool) -> int
    decreases srcs.len() - n,
{
    if 0 <= n < srcs.len() && skip_secret && is_secret_text(srcs[n].text@) {
        next_playable(srcs, n + 1, skip_secret)
    } else {
        n
    }
}

/// A grid of `LEVEL_ROWS` rows of `LEVEL_COLS` tiles.
pub open spec fn level_sized(g: Seq<Seq<char>>) -> bool {
    &&& g.len() == LEVEL_ROWS
    &&& forall|r: int| 0 <= r < g.len() ==> (#[trigger] g[r]).len() == LEVEL_COLS
}

/// Lemma: every stage of loading keeps the grid's size.
pub proof fn lemma_stages_wf(t: Seq<char>)
    ensures
        level_sized(grid_of_text(t)),
        level_sized(unmark_secret(grid_of_text(t))),
        level_sized(stage_scroller(t)),
        level_sized(stage_player(t)),
        level_sized(stage_enemies(t)),
        grid_wf(stage_enemies(t)),
{
    let g0 = grid_of_text(t);
    let g1 = unmark_secret(g0);
    let g2 = stage_scroller(t);
    let g3 = stage_player(t);
    let g4 = stage_enemies(t);
    assert forall|r: int| 0 <= r < g1.len() implies (#[trigger] g1[r]).len() == LEVEL_COLS by {
        assert(g0[r].len() == LEVEL_COLS);
    }
    assert forall|r: int| 0 <= r < g2.len() implies (#[trigger] g2[r]).len() == LEVEL_COLS by {
        assert(g1[r].len() == LEVEL_COLS);
    }
    lemma_hits_in_grid(g2, '$');
    assert forall|r: int| 0 <= r < g3.len() implies (#[trigger] g3[r]).len() == LEVEL_COLS by {
        assert(g2[r].len() == LEVEL_COLS);
    }
    assert forall|r: int| 0 <= r < g4.len() implies (#[trigger] g4[r]).len() == LEVEL_COLS by {
        assert(g3[r].len() == LEVEL_COLS);
    }
}


/// How a tick of play ended.
#[derive(Clone, Copy, Debug, PartialEq, Eq)]
pub enum TickOutcome {
    /// Play goes on in the same level.
    Playing,
    /// The goal was reached and the next level is loaded.
    NextLevel,
    /// The goal of the last level was reached; the game starts over.
    Finished,
    /// The player has no lives left.
    Dead,
}

/// A level that can be played: a well-formed grid with the player and the
/// enemies inside it, platforms that fit it, and a level number in range.
pub open spec fn level_wf(l: Level) -> bool {
    let g = l.grid.deep_view();
    &&& grid_wf(g)
    &&& in_grid(g, l.player.col as int, l.player.row as int)
    &&& forall|k: int| 0 <= k < l.enemies@.len() ==> enemy_wf(#[trigger] l.enemies@[k], g)
    &&& forall|k: int| 0 <= k < l.platforms@.len() ==> moving_wf(#[trigger] l.platforms@[k], g)
    &&& forall|k: int| 0 <= k < l.vplatforms@.len() ==> vertical_wf(#[trigger] l.vplatforms@[k], g)
    &&& l.idx < l.sources@.len()
}

/// Two grids of the same shape.
pub open spec fn same_shape(a: Seq<Seq<char>>, b: Seq<Seq<char>>) -> bool {
    &&& a.len() == b.len()
    &&& forall|r: int| 0 <= r < a.len() ==> (#[trigger] a[r]).len() == b[r].len()
}

/// The first `i` moving platforms, one after the other, each on what the
/// ones before left: the platforms, the grid, the player and the enemies.
pub open spec fn platforms_tick(
    ps: Seq<MovingPlatform>,
    g: Seq<Seq<char>>,
    pl: Player,
    es: Seq<Enemy>,
    i: int,
) -> (Seq<MovingPlatform>, Seq<Seq<char>>, Player, Seq<Enemy>)
    decreases i,
{
    if i <= 0 {
        (ps, g, pl, es)
    } else {
        let prev = platforms_tick(ps, g, pl, es, i - 1);
        let t = moving_tick(prev.0[i - 1], prev.1, prev.2, prev.3);
        (prev.0.update(i - 1, t.0), t.1, t.2, t.3)
    }
}

/// Touching an enemy: side by side on its row, or right above or below it.
pub open spec fn touches_row(p: Player, e: Enemy) -> bool {
    -1 <= p.col - e.col <= 1 && p.row == e.row
}

pub open spec fn touches_col(p: Player, e: Enemy) -> bool {
    p.col == e.col && -1 <= p.row - e.row <= 1
}

/// The player after checking the first `i` enemies: each touch costs a life.
pub open spec fn collide(p: Player, es: Seq<Enemy>, i: int) -> Player
    decreases i,
{
    if i <= 0 {
        p
    } else {
        let q = collide(p, es, i - 1);
        let e = es[i - 1];
        let q1 = if touches_row(q, e) {
            die_spec(q)
        } else {
            q
        };
        if touches_col(q1, e) {
            die_spec(q1)
        } else {
            q1
        }
    }
}

/// No touch among the first `i` enemies takes a life below `i32::MIN`.
pub open spec fn collide_ok(p: Player, es: Seq<Enemy>, i: int) -> bool
    decreases i,
{
    if i <= 0 {
        true
    } else {
        let q = collide(p, es, i - 1);
        let e = es[i - 1];
        let q1 = if touches_row(q, e) {
            die_spec(q)
        } else {
            q
        };
        &&& collide_ok(p, es, i - 1)
        &&& touches_row(q, e) ==> q.stunned || q.lives > i32::MIN
        &&& touches_col(q1, e) ==> q1.stunned || q1.lives > i32::MIN
    }
}

/// The state of a tick before the goal check: after the moving platforms,
/// the player, the enemies and the touches. Gives the platforms, the grid,
/// the player before and after the touches, the player's events, and the
/// enemies.
pub open spec fn play_tick(l: Level, k: Keys) -> (
    Seq<MovingPlatform>,
    Seq<Seq<char>>,
    Player,
    PlayerEvents,
    Seq<Enemy>,
    Player,
) {
    let t = platforms_tick(l.platforms@, l.grid.deep_view(), l.player, l.enemies@, l.platforms@.len() as int);
    let s = player_step(t.2, t.1, k);
    let es = t.3.map_values(|e: Enemy| enemy_step(e, t.1));
    (t.0, t.1, s.0, s.1, es, collide(s.0, es, es.len() as int))
}

/// What `tick` needs: the player's move cannot fail, and no touch takes a
/// life below `i32::MIN`.
pub open spec fn tick_ok(l: Level, k: Keys) -> bool {
    let t = platforms_tick(l.platforms@, l.grid.deep_view(), l.player, l.enemies@, l.platforms@.len() as int);
    let pt = play_tick(l, k);
    &&& player_step_ok(t.2, t.1, k)
    &&& collide_ok(pt.2, pt.4, pt.4.len() as int)
}


/// A copy of a list of plain values.
fn copy_items<T: Copy>(v: &Vec<T>) -> (c: Vec<T>)
    ensures
        c@ == v@,
{
    let mut c: Vec<T> = Vec::new();
    let mut i: usize = 0;
    while i < v.len()
        invariant
            i <= v@.len(),
            c@ == v@.take(i as int),
        decreases v@.len() - i,
    {
        c.push(v[i]);
        assert(v@.take(i + 1) =~= v@.take(i as int).push(v@[i as int]));
        i = i + 1;
    }
    assert(v@.take(i as int) =~= v@);
    c
}

/// The moving platforms of a level, one after the other (see
/// `platforms_tick`).
fn run_platforms(
    platforms: &mut Vec<MovingPlatform>,
    grid: &mut Vec<Vec<char>>,
    player: &mut Player,
    enemies: &mut Vec<Enemy>,
)
    requires
        grid_wf(old(grid).deep_view()),
        forall|k: int|
            0 <= k < old(platforms)@.len() ==> moving_wf(#[trigger] old(platforms)@[k], old(grid).deep_view()),
        in_grid(old(grid).deep_view(), old(player).col as int, old(player).row as int),
        forall|k: int|
            0 <= k < old(enemies)@.len() ==> enemy_wf(#[trigger] old(enemies)@[k], old(grid).deep_view()),
    ensures
        (final(platforms)@, final(grid).deep_view(), *final(player), final(enemies)@) == platforms_tick(
            old(platforms)@,
            old(grid).deep_view(),
            *old(player),
            old(enemies)@,
            old(platforms)@.len() as int,
        ),
        same_shape(old(grid).deep_view(), final(grid).deep_view()),
        forall|k: int|
            0 <= k < final(platforms)@.len() ==> moving_wf(#[trigger] final(platforms)@[k], final(grid).deep_view()),
        in_grid(final(grid).deep_view(), final(player).col as int, final(player).row as int),
        forall|k: int|
            0 <= k < final(enemies)@.len() ==> enemy_wf(#[trigger] final(enemies)@[k], final(grid).deep_view()),
        final(enemies)@.len() == old(enemies)@.len(),
        final(platforms)@.len() == old(platforms)@.len(),
{
    let ghost ps0 = platforms@;
    let ghost g0 = grid.deep_view();
    let ghost pl0 = *player;
    let ghost es0 = enemies@;
    let n = platforms.len();
    let mut i: usize = 0;
    while i < n
        invariant
            n == ps0.len(),
            i <= n,
            platforms@.len() == n,
            (platforms@, grid.deep_view(), *player, enemies@) == platforms_tick(ps0, g0, pl0, es0, i as int),
            grid_wf(g0),
            same_shape(g0, grid.deep_view()),
            forall|k: int| 0 <= k < n ==> moving_wf(#[trigger] platforms@[k], grid.deep_view()),
            in_grid(grid.deep_view(), player.col as int, player.row as int),
            forall|k: int| 0 <= k < enemies@.len() ==> enemy_wf(#[trigger] enemies@[k], grid.deep_view()),
            enemies@.len() == es0.len(),
        decreases n - i,
    {
        let mut p = platforms[i];
        let ghost gb = grid.deep_view();
        let ghost plb = *player;
        let ghost esb = enemies@;
        proof {
            lemma_same_shape(g0, gb);
            lemma_moving_tick_keeps(p, gb, plb, esb);
        }
        p.update(grid, player, enemies);
        platforms.set(i, p);
        proof {
            let ga = grid.deep_view();
            lemma_same_shape(gb, ga);
            assert(same_shape(g0, ga)) by {
                assert forall|r: int| 0 <= r < g0.len() implies (#[trigger] g0[r]).len() == ga[r].len() by {
                    assert(gb[r].len() == ga[r].len());
                }
            }
            assert forall|k: int| 0 <= k < n implies moving_wf(#[trigger] platforms@[k], ga) by {
                if k != i {
                    assert(moving_wf(platforms@[k], gb));
                }
            }
        }
        i = i + 1;
    }
}

/// Lemma: a grid of the same shape as a well-formed one is well-formed, and
/// what fits one fits the other.
pub proof fn lemma_same_shape(a: Seq<Seq<char>>, b: Seq<Seq<char>>)
    requires
        grid_wf(a),
        same_shape(a, b),
    ensures
        grid_wf(b),
        cols_of(a) == cols_of(b),
        forall|p: MovingPlatform| moving_wf(p, a) ==> #[trigger] moving_wf(p, b),
        forall|p: VerticalPlatform| vertical_wf(p, a) ==> #[trigger] vertical_wf(p, b),
        forall|c: int, r: int| in_grid(a, c, r) ==> #[trigger] in_grid(b, c, r),
        forall|e: Enemy| enemy_wf(e, a) ==> #[trigger] enemy_wf(e, b),
{
    assert(a[0].len() == b[0].len());
    assert forall|r: int| 0 <= r < b.len() implies #[trigger] b[r].len() == b[0].len() by {
        assert(a[r].len() == b[r].len());
    }
    assert forall|p: VerticalPlatform| vertical_wf(p, a) implies #[trigger] vertical_wf(p, b) by {
        assert forall|i: int| p.top_bound < i < p.bottom_bound implies p.start_col + p.width
            <= #[trigger] b[i].len() by {
            assert(a[i].len() == b[i].len());
        }
    }
}

/// Lemma: rectangular grids with as many rows and columns have one shape.
pub proof fn lemma_rect_same_shape(a: Seq<Seq<char>>, b: Seq<Seq<char>>)
    requires
        grid_wf(a),
        grid_wf(b),
        a.len() == b.len(),
        a[0].len() == b[0].len(),
    ensures
        same_shape(a, b),
{
}

/// Law: a loaded level can be played.
pub proof fn lemma_loaded_wf(l: Level, srcs: Seq<LevelSource>, idx: int, lives: i32)
    requires
        is_loaded(l, srcs, idx, lives),
        0 <= idx < srcs.len(),
    ensures
        level_wf(l),
{
    let t = srcs[idx].text@;
    lemma_stages_wf(t);
    let g2 = stage_scroller(t);
    let g3 = stage_player(t);
    let g4 = stage_enemies(t);
    let g5 = stage_moving(t);
    let g6 = grid_after_vertical(g5);
    crate::platform::lemma_spawned_moving_wf(g4);
    crate::platform::lemma_spawned_vertical_wf(g5);
    lemma_rect_same_shape(g5, g6);
    lemma_same_shape(g5, g6);
    assert(same_shape(g2, g6)) by {
        assert forall|r: int| 0 <= r < g2.len() implies (#[trigger] g2[r]).len() == g6[r].len() by {
            assert(g4[r].len() == LEVEL_COLS);
            assert(g6[r].len() == g6[0].len());
        }
    }
    assert(same_shape(g3, g6)) by {
        assert forall|r: int| 0 <= r < g3.len() implies (#[trigger] g3[r]).len() == g6[r].len() by {
            assert(g4[r].len() == LEVEL_COLS);
            assert(g6[r].len() == g6[0].len());
        }
    }
    lemma_hits_in_grid(g2, '$');
    lemma_hits_in_grid(g3, '@');
    lemma_same_shape(g3, g6);
    assert(grid_wf(g2));
    lemma_same_shape(g2, g6);
    assert forall|k: int| 0 <= k < l.enemies@.len() implies enemy_wf(#[trigger] l.enemies@[k], g6) by {
        assert(l.enemies@[k] == spawned_enemies(g3)[k]);
        assert(enemy_wf(l.enemies@[k], g3));
    }
    assert forall|k: int| 0 <= k < l.platforms@.len() implies moving_wf(#[trigger] l.platforms@[k], g6) by {
        assert(moving_wf(l.platforms@[k], g5));
    }
}


/// Lemma: a tick of a moving platform keeps the grid's shape, and keeps the
/// player and the enemies inside the grid.
pub proof fn lemma_moving_tick_keeps(p: MovingPlatform, g: Seq<Seq<char>>, pl: Player, es: Seq<Enemy>)
    requires
        moving_wf(p, g),
        in_grid(g, pl.col as int, pl.row as int),
        forall|k: int| 0 <= k < es.len() ==> enemy_wf(#[trigger] es[k], g),
    ensures
        same_shape(g, moving_tick(p, g, pl, es).1),
        in_grid(moving_tick(p, g, pl, es).1, moving_tick(p, g, pl, es).2.col as int, moving_tick(p, g, pl, es).2.row as int),
        moving_tick(p, g, pl, es).3.len() == es.len(),
        forall|k: int|
            0 <= k < es.len() ==> enemy_wf(#[trigger] moving_tick(p, g, pl, es).3[k], moving_tick(p, g, pl, es).1),
{
    let t = moving_tick(p, g, pl, es);
    assert(g[p.row as int].len() == g[0].len());
    assert(same_shape(g, t.1));
    lemma_same_shape(g, t.1);
    assert forall|k: int| 0 <= k < es.len() implies enemy_wf(#[trigger] t.3[k], t.1) by {
        assert(enemy_wf(es[k], g));
    }
}

/// Lemma: touches take lives but do not move the player.
pub proof fn lemma_collide_pos(p: Player, es: Seq<Enemy>, i: int)
    ensures
        collide(p, es, i).col == p.col,
        collide(p, es, i).row == p.row,
    decreases i,
{
    if i > 0 {
        lemma_collide_pos(p, es, i - 1);
    }
}

proof fn lemma_collide_ok_prefix(p: Player, es: Seq<Enemy>, i: int, m: int)
    requires
        collide_ok(p, es, m),
        i <= m,
    ensures
        collide_ok(p, es, i),
    decreases m - i,
{
    if i < m {
        lemma_collide_ok_prefix(p, es, i, m - 1);
    }
}


/// Law: with secret levels skipped, advancing never lands on a secret level.
pub proof fn lemma_skip_secret_not_secret(srcs: Seq<LevelSource>, n: int)
    requires
        0 <= n,
        next_playable(srcs, n, true) < srcs.len(),
    ensures
        !is_secret_text(srcs[next_playable(srcs, n, true)].text@),
        n <= next_playable(srcs, n, true),
    decreases srcs.len() - n,
{
    if 0 <= n < srcs.len() && is_secret_text(srcs[n].text@) {
        lemma_skip_secret_not_secret(srcs, n + 1);
    }
}

/// Law: without skipping, advancing goes to the very next level.
pub proof fn lemma_no_skip_next(srcs: Seq<LevelSource>, n: int)
    ensures
        next_playable(srcs, n, false) == n,
{
}


/// No spring in the top row.
pub open spec fn no_top_spring(g: Seq<Seq<char>>) -> bool {
    forall|c: int| 0 <= c < cols_of(g) ==> #[trigger] g[0][c] != 'z'
}

/// Lemma: the moving platforms keep the grid's shape, the player and the
/// enemies inside it, themselves fitting it, the player's lives, and the top
/// row free of springs.
pub proof fn lemma_platforms_tick_keeps(
    ps: Seq<MovingPlatform>,
    g: Seq<Seq<char>>,
    pl: Player,
    es: Seq<Enemy>,
    i: int,
)
    requires
        0 <= i <= ps.len(),
        grid_wf(g),
        forall|k: int| 0 <= k < ps.len() ==> moving_wf(#[trigger] ps[k], g),
        in_grid(g, pl.col as int, pl.row as int),
        forall|k: int| 0 <= k < es.len() ==> enemy_wf(#[trigger] es[k], g),
    ensures
        ({
            let t = platforms_tick(ps, g, pl, es, i);
            &&& same_shape(g, t.1)
            &&& grid_wf(t.1)
            &&& t.0.len() == ps.len()
            &&& forall|k: int| 0 <= k < ps.len() ==> moving_wf(#[trigger] t.0[k], t.1)
            &&& in_grid(t.1, t.2.col as int, t.2.row as int)
            &&& t.2.lives == pl.lives
            &&& t.3.len() == es.len()
            &&& forall|k: int| 0 <= k < es.len() ==> enemy_wf(#[trigger] t.3[k], t.1)
            &&& no_top_spring(g) ==> no_top_spring(t.1)
        }),
    decreases i,
{
    if i > 0 {
        lemma_platforms_tick_keeps(ps, g, pl, es, i - 1);
        let prev = platforms_tick(ps, g, pl, es, i - 1);
        let p = prev.0[i - 1];
        lemma_moving_tick_keeps(p, prev.1, prev.2, prev.3);
        let t = moving_tick(p, prev.1, prev.2, prev.3);
        lemma_same_shape(prev.1, t.1);
        assert(same_shape(g, t.1)) by {
            assert forall|r: int| 0 <= r < g.len() implies (#[trigger] g[r]).len() == t.1[r].len() by {
                assert(prev.1[r].len() == t.1[r].len());
            }
        }
        assert forall|k: int| 0 <= k < ps.len() implies moving_wf(
            #[trigger] prev.0.update(i - 1, t.0)[k],
            t.1,
        ) by {
            if k != i - 1 {
                assert(moving_wf(prev.0[k], prev.1));
            }
        }
        if no_top_spring(g) {
            assert forall|c: int| 0 <= c < cols_of(t.1) implies #[trigger] t.1[0][c] != 'z' by {
                assert(prev.1[0][c] != 'z');
            }
        }
    }
}

/// Lemma: touches take at most two lives per enemy, so enough lives make
/// them safe.
pub proof fn lemma_collide_lives(p: Player, es: Seq<Enemy>, i: int)
    requires
        0 <= i,
        p.lives >= i32::MIN + 2 * i + 1,
    ensures
        collide_ok(p, es, i),
        collide(p, es, i).lives >= p.lives - 2 * i,
    decreases i,
{
    if i > 0 {
        lemma_collide_lives(p, es, i - 1);
    }
}

impl Level {
    /// Whether level `idx` is a secret level.
    pub fn is_secret(&self, idx: usize) -> (b: bool)
        requires
            idx < self.sources@.len(),
        ensures
            b == is_secret_text(self.sources@[idx as int].text@),
    {
        let t = self.sources[idx].text.as_str();
        !t.is_empty() && t.get_char(0) == 'S'
    }

    /// The name of the level being played.
    pub fn name(&self) -> (n: &String)
        requires
            self.idx < self.sources@.len(),
        ensures
            n@ == self.sources@[self.idx as int].name@,
    {
        &self.sources[self.idx].name
    }


    /// Level `idx` of `sources`, loaded with `START_LIVES` lives.
    pub fn load(sources: Vec<LevelSource>, idx: usize) -> (l: Level)
        requires
            idx < sources@.len(),
        ensures
            is_loaded(l, sources@, idx as int, START_LIVES),
            level_wf(l),
    {
        let mut lvl = Level {
            grid: Vec::new(),
            player: Player {
                col: 1,
                row: 1,
                jump_remaining: 0,
                alive: true,
                stunned: false,
                on_ladder: false,
                spawn_col: 1,
                spawn_row: 1,
                lives: START_LIVES,
            },
            enemies: Vec::new(),
            platforms: Vec::new(),
            vplatforms: Vec::new(),
            scroller: None,
            idx: 0,
            score: 0,
            sources,
        };
        lvl.load_level(idx, START_LIVES);
        proof {
            lemma_loaded_wf(lvl, sources@, idx as int, START_LIVES);
        }
        lvl
    }

    /// Goes on to the next level, keeping the player's lives; with
    /// `skip_secret`, secret levels are passed over. False, and nothing
    /// changes, where no level is left.
    pub fn advance(&mut self, skip_secret: bool) -> (b: bool)
        requires
            old(self).idx < old(self).sources@.len(),
        ensures
            b == (next_playable(old(self).sources@, old(self).idx + 1, skip_secret) < old(
                self,
            ).sources@.len()),
            b ==> is_loaded(
                *final(self),
                old(self).sources@,
                next_playable(old(self).sources@, old(self).idx + 1, skip_secret),
                old(self).player.lives,
            ),
            !b ==> *final(self) == *old(self),
            b ==> level_wf(*final(self)),
    {
        let lives = self.player.lives;
        let count = self.sources.len();
        assert(self.idx < count);
        let mut next = self.idx + 1;
        if skip_secret {
            while next < self.sources.len() && self.is_secret(next)
                invariant
                    old(self).idx < next <= self.sources@.len(),
                    *self == *old(self),
                    skip_secret,
                    next_playable(self.sources@, old(self).idx + 1, skip_secret) == next_playable(
                        self.sources@,
                        next as int,
                        skip_secret,
                    ),
                decreases self.sources@.len() - next,
            {
                next = next + 1;
            }
        }
        if next < self.sources.len() {
            self.load_level(next, lives);
            proof {
                lemma_loaded_wf(*self, old(self).sources@, next as int, lives);
            }
            true
        } else {
            false
        }
    }

    /// The skip key: on to the very next level, secret ones included,
    /// keeping the player's lives; past the last level, back to the first
    /// with `START_LIVES` lives, and then true.
    pub fn skip(&mut self) -> (past_last: bool)
        requires
            old(self).idx < old(self).sources@.len(),
        ensures
            past_last == (old(self).idx + 1 >= old(self).sources@.len()),
            !past_last ==> is_loaded(
                *final(self),
                old(self).sources@,
                old(self).idx + 1,
                old(self).player.lives,
            ),
            past_last ==> is_loaded(*final(self), old(self).sources@, 0, START_LIVES),
            level_wf(*final(self)),
    {
        proof {
            lemma_no_skip_next(self.sources@, self.idx + 1);
        }
        if self.advance(false) {
            false
        } else {
            self.restart();
            true
        }
    }

    /// Back to the first level with `START_LIVES` lives.
    pub fn restart(&mut self)
        requires
            old(self).sources@.len() > 0,
        ensures
            is_loaded(*final(self), old(self).sources@, 0, START_LIVES),
            level_wf(*final(self)),
    {
        self.load_level(0, START_LIVES);
        proof {
            lemma_loaded_wf(*self, old(self).sources@, 0, START_LIVES);
        }
    }


    /// One tick of play: the moving platforms move (the vertical ones stay
    /// still), then the player with the keys held down, then the enemies;
    /// each enemy the player touches costs a life; on the goal (`'*'`) the
    /// next level that is not secret is loaded, or the game starts over after
    /// the last one. Also gives the player's events.
    pub fn tick(&mut self, keys: &Keys) -> (res: (TickOutcome, PlayerEvents))
        requires
            level_wf(*old(self)),
            tick_ok(*old(self), *keys),
        ensures
            level_wf(*final(self)),
            ({
                let pt = play_tick(*old(self), *keys);
                let goal = pt.1[pt.5.row as int][pt.5.col as int] == '*';
                let next = next_playable(old(self).sources@, old(self).idx + 1, true);
                &&& res.1 == pt.3
                &&& !goal ==> {
                    &&& final(self).grid.deep_view() == pt.1
                    &&& final(self).player == pt.5
                    &&& final(self).enemies@ == pt.4
                    &&& final(self).platforms@ == pt.0
                    &&& final(self).vplatforms@ == old(self).vplatforms@
                    &&& final(self).scroller == old(self).scroller
                    &&& final(self).idx == old(self).idx
                    &&& final(self).score == old(self).score
                    &&& final(self).sources@ == old(self).sources@
                    &&& res.0 == (if pt.5.alive {
                        TickOutcome::Playing
                    } else {
                        TickOutcome::Dead
                    })
                }
                &&& goal && next < old(self).sources@.len() ==> {
                    &&& is_loaded(*final(self), old(self).sources@, next, pt.5.lives)
                    &&& res.0 == TickOutcome::NextLevel
                }
                &&& goal && next >= old(self).sources@.len() ==> {
                    &&& is_loaded(*final(self), old(self).sources@, 0, START_LIVES)
                    &&& res.0 == TickOutcome::Finished
                }
            }),
    {
        let ghost l0 = *self;
        let ghost g0 = l0.grid.deep_view();
        run_platforms(&mut self.platforms, &mut self.grid, &mut self.player, &mut self.enemies);
        let ghost g1 = self.grid.deep_view();
        let ghost ps1 = self.platforms@;
        proof {
            lemma_same_shape(g0, g1);
        }
        let events = self.player.update(&self.grid, keys);
        let ghost pl2 = self.player;
        let m = self.enemies.len();
        let ghost es1 = self.enemies@;
        let mut j: usize = 0;
        while j < m
            invariant
                m == es1.len(),
                j <= m,
                self.enemies@.len() == m,
                self.grid.deep_view() == g1,
                grid_wf(g1),
                forall|k: int|
                    0 <= k < m ==> #[trigger] self.enemies@[k] == (if k < j {
                        enemy_step(es1[k], g1)
                    } else {
                        es1[k]
                    }),
                forall|k: int| 0 <= k < m ==> enemy_wf(#[trigger] self.enemies@[k], g1),
                self.player == pl2,
                self.vplatforms@ == l0.vplatforms@,
                self.scroller == l0.scroller,
                self.idx == l0.idx,
                self.score == l0.score,
                self.sources@ == l0.sources@,
                l0.idx < l0.sources@.len(),
                self.platforms@ == ps1,
            decreases m - j,
        {
            let mut e = self.enemies[j];
            assert(enemy_wf(e, g1));
            e.update(&self.grid);
            self.enemies.set(j, e);
            j = j + 1;
        }
        let ghost es2 = self.enemies@;
        assert(es2 =~= es1.map_values(|e: Enemy| enemy_step(e, g1)));
        proof {
            lemma_collide_pos(pl2, es2, m as int);
        }
        let mut j: usize = 0;
        while j < m
            invariant
                m == es2.len(),
                j <= m,
                self.enemies@ == es2,
                self.grid.deep_view() == g1,
                grid_wf(g1),
                in_grid(g1, pl2.col as int, pl2.row as int),
                forall|k: int| 0 <= k < m ==> enemy_wf(#[trigger] es2[k], g1),
                self.player == collide(pl2, es2, j as int),
                collide_ok(pl2, es2, m as int),
                self.vplatforms@ == l0.vplatforms@,
                self.scroller == l0.scroller,
                self.idx == l0.idx,
                self.score == l0.score,
                self.sources@ == l0.sources@,
                l0.idx < l0.sources@.len(),
                self.platforms@ == ps1,
            decreases m - j,
        {
            proof {
                lemma_collide_ok_prefix(pl2, es2, j + 1, m as int);
                lemma_collide_pos(pl2, es2, j as int);
            }
            let e = self.enemies[j];
            assert(enemy_wf(e, g1));
            let dc = self.player.col - e.col;
            if dc >= -1 && dc <= 1 && self.player.row == e.row {
                self.player.die();
            }
            if self.player.col == e.col {
                let dr = self.player.row - e.row;
                if dr >= -1 && dr <= 1 {
                    self.player.die();
                }
            }
            j = j + 1;
        }
        proof {
            lemma_collide_pos(pl2, es2, m as int);
        }
        if cell_at(&self.grid, self.player.col, self.player.row) == '*' {
            if self.advance(true) {
                proof {
                    lemma_loaded_wf(*self, l0.sources@, next_playable(l0.sources@, l0.idx + 1, true), self.player.lives);
                }
                return (TickOutcome::NextLevel, events);
            }
            self.restart();
            proof {
                lemma_loaded_wf(*self, l0.sources@, 0, START_LIVES);
            }
            return (TickOutcome::Finished, events);
        }
        proof {
            assert forall|k: int| 0 <= k < self.vplatforms@.len() implies vertical_wf(
                #[trigger] self.vplatforms@[k],
                g1,
            ) by {
                assert(vertical_wf(l0.vplatforms@[k], g0));
            }
        }
        if !self.player.alive {
            (TickOutcome::Dead, events)
        } else {
            (TickOutcome::Playing, events)
        }
    }


    /// Whether `tick` can run with these keys (see `tick_ok`): the tick is
    /// played on a copy of the level, and its checks are made on the way.
    pub fn can_tick(&self, keys: &Keys) -> (b: bool)
        requires
            level_wf(*self),
        ensures
            b == tick_ok(*self, *keys),
    {
        let ghost l = *self;
        let ghost g0 = l.grid.deep_view();
        let mut grid = copy_grid(&self.grid);
        let mut platforms = copy_items(&self.platforms);
        let mut player = self.player;
        let mut enemies = copy_items(&self.enemies);
        run_platforms(&mut platforms, &mut grid, &mut player, &mut enemies);
        let ghost g1 = grid.deep_view();
        proof {
            lemma_same_shape(g0, g1);
        }
        if !player.can_update(&grid, keys) {
            return false;
        }
        player.update(&grid, keys);
        let ghost pl2 = player;
        let m = enemies.len();
        let ghost es1 = enemies@;
        let mut j: usize = 0;
        while j < m
            invariant
                m == es1.len(),
                j <= m,
                enemies@.len() == m,
                grid.deep_view() == g1,
                grid_wf(g1),
                forall|k: int|
                    0 <= k < m ==> #[trigger] enemies@[k] == (if k < j {
                        enemy_step(es1[k], g1)
                    } else {
                        es1[k]
                    }),
                forall|k: int| 0 <= k < m ==> enemy_wf(#[trigger] enemies@[k], g1),
            decreases m - j,
        {
            let mut e = enemies[j];
            assert(enemy_wf(e, g1));
            e.update(&grid);
            enemies.set(j, e);
            j = j + 1;
        }
        let ghost es2 = enemies@;
        assert(es2 =~= es1.map_values(|e: Enemy| enemy_step(e, g1)));
        proof {
            lemma_collide_pos(pl2, es2, m as int);
            let pt = play_tick(l, *keys);
            assert(pt.2 == pl2);
            assert(pt.4 == es2);
        }
        let mut j: usize = 0;
        while j < m
            invariant
                m == es2.len(),
                j <= m,
                enemies@ == es2,
                grid_wf(g1),
                in_grid(g1, pl2.col as int, pl2.row as int),
                forall|k: int| 0 <= k < m ==> enemy_wf(#[trigger] es2[k], g1),
                player == collide(pl2, es2, j as int),
                collide_ok(pl2, es2, j as int),
                tick_ok(l, *keys) == collide_ok(pl2, es2, m as int),
                *self == l,
            decreases m - j,
        {
            proof {
                lemma_collide_pos(pl2, es2, j as int);
            }
            let e = enemies[j];
            assert(enemy_wf(e, g1));
            let dc = player.col - e.col;
            if dc >= -1 && dc <= 1 && player.row == e.row {
                if !player.stunned && player.lives == i32::MIN {
                    proof {
                        assert(touches_row(collide(pl2, es2, j as int), es2[j as int]));
                        assert(!collide_ok(pl2, es2, j + 1));
                        if collide_ok(pl2, es2, m as int) {
                            lemma_collide_ok_prefix(pl2, es2, j + 1, m as int);
                        }
                    }
                    return false;
                }
                player.die();
            }
            if player.col == e.col {
                let dr = player.row - e.row;
                if dr >= -1 && dr <= 1 {
                    if !player.stunned && player.lives == i32::MIN {
                        proof {
                            if collide_ok(pl2, es2, m as int) {
                                lemma_collide_ok_prefix(pl2, es2, j + 1, m as int);
                            }
                        }
                        return false;
                    }
                    player.die();
                }
            }
            j = j + 1;
        }
        true
    }

    fn load_level(&mut self, idx: usize, lives: i32)
        requires
            idx < old(self).sources@.len(),
        ensures
            is_loaded(*final(self), old(self).sources@, idx as int, lives),
    {
        let ghost t = self.sources@[idx as int].text@;
        let mut grid = parse_grid(self.sources[idx].text.as_str());
        assert(grid.deep_view()[0] == grid@[0]@);
        assert(grid.deep_view()[0].len() == 60);
        if grid[0][0] == 'S' {
            set_cell(&mut grid, 0, 0, ' ');
        }
        assert(grid.deep_view() == unmark_secret(grid_of_text(t)));
        let scroller = crate::scroller::spawn(&mut grid, self.sources[idx].text.as_str());
        let mut player = Player::spawn(&mut grid);
        player.lives = lives;
        let enemies = Enemy::spawn_all(&mut grid);
        let platforms = MovingPlatform::spawn_all(&mut grid);
        proof {
            lemma_stages_wf(t);
            crate::platform::lemma_spawned_moving_wf(stage_enemies(t));
        }
        let vplatforms = VerticalPlatform::spawn_all(&mut grid);
        self.player = player;
        self.enemies = enemies;
        self.platforms = platforms;
        self.vplatforms = vplatforms;
        self.grid = grid;
        self.scroller = scroller;
        self.idx = idx;
        self.score = 0;
    }
}

/// The touches of the first `i` enemies leave a player free to be hit
/// (alive, not stunned, more than one life) as it was, or with one life
/// less and stunned; the latter once one of them stood in its cell or
/// beside it on its row.
proof fn lemma_collide_side(p: Player, es: Seq<Enemy>, i: int)
    requires
        p.alive,
        !p.stunned,
        p.lives > 1,
        0 <= i <= es.len(),
    ensures
        collide(p, es, i) == p || collide(p, es, i) == die_spec(p),
        (exists|k: int|
            0 <= k < i && #[trigger] es[k].row == p.row && -1 <= es[k].col - p.col <= 1) ==> collide(
            p,
            es,
            i,
        ) == die_spec(p),
    decreases i,
{
    if i > 0 {
        lemma_collide_side(p, es, i - 1);
        let q = collide(p, es, i - 1);
        assert(die_spec(die_spec(p)) == die_spec(p));
        if exists|k: int| 0 <= k < i && #[trigger] es[k].row == p.row && -1 <= es[k].col - p.col <= 1 {
            let k = choose|k: int| 0 <= k < i && #[trigger] es[k].row == p.row && -1 <= es[k].col - p.col <= 1;
            if k < i - 1 {
                assert(q == die_spec(p));
            } else {
                assert(k == i - 1);
            }
        }
    }
}

/// Law: an enemy beside the player on its row, or in its cell, is a touch:
/// a player free to be hit (alive, not stunned, more than one life) comes
/// out of the touches with one life less and stunned, where it stood.
pub proof fn lemma_side_touch_costs_life(p: Player, es: Seq<Enemy>, k: int)
    requires
        p.alive,
        !p.stunned,
        p.lives > 1,
        0 <= k < es.len(),
        es[k].row == p.row,
        -1 <= es[k].col - p.col <= 1,
    ensures
        collide(p, es, es.len() as int).lives == p.lives - 1,
        collide(p, es, es.len() as int).stunned,
        collide(p, es, es.len() as int).alive,
        collide(p, es, es.len() as int).col == p.col,
        collide(p, es, es.len() as int).row == p.row,
{
    assert(es[k].row == p.row);
    lemma_collide_side(p, es, es.len() as int);
}

/// Law: in a tick, an enemy that has stepped to the player's cell or beside
/// it on its row costs the moved player, if free to be hit (alive, not
/// stunned, more than one life), one life, and stuns it.
pub proof fn lemma_tick_side_touch(l: Level, k: Keys, j: int)
    requires
        0 <= j < play_tick(l, k).4.len(),
        play_tick(l, k).2.alive,
        !play_tick(l, k).2.stunned,
        play_tick(l, k).2.lives > 1,
        play_tick(l, k).4[j].row == play_tick(l, k).2.row,
        -1 <= play_tick(l, k).4[j].col - play_tick(l, k).2.col <= 1,
    ensures
        play_tick(l, k).5.lives == play_tick(l, k).2.lives - 1,
        play_tick(l, k).5.stunned,
{
    let pt = play_tick(l, k);
    lemma_side_touch_costs_life(pt.2, pt.4, j);
}

} // verus!

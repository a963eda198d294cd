use vstd::prelude::*;

use crate::enemy::Enemy;
use crate::grid::{cols_of, grid_wf, set_cell};
use crate::player::Player;

verus! {

/// A platform of `'='` tiles that slides left and right on its row between
/// two `'+'` bounds, one tile every other tick, carrying what stands on it.
#[derive(Clone, Copy, Debug)]
pub struct MovingPlatform {
    pub row: usize,
    pub left_bound: usize,
    pub right_bound: usize,
    pub start_col: usize,
    pub width: usize,
    /// -1 moves left, 1 moves right.
    pub dir: i32,
    pub half_tick: bool,
}

/// The first index `i >= from` with `row[i] == ch`, or `row.len()`.
pub open spec fn find_from(row: Seq<char>, ch: char, from: int) -> int
    decreases row.len() - from,
{
    if from >= row.len() {
        row.len() as int
    } else if from >= 0 && row[from] == ch {
        from
    } else {
        find_from(row, ch, from + 1)
    }
}

/// Lemma: `find_from` stops at the first `ch` from `from` on.
pub proof fn lemma_find_from_range(row: Seq<char>, ch: char, from: int)
    requires
        0 <= from,
    ensures
        from <= find_from(row, ch, from) <= row.len() || (from > row.len() && find_from(row, ch, from) == row.len()),
        find_from(row, ch, from) < row.len() ==> row[find_from(row, ch, from)] == ch,
        forall|i: int| from <= i < find_from(row, ch, from) ==> row[i] != ch,
    decreases row.len() - from,
{
    if from < row.len() && row[from] != ch {
        lemma_find_from_range(row, ch, from + 1);
    }
}

/// The first index `i >= from` with `row[i] != '='`, or `row.len()`.
pub open spec fn run_end(row: Seq<char>, from: int) -> int
    decreases row.len() - from,
{
    if from >= row.len() {
        row.len() as int
    } else if from >= 0 && row[from] != '=' {
        from
    } else {
        run_end(row, from + 1)
    }
}

/// The tiles strictly between `'+'` at `c` and `'+'` at `end` make a track:
/// at least one tile, only `'='` and `'-'`, at least one `'='`.
pub open spec fn valid_track(row: Seq<char>, c: int, end: int) -> bool {
    &&& c + 1 < end
    &&& forall|i: int| c < i < end ==> #[trigger] row[i] == '=' || row[i] == '-'
    &&& exists|i: int| c < i < end && #[trigger] row[i] == '='
}

/// The platform on the track from `'+'` at `c` to `'+'` at `end` of row `r`:
/// its first run of `'='` tiles.
pub open spec fn track_platform(row: Seq<char>, r: int, c: int, end: int) -> MovingPlatform {
    let start = find_from(row, '=', c + 1);
    MovingPlatform {
        row: r as usize,
        left_bound: c as usize,
        right_bound: end as usize,
        start_col: start as usize,
        width: (run_end(row, start) - start) as usize,
        dir: 1,
        half_tick: false,
    }
}

/// The row with the bounds and `'-'` rails of a track cleared.
pub open spec fn clear_track(row: Seq<char>, c: int, end: int) -> Seq<char> {
    Seq::new(
        row.len(),
        |i: int|
            if i == c || i == end || (c < i < end && row[i] == '-') {
                ' '
            } else {
                row[i]
            },
    )
}

/// Scanning row `r` from column `c`: each `'+'` is paired with the next
/// `'+'` after it; a valid track between them gives a platform and is
/// cleared, and scanning goes on after the second `'+'`. Gives the
/// platforms, and the row as left behind.
pub open spec fn scan_row(row: Seq<char>, r: int, c: int) -> (Seq<MovingPlatform>, Seq<char>)
    decreases row.len() - c,
{
    if c >= row.len() || c < 0 {
        (seq![], row)
    } else if row[c] == '+' {
        let end = find_from(row, '+', c + 1);
        proof {
            lemma_find_from_range(row, '+', c + 1);
        }
        if end < row.len() {
            if valid_track(row, c, end) {
                let rest = scan_row(clear_track(row, c, end), r, end + 1);
                (seq![track_platform(row, r, c, end)] + rest.0, rest.1)
            } else {
                scan_row(row, r, end + 1)
            }
        } else {
            scan_row(row, r, c + 1)
        }
    } else {
        scan_row(row, r, c + 1)
    }
}

/// The moving platforms of the rows `r < n`, in reading order.
pub open spec fn moving_platforms_upto(g: Seq<Seq<char>>, n: int) -> Seq<MovingPlatform>
    decreases n,
{
    if n <= 0 {
        seq![]
    } else {
        moving_platforms_upto(g, n - 1) + scan_row(g[n - 1], n - 1, 0).0
    }
}

/// The moving platforms of a grid, in reading order.
pub open spec fn moving_platforms(g: Seq<Seq<char>>) -> Seq<MovingPlatform> {
    moving_platforms_upto(g, g.len() as int)
}

/// The grid once its moving platforms are spawned: bounds and rails cleared.
pub open spec fn grid_after_moving(g: Seq<Seq<char>>) -> Seq<Seq<char>> {
    Seq::new(g.len(), |r: int| scan_row(g[r], r, 0).1)
}

/// Lemma: `run_end` lies between `from` and the row's end, and the tiles
/// before it are all `'='`.
pub proof fn lemma_run_end_range(row: Seq<char>, from: int)
    requires
        0 <= from,
    ensures
        from <= run_end(row, from) <= row.len() || (from > row.len() && run_end(row, from) == row.len()),
        run_end(row, from) < row.len() ==> row[run_end(row, from)] != '=',
        forall|i: int| from <= i < run_end(row, from) ==> row[i] == '=',
    decreases row.len() - from,
{
    if from < row.len() && row[from] == '=' {
        lemma_run_end_range(row, from + 1);
    }
}

fn find_char(row: &Vec<char>, ch: char, from: usize) -> (i: usize)
    ensures
        i == find_from(row@, ch, from as int),
{
    let mut i = from;
    while i < row.len()
        invariant
            from <= i,
            find_from(row@, ch, from as int) == find_from(row@, ch, i as int),
        decreases row@.len() - i,
    {
        if row[i] == ch {
            return i;
        }
        i = i + 1;
    }
    row.len()
}

fn find_run_end(row: &Vec<char>, from: usize) -> (i: usize)
    ensures
        i == run_end(row@, from as int),
{
    let mut i = from;
    while i < row.len()
        invariant
            from <= i,
            run_end(row@, from as int) == run_end(row@, i as int),
        decreases row@.len() - i,
    {
        if row[i] != '=' {
            return i;
        }
        i = i + 1;
    }
    row.len()
}

fn is_valid_track(row: &Vec<char>, c: usize, end: usize) -> (b: bool)
    requires
        c < end < row@.len(),
    ensures
        b == valid_track(row@, c as int, end as int),
{
    if c + 1 >= end {
        return false;
    }
    let mut any_eq = false;
    let mut i = c + 1;
    while i < end
        invariant
            c + 1 <= i <= end < row@.len(),
            forall|j: int| c < j < i ==> #[trigger] row@[j] == '=' || row@[j] == '-',
            any_eq <==> exists|j: int| c < j < i && #[trigger] row@[j] == '=',
        decreases end - i,
    {
        let ch = row[i];
        if ch != '=' && ch != '-' {
            assert(!(row@[i as int] == '=' || row@[i as int] == '-'));
            return false;
        }
        if ch == '=' {
            any_eq = true;
        }
        i = i + 1;
    }
    any_eq
}

impl MovingPlatform {
    fn scan_row_exec(grid: &mut Vec<Vec<char>>, r: usize, out: &mut Vec<MovingPlatform>)
        requires
            r < old(grid)@.len(),
        ensures
            final(grid).deep_view() == old(grid).deep_view().update(
                r as int,
                scan_row(old(grid).deep_view()[r as int], r as int, 0).1,
            ),
            final(out)@ == old(out)@ + scan_row(old(grid).deep_view()[r as int], r as int, 0).0,
            final(grid)@.len() == old(grid)@.len(),
    {
        let ghost g0 = grid.deep_view();
        let ghost row0 = g0[r as int];
        let ghost out0 = out@;
        let ghost mut acc: Seq<MovingPlatform> = seq![];
        let mut c: usize = 0;
        let len = grid[r].len();
        assert(grid.deep_view()[r as int] == grid@[r as int]@);
        while c < len
            invariant
                r < g0.len(),
                row0 == g0[r as int],
                grid@.len() == g0.len(),
                len == row0.len(),
                grid.deep_view() == g0.update(r as int, grid.deep_view()[r as int]),
                grid.deep_view()[r as int].len() == len,
                out@ == out0 + acc,
                acc + scan_row(grid.deep_view()[r as int], r as int, c as int).0 == scan_row(
                    row0,
                    r as int,
                    0,
                ).0,
                scan_row(grid.deep_view()[r as int], r as int, c as int).1 == scan_row(
                    row0,
                    r as int,
                    0,
                ).1,
            decreases len - c,
        {
            let ghost cur = grid.deep_view()[r as int];
            assert(grid.deep_view()[r as int] == grid@[r as int]@);
            if grid[r][c] == '+' {
                let end = find_char(&grid[r], '+', c + 1);
                proof {
                    lemma_find_from_range(cur, '+', c + 1);
                }
                if end < len {
                    if is_valid_track(&grid[r], c, end) {
                        let start = find_char(&grid[r], '=', c + 1);
                        let stop = find_run_end(&grid[r], start);
                        proof {
                            lemma_find_from_range(cur, '=', c + 1);
                            lemma_run_end_range(cur, start as int);
                        }
                        let p = MovingPlatform {
                            row: r,
                            left_bound: c,
                            right_bound: end,
                            start_col: start,
                            width: stop - start,
                            dir: 1,
                            half_tick: false,
                        };
                        assert(p == track_platform(cur, r as int, c as int, end as int));
                        out.push(p);
                        proof {
                            acc = acc.push(p);
                        }
                        set_cell(grid, r, c, ' ');
                        assert(grid.deep_view()[r as int] == grid@[r as int]@);
                        set_cell(grid, r, end, ' ');
                        let mut i = c + 1;
                        while i < end
                            invariant
                                r < g0.len(),
                                grid@.len() == g0.len(),
                                c < i <= end < len,
                                cur.len() == len,
                                grid.deep_view() == g0.update(r as int, grid.deep_view()[r as int]),
                                grid.deep_view()[r as int].len() == len,
                                forall|j: int|
                                    0 <= j < len ==> #[trigger] grid.deep_view()[r as int][j] == (
                                    if j < i || j == end {
                                        clear_track(cur, c as int, end as int)[j]
                                    } else {
                                        cur[j]
                                    }),
                            decreases end - i,
                        {
                            assert(grid.deep_view()[r as int] == grid@[r as int]@);
                            if grid[r][i] == '-' {
                                set_cell(grid, r, i, ' ');
                            }
                            i = i + 1;
                        }
                        assert(grid.deep_view()[r as int] =~= clear_track(
                            cur,
                            c as int,
                            end as int,
                        ));
                        assert(acc + scan_row(grid.deep_view()[r as int], r as int, (end + 1) as int).0
                            =~= scan_row(row0, r as int, 0).0);
                    }
                    c = end + 1;
                } else {
                    c = c + 1;
                }
            } else {
                c = c + 1;
            }
        }
        assert(grid.deep_view() =~= g0.update(r as int, scan_row(row0, r as int, 0).1));
        assert(out@ =~= out0 + scan_row(row0, r as int, 0).0);
    }

    /// Takes the moving platforms out of the grid: on each row, every `'+'`
    /// is paired with the next `'+'`, and where the tiles between make a
    /// track (`'='` and `'-'` only, with at least one `'='`) its first run of
    /// `'='` becomes a platform moving right, and the bounds and rails are
    /// cleared (the `'='` tiles stay).
    pub fn spawn_all(grid: &mut Vec<Vec<char>>) -> (platforms: Vec<MovingPlatform>)
        ensures
            platforms@ == moving_platforms(old(grid).deep_view()),
            final(grid).deep_view() == grid_after_moving(old(grid).deep_view()),
    {
        let ghost g0 = grid.deep_view();
        let mut platforms: Vec<MovingPlatform> = Vec::new();
        let rows = grid.len();
        let mut r: usize = 0;
        while r < rows
            invariant
                rows == g0.len(),
                r <= rows,
                grid@.len() == rows,
                forall|i: int|
                    0 <= i < rows ==> #[trigger] grid.deep_view()[i] == (if i < r {
                        scan_row(g0[i], i, 0).1
                    } else {
                        g0[i]
                    }),
                platforms@ == moving_platforms_upto(g0, r as int),
            decreases rows - r,
        {
            Self::scan_row_exec(grid, r, &mut platforms);
            r = r + 1;
        }
        assert(grid.deep_view() =~= grid_after_moving(g0));
        platforms
    }
}

/// The shape that `update` keeps: the platform moves right or left, is at
/// least one tile wide, lies between its bounds (it may touch one of them)
/// and is narrower than its track.
pub open spec fn moving_shape(p: MovingPlatform) -> bool {
    &&& p.dir == 1 || p.dir == -1
    &&& 1 <= p.width
    &&& p.left_bound <= p.start_col
    &&& p.start_col + p.width <= p.right_bound + 1
    &&& p.width + 1 <= p.right_bound - p.left_bound
}

/// The shape of a platform as `spawn_all` gives it, which `update` keeps
/// as well: strictly inside its bounds, with at least one free tile beside
/// it on the track.
pub open spec fn moving_strict(p: MovingPlatform) -> bool {
    &&& p.dir == 1 || p.dir == -1
    &&& 1 <= p.width
    &&& p.left_bound < p.start_col
    &&& p.start_col + p.width <= p.right_bound
    &&& p.width + 2 <= p.right_bound - p.left_bound
}

/// A moving platform of the right shape whose row is in the grid and long
/// enough to hold its right bound (the bounds also fit an `i32`, as the
/// carried columns are computed in `i32`). Other rows may have any length.
pub open spec fn moving_fits(p: MovingPlatform, g: Seq<Seq<char>>) -> bool {
    &&& moving_shape(p)
    &&& p.row < g.len()
    &&& p.right_bound < g[p.row as int].len()
    &&& p.row <= i32::MAX
    &&& p.right_bound < i32::MAX
}

/// A moving platform that fits a rectangular grid.
pub open spec fn moving_wf(p: MovingPlatform, g: Seq<Seq<char>>) -> bool {
    &&& grid_wf(g)
    &&& moving_fits(p, g)
}

/// The direction after the bounds check: a platform that reached its right
/// bound turns left, one that reached its left bound turns right.
pub open spec fn moving_dir(p: MovingPlatform) -> i32 {
    if p.dir > 0 && p.start_col + p.width >= p.right_bound {
        -1i32
    } else if p.dir < 0 && p.start_col <= p.left_bound + 1 {
        1i32
    } else {
        p.dir
    }
}

/// The row with the platform tiles `cl..=cr` shifted one tile in `dir`.
pub open spec fn shift_row(row: Seq<char>, cl: int, cr: int, dir: int) -> Seq<char> {
    if dir > 0 {
        Seq::new(
            row.len(),
            |j: int|
                if j == cl {
                    ' '
                } else if cl < j <= cr + 1 {
                    '='
                } else {
                    row[j]
                },
        )
    } else {
        Seq::new(
            row.len(),
            |j: int|
                if j == cr {
                    ' '
                } else if cl - 1 <= j <= cr - 1 {
                    '='
                } else {
                    row[j]
                },
        )
    }
}

/// The column of something at `(col, row)` once a platform under row `prow`,
/// spanning `cl..=cr`, moved one tile in `dir`: carried along if it stood
/// on the platform and the new column is inside the grid.
pub open spec fn carried_col(col: i32, row: i32, prow: int, cl: int, cr: int, dir: int, cols: int) -> i32 {
    if row == prow && cl <= col <= cr && 0 <= col + dir < cols {
        (col + dir) as i32
    } else {
        col
    }
}

/// One tick of a moving platform: it moves every other tick, turning at its
/// bounds, shifts its tiles in the grid, and carries the player and the
/// enemies standing on it.
pub open spec fn moving_tick(p: MovingPlatform, g: Seq<Seq<char>>, pl: Player, es: Seq<Enemy>) -> (
    MovingPlatform,
    Seq<Seq<char>>,
    Player,
    Seq<Enemy>,
) {
    let half = !p.half_tick;
    if !half {
        (MovingPlatform { half_tick: half, ..p }, g, pl, es)
    } else {
        let cl = p.start_col as int;
        let cr = cl + p.width - 1;
        let d = moving_dir(p);
        let g2 = g.update(p.row as int, shift_row(g[p.row as int], cl, cr, d as int));
        let p2 = MovingPlatform { half_tick: half, dir: d, start_col: (p.start_col + d) as usize, ..p };
        let prow = p.row - 1;
        if prow >= 0 {
            let cols = cols_of(g);
            let pl2 = Player { col: carried_col(pl.col, pl.row, prow, cl, cr, d as int, cols), ..pl };
            let es2 = es.map_values(
                |e: Enemy| Enemy { col: carried_col(e.col, e.row, prow, cl, cr, d as int, cols), ..e },
            );
            (p2, g2, pl2, es2)
        } else {
            (p2, g2, pl, es)
        }
    }
}

/// A platform that `scan_row` may give for row `r` of length `len`.
pub open spec fn track_ok(p: MovingPlatform, r: int, len: int) -> bool {
    &&& p.row == r
    &&& p.dir == 1
    &&& !p.half_tick
    &&& 1 <= p.width
    &&& p.left_bound < p.start_col
    &&& p.start_col + p.width <= p.right_bound
    &&& p.right_bound < len
}

proof fn lemma_scan_row_ok(row: Seq<char>, r: int, c: int)
    requires
        0 <= r <= usize::MAX,
        row.len() <= usize::MAX,
    ensures
        scan_row(row, r, c).1.len() == row.len(),
        forall|k: int|
            0 <= k < scan_row(row, r, c).0.len() ==> track_ok(
                #[trigger] scan_row(row, r, c).0[k],
                r,
                row.len() as int,
            ),
    decreases row.len() - c,
{
    if c >= row.len() || c < 0 {
    } else if row[c] == '+' {
        let end = find_from(row, '+', c + 1);
        lemma_find_from_range(row, '+', c + 1);
        if end < row.len() {
            if valid_track(row, c, end) {
                let row2 = clear_track(row, c, end);
                lemma_scan_row_ok(row2, r, end + 1);
                let start = find_from(row, '=', c + 1);
                lemma_find_from_range(row, '=', c + 1);
                let w = choose|i: int| c < i < end && #[trigger] row[i] == '=';
                assert(start <= w);
                lemma_run_end_range(row, start);
                assert(run_end(row, start) <= end) by {
                    if run_end(row, start) > end {
                        assert(row[end] == '=');
                    }
                }
                assert(run_end(row, start) > start);
                let rest = scan_row(row2, r, end + 1);
                let all = seq![track_platform(row, r, c, end)] + rest.0;
                assert forall|k: int| 0 <= k < all.len() implies track_ok(
                    #[trigger] all[k],
                    r,
                    row.len() as int,
                ) by {
                    if k > 0 {
                        assert(all[k] == rest.0[k - 1]);
                    }
                }
            } else {
                lemma_scan_row_ok(row, r, end + 1);
            }
        } else {
            lemma_scan_row_ok(row, r, c + 1);
        }
    } else {
        lemma_scan_row_ok(row, r, c + 1);
    }
}

proof fn lemma_moving_upto_ok(g: Seq<Seq<char>>, n: int)
    requires
        grid_wf(g),
        n <= g.len(),
    ensures
        forall|k: int|
            0 <= k < moving_platforms_upto(g, n).len() ==> {
                &&& (#[trigger] moving_platforms_upto(g, n)[k]).row < n
                &&& track_ok(
                    moving_platforms_upto(g, n)[k],
                    moving_platforms_upto(g, n)[k].row as int,
                    cols_of(g),
                )
            },
    decreases n,
{
    if n > 0 {
        lemma_moving_upto_ok(g, n - 1);
        lemma_scan_row_ok(g[n - 1], n - 1, 0);
        let a = moving_platforms_upto(g, n - 1);
        let b = scan_row(g[n - 1], n - 1, 0).0;
        assert(g[n - 1].len() == cols_of(g));
        assert forall|k: int| 0 <= k < (a + b).len() implies {
            &&& (#[trigger] (a + b)[k]).row < n
            &&& track_ok((a + b)[k], (a + b)[k].row as int, cols_of(g))
        } by {
            if k >= a.len() {
                assert((a + b)[k] == b[k - a.len()]);
            }
        }
    }
}

/// Law: the moving platforms that a well-formed grid spawns fit the grid
/// they leave behind, so `update` can run on them.
pub proof fn lemma_spawned_moving_wf(g: Seq<Seq<char>>)
    requires
        grid_wf(g),
    ensures
        grid_wf(grid_after_moving(g)),
        grid_after_moving(g).len() == g.len(),
        grid_after_moving(g)[0].len() == g[0].len(),
        forall|k: int|
            0 <= k < moving_platforms(g).len() ==> moving_wf(
                #[trigger] moving_platforms(g)[k],
                grid_after_moving(g),
            ),
{
    let g2 = grid_after_moving(g);
    assert forall|r: int| 0 <= r < g.len() implies #[trigger] g2[r].len() == g[r].len() by {
        lemma_scan_row_ok(g[r], r, 0);
    }
    assert(g2[0].len() == g[0].len());
    lemma_moving_upto_ok(g, g.len() as int);
}

impl MovingPlatform {
    /// One tick (see `moving_tick`).
    pub fn update(&mut self, grid: &mut Vec<Vec<char>>, player: &mut Player, enemies: &mut Vec<Enemy>)
        requires
            old(self).half_tick || moving_fits(*old(self), old(grid).deep_view()),
        ensures
            (*final(self), final(grid).deep_view(), *final(player), final(enemies)@) == moving_tick(
                *old(self),
                old(grid).deep_view(),
                *old(player),
                old(enemies)@,
            ),
            moving_fits(*old(self), old(grid).deep_view()) ==> moving_fits(
                *final(self),
                final(grid).deep_view(),
            ),
            moving_wf(*old(self), old(grid).deep_view()) ==> moving_wf(*final(self), final(grid).deep_view()),
            moving_strict(*old(self)) ==> moving_strict(*final(self)),
            final(self).row == old(self).row,
            final(self).width == old(self).width,
            final(self).left_bound == old(self).left_bound,
            final(self).right_bound == old(self).right_bound,
    {
        let ghost g0 = grid.deep_view();
        self.half_tick = !self.half_tick;
        if !self.half_tick {
            return;
        }
        let cur_left = self.start_col;
        let cur_right = self.start_col + self.width - 1;
        if self.dir > 0 && cur_right + 1 >= self.right_bound {
            self.dir = -1;
        } else if self.dir < 0 && cur_left <= self.left_bound + 1 {
            self.dir = 1;
        }
        let r = self.row;
        let ghost row0 = g0[r as int];
        if self.dir > 0 {
            let mut j = cur_left + 1;
            while j <= cur_right + 1
                invariant
                    r < g0.len(),
                    grid@.len() == g0.len(),
                    cur_left < j <= cur_right + 2,
                    cur_right + 1 < row0.len(),
                    cur_right + 1 < i32::MAX,
                    grid.deep_view() == g0.update(r as int, grid.deep_view()[r as int]),
                    grid.deep_view()[r as int].len() == row0.len(),
                    forall|k: int|
                        0 <= k < row0.len() ==> #[trigger] grid.deep_view()[r as int][k] == (if cur_left
                            < k < j {
                            '='
                        } else {
                            row0[k]
                        }),
                decreases cur_right + 2 - j,
            {
                assert(grid.deep_view()[r as int] == grid@[r as int]@);
                set_cell(grid, r, j, '=');
                j = j + 1;
            }
            assert(grid.deep_view()[r as int] == grid@[r as int]@);
            set_cell(grid, r, cur_left, ' ');
            assert(grid.deep_view()[r as int] =~= shift_row(
                row0,
                cur_left as int,
                cur_right as int,
                1,
            ));
        } else {
            let mut j = cur_left - 1;
            while j < cur_right
                invariant
                    r < g0.len(),
                    grid@.len() == g0.len(),
                    1 <= cur_left,
                    cur_left - 1 <= j <= cur_right,
                    cur_right < row0.len(),
                    grid.deep_view() == g0.update(r as int, grid.deep_view()[r as int]),
                    grid.deep_view()[r as int].len() == row0.len(),
                    forall|k: int|
                        0 <= k < row0.len() ==> #[trigger] grid.deep_view()[r as int][k] == (if cur_left
                            - 1 <= k < j {
                            '='
                        } else {
                            row0[k]
                        }),
                decreases cur_right - j,
            {
                assert(grid.deep_view()[r as int] == grid@[r as int]@);
                set_cell(grid, r, j, '=');
                j = j + 1;
            }
            assert(grid.deep_view()[r as int] == grid@[r as int]@);
            set_cell(grid, r, cur_right, ' ');
            assert(grid.deep_view()[r as int] =~= shift_row(
                row0,
                cur_left as int,
                cur_right as int,
                -1,
            ));
        }
        assert(grid.deep_view() =~= g0.update(
            r as int,
            shift_row(row0, cur_left as int, cur_right as int, self.dir as int),
        ));
        if self.dir > 0 {
            self.start_col = self.start_col + 1;
        } else {
            self.start_col = self.start_col - 1;
        }
        proof {
            assert forall|i: int| 0 <= i < grid.deep_view().len() implies #[trigger] grid.deep_view()[i].len()
                == g0[i].len() by {}
        }
        if r >= 1 {
            let passenger_row: i32 = (r - 1) as i32;
            let old_left = cur_left as i32;
            let old_right = cur_right as i32;
            let cols = grid[0].len();
            assert(cols == cols_of(g0)) by {
                assert(grid.deep_view()[0] == grid@[0]@);
            }
            if player.row == passenger_row && player.col >= old_left && player.col <= old_right {
                let new_col = player.col + self.dir;
                if new_col >= 0 && (new_col as usize) < cols {
                    player.col = new_col;
                }
            }
            let ghost es0 = enemies@;
            let n = enemies.len();
            let mut i: usize = 0;
            while i < n
                invariant
                    n == es0.len(),
                    enemies@.len() == n,
                    i <= n,
                    self.dir == 1 || self.dir == -1,
                    old_left as int == cur_left as int,
                    old_right as int == cur_right as int,
                    cur_right < i32::MAX,
                    forall|k: int|
                        0 <= k < n ==> #[trigger] enemies@[k] == (if k < i {
                            Enemy {
                                col: carried_col(
                                    es0[k].col,
                                    es0[k].row,
                                    passenger_row as int,
                                    cur_left as int,
                                    cur_right as int,
                                    self.dir as int,
                                    cols as int,
                                ),
                                ..es0[k]
                            }
                        } else {
                            es0[k]
                        }),
                decreases n - i,
            {
                let mut e = enemies[i];
                if e.row == passenger_row && e.col >= old_left && e.col <= old_right {
                    let new_col = e.col + self.dir;
                    if new_col >= 0 && (new_col as usize) < cols {
                        e.col = new_col;
                    }
                }
                enemies.set(i, e);
                i = i + 1;
            }
            assert(enemies@ =~= es0.map_values(
                |e: Enemy|
                    Enemy {
                        col: carried_col(
                            e.col,
                            e.row,
                            passenger_row as int,
                            cur_left as int,
                            cur_right as int,
                            self.dir as int,
                            cols as int,
                        ),
                        ..e
                    },
            ));
        }
    }
}

} // verus!

verus! {

/// A platform of `'='` tiles that moves up and down in a shaft between two
/// `'+'` bounds, one row every other tick, carrying what stands on it.
#[derive(Clone, Copy, Debug)]
pub struct VerticalPlatform {
    /// Current row of the `'='` tiles.
    pub row: usize,
    /// Leftmost `'='` column.
    pub start_col: usize,
    /// Number of `'='` tiles.
    pub width: usize,
    /// Row of the top `'+'`.
    pub top_bound: usize,
    /// Row of the bottom `'+'`.
    pub bottom_bound: usize,
    /// -1 moves up, 1 moves down.
    pub dir: i32,
    pub half_tick: bool,
}

/// All rows have the length of the first.
pub open spec fn rectangular(g: Seq<Seq<char>>) -> bool {
    forall|r: int| 0 <= r < g.len() ==> #[trigger] g[r].len() == g[0].len()
}

/// No row is shorter than the first.
pub open spec fn wide_rows(g: Seq<Seq<char>>) -> bool {
    forall|r: int| 0 <= r < g.len() ==> g[0].len() <= #[trigger] g[r].len()
}

/// Going down column `c` from row `from`: the first row that does not hold
/// a `'|'`, or the number of rows.
pub open spec fn skip_bars(g: Seq<Seq<char>>, c: int, from: int) -> int
    decreases g.len() - from,
{
    if from >= g.len() {
        g.len() as int
    } else if from >= 0 && g[from][c] != '|' {
        from
    } else {
        skip_bars(g, c, from + 1)
    }
}

/// Leftmost column of the run of `'='` through column `c`.
pub open spec fn extend_left(row: Seq<char>, c: int) -> int
    decreases c,
{
    if c > 0 && row[c - 1] == '=' {
        extend_left(row, c - 1)
    } else {
        c
    }
}

/// Rightmost column of the run of `'='` through column `c`, looking no
/// further than column `cols - 1`.
pub open spec fn extend_right(row: Seq<char>, c: int, cols: int) -> int
    decreases cols - c,
{
    if 0 <= c && c + 1 < cols && row[c + 1] == '=' {
        extend_right(row, c + 1, cols)
    } else {
        c
    }
}

/// Whether one of the platforms already takes the tile `(col, row)`.
pub open spec fn claimed(ps: Seq<VerticalPlatform>, row: int, col: int) -> bool {
    exists|k: int|
        0 <= k < ps.len() && (#[trigger] ps[k]).row == row && ps[k].start_col <= col < ps[k].start_col
            + ps[k].width
}

/// The grid with the shaft of a platform cleared: both `'+'` bounds and the
/// `'|'` rails in column `c` between them.
pub open spec fn clear_shaft(g: Seq<Seq<char>>, c: int, top: int, eq_row: int, bottom: int) -> Seq<
    Seq<char>,
> {
    Seq::new(
        g.len(),
        |i: int|
            if i == top || i == bottom || (top < i < bottom && i != eq_row && g[i][c] == '|') {
                g[i].update(c, ' ')
            } else {
                g[i]
            },
    )
}

/// Looking at `(c, r)`: a `'+'` with `'|'` rails below it down to a row of
/// `'='` not yet taken, then `'|'` rails down to another `'+'`, makes a
/// platform (the whole run of `'='`), and its shaft is cleared.
pub open spec fn vertical_step(g: Seq<Seq<char>>, ps: Seq<VerticalPlatform>, c: int, r: int) -> (
    Seq<Seq<char>>,
    Seq<VerticalPlatform>,
) {
    let rows = g.len() as int;
    if g[r][c] != '+' {
        (g, ps)
    } else {
        let eq_row = skip_bars(g, c, r + 1);
        if eq_row == r + 1 || eq_row >= rows || g[eq_row][c] != '=' {
            (g, ps)
        } else {
            let l = extend_left(g[eq_row], c);
            let rt = extend_right(g[eq_row], c, g[0].len() as int);
            if claimed(ps, eq_row, l) {
                (g, ps)
            } else {
                let bottom = skip_bars(g, c, eq_row + 1);
                if bottom == eq_row + 1 || bottom >= rows || g[bottom][c] != '+' {
                    (g, ps)
                } else {
                    let p = VerticalPlatform {
                        row: eq_row as usize,
                        start_col: l as usize,
                        width: (rt - l + 1) as usize,
                        top_bound: r as usize,
                        bottom_bound: bottom as usize,
                        dir: 1,
                        half_tick: false,
                    };
                    (clear_shaft(g, c, r, eq_row, bottom), ps.push(p))
                }
            }
        }
    }
}

/// `vertical_step` on the rows `r..` of column `c`, top to bottom.
pub open spec fn vertical_scan_col(g: Seq<Seq<char>>, ps: Seq<VerticalPlatform>, c: int, r: int) -> (
    Seq<Seq<char>>,
    Seq<VerticalPlatform>,
)
    decreases g.len() - r,
{
    if r >= g.len() || r < 0 {
        (g, ps)
    } else {
        let s = vertical_step(g, ps, c, r);
        vertical_scan_col(s.0, s.1, c, r + 1)
    }
}

/// `vertical_scan_col` on the columns `c..cols`, left to right.
pub open spec fn vertical_scan(g: Seq<Seq<char>>, ps: Seq<VerticalPlatform>, c: int, cols: int) -> (
    Seq<Seq<char>>,
    Seq<VerticalPlatform>,
)
    decreases cols - c,
{
    if c >= cols || c < 0 {
        (g, ps)
    } else {
        let s = vertical_scan_col(g, ps, c, 0);
        vertical_scan(s.0, s.1, c + 1, cols)
    }
}

/// Number of columns, 0 for a grid without rows.
pub open spec fn width_of(g: Seq<Seq<char>>) -> int {
    if g.len() > 0 {
        g[0].len() as int
    } else {
        0
    }
}

/// The vertical platforms of a grid, column by column.
pub open spec fn vertical_platforms(g: Seq<Seq<char>>) -> Seq<VerticalPlatform> {
    vertical_scan(g, seq![], 0, width_of(g)).1
}

/// The grid once its vertical platforms are spawned.
pub open spec fn grid_after_vertical(g: Seq<Seq<char>>) -> Seq<Seq<char>> {
    vertical_scan(g, seq![], 0, width_of(g)).0
}


/// The flags of `m` say which tiles the platforms take, on a
/// `rows` by `cols` grid.
pub open spec fn claims_match(m: Seq<Seq<bool>>, ps: Seq<VerticalPlatform>, rows: int, cols: int) -> bool {
    &&& m.len() == rows
    &&& forall|i: int| 0 <= i < rows ==> (#[trigger] m[i]).len() == cols
    &&& forall|i: int, j: int| 0 <= i < rows && 0 <= j < cols ==> #[trigger] m[i][j] == claimed(ps, i, j)
}

fn set_flag(m: &mut Vec<Vec<bool>>, r: usize, c: usize)
    requires
        r < old(m)@.len(),
        c < old(m)@[r as int]@.len(),
    ensures
        final(m).deep_view() == old(m).deep_view().update(
            r as int,
            old(m).deep_view()[r as int].update(c as int, true),
        ),
        final(m)@.len() == old(m)@.len(),
{
    m[r].set(c, true);
    assert forall|i: int| 0 <= i < m@.len() implies #[trigger] m.deep_view()[i]
        == old(m).deep_view().update(
        r as int,
        old(m).deep_view()[r as int].update(c as int, true),
    )[i] by {
        if i == r as int {
            assert(m@[i]@ =~= old(m)@[i]@.update(c as int, true));
        }
    }
    assert(m.deep_view() =~= old(m).deep_view().update(
        r as int,
        old(m).deep_view()[r as int].update(c as int, true),
    ));
}

/// Lemma: `skip_bars` stops at the first row from `from` on without a
/// `'|'` in column `c`.
pub proof fn lemma_skip_bars_range(g: Seq<Seq<char>>, c: int, from: int)
    requires
        0 <= from,
    ensures
        from <= skip_bars(g, c, from) <= g.len() || (from > g.len() && skip_bars(g, c, from) == g.len()),
        skip_bars(g, c, from) < g.len() ==> g[skip_bars(g, c, from)][c] != '|',
        forall|i: int| from <= i < skip_bars(g, c, from) ==> #[trigger] g[i][c] == '|',
    decreases g.len() - from,
{
    if from < g.len() && g[from][c] == '|' {
        lemma_skip_bars_range(g, c, from + 1);
    }
}

fn skip_bars_exec(grid: &Vec<Vec<char>>, c: usize, from: usize) -> (i: usize)
    requires
        wide_rows(grid.deep_view()),
        grid@.len() > 0,
        c < grid.deep_view()[0].len(),
    ensures
        i == skip_bars(grid.deep_view(), c as int, from as int),
{
    let mut i = from;
    while i < grid.len()
        invariant
            from <= i,
            wide_rows(grid.deep_view()),
            grid@.len() > 0,
            c < grid.deep_view()[0].len(),
            skip_bars(grid.deep_view(), c as int, from as int) == skip_bars(
                grid.deep_view(),
                c as int,
                i as int,
            ),
        decreases grid@.len() - i,
    {
        assert(grid.deep_view()[i as int] == grid@[i as int]@);
        assert(grid.deep_view()[i as int].len() >= grid.deep_view()[0].len());
        if grid[i][c] != '|' {
            return i;
        }
        i = i + 1;
    }
    grid.len()
}

impl VerticalPlatform {
    fn step_exec(
        grid: &mut Vec<Vec<char>>,
        claims: &mut Vec<Vec<bool>>,
        platforms: &mut Vec<VerticalPlatform>,
        c: usize,
        r: usize,
    )
        requires
            wide_rows(old(grid).deep_view()),
            r < old(grid)@.len(),
            c < old(grid).deep_view()[0].len(),
            claims_match(
                old(claims).deep_view(),
                old(platforms)@,
                old(grid)@.len() as int,
                old(grid).deep_view()[0].len() as int,
            ),
        ensures
            (final(grid).deep_view(), final(platforms)@) == vertical_step(
                old(grid).deep_view(),
                old(platforms)@,
                c as int,
                r as int,
            ),
            final(grid)@.len() == old(grid)@.len(),
            forall|i: int|
                0 <= i < old(grid)@.len() ==> #[trigger] final(grid).deep_view()[i].len() == old(
                    grid,
                ).deep_view()[i].len(),
            claims_match(
                final(claims).deep_view(),
                final(platforms)@,
                old(grid)@.len() as int,
                old(grid).deep_view()[0].len() as int,
            ),
    {
        let ghost g0 = grid.deep_view();
        let rows = grid.len();
        let cols = grid[0].len();
        assert(cols == g0[0].len()) by {
            assert(g0[0] == grid@[0]@);
        }
        assert(g0[r as int] == grid@[r as int]@);
        assert(g0[r as int].len() >= cols);
        if grid[r][c] != '+' {
            return;
        }
        let eq_row = skip_bars_exec(grid, c, r + 1);
        proof {
            lemma_skip_bars_range(g0, c as int, r + 1);
        }
        if eq_row == r + 1 || eq_row >= rows {
            return;
        }
        assert(g0[eq_row as int] == grid@[eq_row as int]@);
        assert(g0[eq_row as int].len() >= cols);
        if grid[eq_row][c] != '=' {
            return;
        }
        let ghost erow = g0[eq_row as int];
        let mut eq_left = c;
        while eq_left > 0 && grid[eq_row][eq_left - 1] == '='
            invariant
                eq_left <= c < cols,
                eq_row < grid@.len(),
                erow == grid@[eq_row as int]@,
                erow.len() >= cols,
                extend_left(erow, c as int) == extend_left(erow, eq_left as int),
            decreases eq_left,
        {
            eq_left = eq_left - 1;
        }
        let mut eq_right = c;
        while eq_right + 1 < cols && grid[eq_row][eq_right + 1] == '='
            invariant
                c <= eq_right < cols,
                eq_row < grid@.len(),
                erow == grid@[eq_row as int]@,
                erow.len() >= cols,
                extend_right(erow, c as int, cols as int) == extend_right(erow, eq_right as int, cols as int),
            decreases cols - eq_right,
        {
            eq_right = eq_right + 1;
        }
        assert(claims.deep_view()[eq_row as int] == claims@[eq_row as int]@);
        if claims[eq_row][eq_left] {
            return;
        }
        let mut scan = skip_bars_exec(grid, c, eq_row + 1);
        proof {
            lemma_skip_bars_range(g0, c as int, eq_row + 1);
        }
        if scan == eq_row + 1 || scan >= rows {
            return;
        }
        assert(g0[scan as int] == grid@[scan as int]@);
        assert(g0[scan as int].len() >= cols);
        if grid[scan][c] != '+' {
            return;
        }
        let bottom_plus = scan;
        let width = eq_right - eq_left + 1;
        let ghost ps0 = platforms@;
        let p = VerticalPlatform {
            row: eq_row,
            start_col: eq_left,
            width,
            top_bound: r,
            bottom_bound: bottom_plus,
            dir: 1,
            half_tick: false,
        };
        let mut col = eq_left;
        while col <= eq_right
            invariant
                eq_left <= col <= eq_right + 1,
                eq_right < cols,
                eq_row < rows,
                claims.deep_view().len() == rows,
                forall|i: int| 0 <= i < rows ==> (#[trigger] claims.deep_view()[i]).len() == cols,
                forall|i: int, j: int|
                    0 <= i < rows && 0 <= j < cols ==> #[trigger] claims.deep_view()[i][j] == (claimed(
                        ps0,
                        i,
                        j,
                    ) || (i == eq_row && eq_left <= j < col)),
            decreases eq_right + 1 - col,
        {
            assert(claims.deep_view()[eq_row as int] == claims@[eq_row as int]@);
            set_flag(claims, eq_row, col);
            col = col + 1;
        }
        platforms.push(p);
        proof {
            assert forall|i: int, j: int| 0 <= i < rows && 0 <= j < cols implies #[trigger] claims.deep_view()[i][j]
                == claimed(platforms@, i, j) by {
                if i == eq_row && eq_left <= j <= eq_right {
                    assert(platforms@[ps0.len() as int] == p);
                } else if claimed(platforms@, i, j) {
                    let k = choose|k: int|
                        0 <= k < platforms@.len() && (#[trigger] platforms@[k]).row == i
                            && platforms@[k].start_col <= j < platforms@[k].start_col + platforms@[k].width;
                    if k < ps0.len() {
                        assert(platforms@[k] == ps0[k]);
                    }
                }
                if claimed(ps0, i, j) {
                    let k = choose|k: int|
                        0 <= k < ps0.len() && (#[trigger] ps0[k]).row == i && ps0[k].start_col <= j
                            < ps0[k].start_col + ps0[k].width;
                    assert(platforms@[k] == ps0[k]);
                }
            }
        }
        set_cell(grid, r, c, ' ');
        assert(grid.deep_view()[bottom_plus as int] == grid@[bottom_plus as int]@);
        set_cell(grid, bottom_plus, c, ' ');
        let mut row = r + 1;
        while row < eq_row
            invariant
                r < row <= eq_row < bottom_plus < rows,
                c < cols,
                rows == g0.len(),
                wide_rows(g0),
                g0[0].len() == cols,
                grid@.len() == rows,
                forall|i: int|
                    0 <= i < rows ==> #[trigger] grid.deep_view()[i] == (if i == r || i == bottom_plus
                        || (r < i < row && g0[i][c as int] == '|') {
                        g0[i].update(c as int, ' ')
                    } else {
                        g0[i]
                    }),
            decreases eq_row - row,
        {
            assert(grid.deep_view()[row as int] == grid@[row as int]@);
            assert(g0[row as int].len() >= cols);
            if grid[row][c] == '|' {
                set_cell(grid, row, c, ' ');
            }
            row = row + 1;
        }
        let mut row = eq_row + 1;
        while row < bottom_plus
            invariant
                r < eq_row < row <= bottom_plus < rows,
                c < cols,
                rows == g0.len(),
                wide_rows(g0),
                g0[0].len() == cols,
                grid@.len() == rows,
                forall|i: int|
                    0 <= i < rows ==> #[trigger] grid.deep_view()[i] == (if i == r || i == bottom_plus
                        || (r < i < eq_row && g0[i][c as int] == '|') || (eq_row < i < row
                        && g0[i][c as int] == '|') {
                        g0[i].update(c as int, ' ')
                    } else {
                        g0[i]
                    }),
            decreases bottom_plus - row,
        {
            assert(grid.deep_view()[row as int] == grid@[row as int]@);
            assert(g0[row as int].len() >= cols);
            if grid[row][c] == '|' {
                set_cell(grid, row, c, ' ');
            }
            row = row + 1;
        }
        assert(grid.deep_view() =~= clear_shaft(
            g0,
            c as int,
            r as int,
            eq_row as int,
            bottom_plus as int,
        ));
    }

    /// Takes the vertical platforms out of the grid, scanning column by
    /// column from the top: a `'+'` with `'|'` rails below it down to a run of
    /// `'='` not yet taken, then `'|'` rails down to another `'+'`, makes a
    /// platform moving down; its `'+'` bounds and `'|'` rails are cleared (the
    /// `'='` tiles stay).
    pub fn spawn_all(grid: &mut Vec<Vec<char>>) -> (platforms: Vec<VerticalPlatform>)
        requires
            wide_rows(old(grid).deep_view()),
        ensures
            platforms@ == vertical_platforms(old(grid).deep_view()),
            final(grid).deep_view() == grid_after_vertical(old(grid).deep_view()),
            final(grid)@.len() == old(grid)@.len(),
            forall|i: int|
                0 <= i < old(grid)@.len() ==> #[trigger] final(grid).deep_view()[i].len() == old(
                    grid,
                ).deep_view()[i].len(),
    {
        let ghost g0 = grid.deep_view();
        let mut platforms: Vec<VerticalPlatform> = Vec::new();
        let rows = grid.len();
        let cols = if rows > 0 {
            grid[0].len()
        } else {
            0
        };
        proof {
            if rows > 0 {
                assert(g0[0] == grid@[0]@);
            }
        }
        let mut claims: Vec<Vec<bool>> = Vec::new();
        let mut i: usize = 0;
        while i < rows
            invariant
                i <= rows,
                claims@.len() == i,
                forall|k: int| 0 <= k < i ==> (#[trigger] claims@[k])@.len() == cols,
                forall|k: int, j: int| 0 <= k < i && 0 <= j < cols ==> !#[trigger] claims@[k]@[j],
            decreases rows - i,
        {
            let mut line: Vec<bool> = Vec::new();
            let mut j: usize = 0;
            while j < cols
                invariant
                    j <= cols,
                    line@.len() == j,
                    forall|k: int| 0 <= k < j ==> !#[trigger] line@[k],
                decreases cols - j,
            {
                line.push(false);
                j = j + 1;
            }
            claims.push(line);
            i = i + 1;
        }
        proof {
            assert forall|k: int, j: int| 0 <= k < rows && 0 <= j < cols implies #[trigger] claims.deep_view()[k][j]
                == claimed(platforms@, k, j) by {
                assert(claims.deep_view()[k] == claims@[k]@);
            }
            assert forall|k: int| 0 <= k < rows implies (#[trigger] claims.deep_view()[k]).len() == cols by {
                assert(claims.deep_view()[k] == claims@[k]@);
            }
        }
        let mut c: usize = 0;
        while c < cols
            invariant
                rows == g0.len(),
                cols == width_of(g0),
                c <= cols,
                grid@.len() == rows,
                forall|i: int| 0 <= i < rows ==> #[trigger] grid.deep_view()[i].len() == g0[i].len(),
                wide_rows(g0),
                rows > 0 ==> g0[0].len() == cols,
                claims_match(claims.deep_view(), platforms@, rows as int, cols as int),
                vertical_scan(grid.deep_view(), platforms@, c as int, cols as int) == vertical_scan(
                    g0,
                    seq![],
                    0,
                    cols as int,
                ),
            decreases cols - c,
        {
            let mut r: usize = 0;
            while r < rows
                invariant
                    rows == g0.len(),
                    cols == width_of(g0),
                    c < cols,
                    r <= rows,
                    grid@.len() == rows,
                    forall|i: int| 0 <= i < rows ==> #[trigger] grid.deep_view()[i].len() == g0[i].len(),
                    wide_rows(g0),
                    g0[0].len() == cols,
                    claims_match(claims.deep_view(), platforms@, rows as int, cols as int),
                    ({
                        let s = vertical_scan_col(grid.deep_view(), platforms@, c as int, r as int);
                        vertical_scan(s.0, s.1, c + 1, cols as int)
                    }) == vertical_scan(g0, seq![], 0, cols as int),
                decreases rows - r,
            {
                Self::step_exec(grid, &mut claims, &mut platforms, c, r);
                r = r + 1;
            }
            c = c + 1;
        }
        platforms
    }
}


/// The shape that `update` keeps: the platform moves up or down, is at
/// least one tile wide and lies strictly between its bounds, and the shaft
/// leaves it room to turn.
pub open spec fn vertical_shape(p: VerticalPlatform) -> bool {
    &&& p.top_bound < p.row < p.bottom_bound
    &&& p.top_bound + 3 <= p.bottom_bound
    &&& p.dir == 1 || p.dir == -1
    &&& 1 <= p.width
}

/// A vertical platform of the right shape whose next move stays in the
/// grid: the row it leaves and the row it enters are long enough to hold
/// its tiles (its row and columns also fit an `i32`, as the carried rows
/// are computed in `i32`).
pub open spec fn vertical_ready(p: VerticalPlatform, g: Seq<Seq<char>>) -> bool {
    &&& vertical_shape(p)
    &&& p.row <= i32::MAX
    &&& p.start_col + p.width <= i32::MAX
    &&& p.row < g.len()
    &&& p.start_col + p.width <= g[p.row as int].len()
    &&& p.row + vertical_dir(p) < g.len()
    &&& p.start_col + p.width <= g[p.row + vertical_dir(p)].len()
}

/// A vertical platform of the right shape whose whole shaft lies in the
/// grid, each row of it long enough to hold its tiles. Other rows may have
/// any length.
pub open spec fn vertical_fits(p: VerticalPlatform, g: Seq<Seq<char>>) -> bool {
    &&& vertical_shape(p)
    &&& p.bottom_bound < g.len()
    &&& p.bottom_bound <= i32::MAX
    &&& p.start_col + p.width <= i32::MAX
    &&& forall|i: int| p.top_bound < i < p.bottom_bound ==> p.start_col + p.width <= #[trigger] g[i].len()
}

/// A vertical platform that fits a rectangular grid.
pub open spec fn vertical_wf(p: VerticalPlatform, g: Seq<Seq<char>>) -> bool {
    &&& grid_wf(g)
    &&& vertical_fits(p, g)
}

/// Lemma: a platform that fits its grid is ready to move.
pub proof fn lemma_fits_ready(p: VerticalPlatform, g: Seq<Seq<char>>)
    requires
        vertical_fits(p, g),
    ensures
        vertical_ready(p, g),
{
    assert(p.start_col + p.width <= g[p.row as int].len());
    assert(p.start_col + p.width <= g[p.row + vertical_dir(p)].len());
}

/// The direction after the bounds check: a platform next to its bottom
/// bound turns up, one next to its top bound turns down.
pub open spec fn vertical_dir(p: VerticalPlatform) -> i32 {
    if p.dir > 0 && p.row + 1 >= p.bottom_bound {
        -1i32
    } else if p.dir < 0 && p.row <= p.top_bound + 1 {
        1i32
    } else {
        p.dir
    }
}

/// The row with the tiles `from..to` set to `ch`.
pub open spec fn fill(row: Seq<char>, from: int, to: int, ch: char) -> Seq<char> {
    Seq::new(row.len(), |j: int| if from <= j < to { ch } else { row[j] })
}

/// The row of something at `(col, row)` once a platform under row `prow`,
/// spanning `left..=right`, moved one row in `dir`.
pub open spec fn carried_row(col: i32, row: i32, prow: int, left: int, right: int, dir: int) -> i32 {
    if row == prow && left <= col <= right {
        (row + dir) as i32
    } else {
        row
    }
}

/// One tick of a vertical platform: it moves every other tick, turning next
/// to its bounds, moves its tiles in the grid, and carries the player and
/// the enemies standing on it.
pub open spec fn vertical_tick(p: VerticalPlatform, g: Seq<Seq<char>>, pl: Player, es: Seq<Enemy>) -> (
    VerticalPlatform,
    Seq<Seq<char>>,
    Player,
    Seq<Enemy>,
) {
    let half = !p.half_tick;
    if !half {
        (VerticalPlatform { half_tick: half, ..p }, g, pl, es)
    } else {
        let d = vertical_dir(p);
        let nr = p.row + d;
        let from = p.start_col as int;
        let to = p.start_col + p.width;
        let g1 = g.update(p.row as int, fill(g[p.row as int], from, to, ' '));
        let g2 = g1.update(nr, fill(g1[nr], from, to, '='));
        let p2 = VerticalPlatform { half_tick: half, dir: d, row: nr as usize, ..p };
        let prow = p.row - 1;
        let right = to - 1;
        let pl2 = Player { row: carried_row(pl.col, pl.row, prow, from, right, d as int), ..pl };
        let es2 = es.map_values(
            |e: Enemy| Enemy { row: carried_row(e.col, e.row, prow, from, right, d as int), ..e },
        );
        (p2, g2, pl2, es2)
    }
}

impl VerticalPlatform {
    /// One tick (see `vertical_tick`).
    pub fn update(&mut self, grid: &mut Vec<Vec<char>>, player: &mut Player, enemies: &mut Vec<Enemy>)
        requires
            old(self).half_tick || vertical_ready(*old(self), old(grid).deep_view()),
        ensures
            (*final(self), final(grid).deep_view(), *final(player), final(enemies)@) == vertical_tick(
                *old(self),
                old(grid).deep_view(),
                *old(player),
                old(enemies)@,
            ),
            vertical_fits(*old(self), old(grid).deep_view()) ==> vertical_fits(
                *final(self),
                final(grid).deep_view(),
            ),
            vertical_wf(*old(self), old(grid).deep_view()) ==> vertical_wf(
                *final(self),
                final(grid).deep_view(),
            ),
            final(self).start_col == old(self).start_col,
            final(self).width == old(self).width,
            final(self).top_bound == old(self).top_bound,
            final(self).bottom_bound == old(self).bottom_bound,
            old(self).row - 1 <= final(self).row <= old(self).row + 1,
    {
        let ghost g0 = grid.deep_view();
        self.half_tick = !self.half_tick;
        if !self.half_tick {
            return;
        }
        let old_row = self.row;
        if self.dir > 0 && self.row + 1 >= self.bottom_bound {
            self.dir = -1;
        } else if self.dir < 0 && self.row <= self.top_bound + 1 {
            self.dir = 1;
        }
        let new_row: usize = if self.dir > 0 {
            self.row + 1
        } else {
            self.row - 1
        };
        let from = self.start_col;
        let to = self.start_col + self.width;
        let ghost g1 = g0.update(old_row as int, fill(g0[old_row as int], from as int, to as int, ' '));
        let mut col = from;
        while col < to
            invariant
                from <= col <= to,
                to <= g0[old_row as int].len(),
                old_row < g0.len(),
                grid@.len() == g0.len(),
                grid.deep_view() == g0.update(old_row as int, grid.deep_view()[old_row as int]),
                grid.deep_view()[old_row as int] == fill(g0[old_row as int], from as int, col as int, ' '),
            decreases to - col,
        {
            assert(grid.deep_view()[old_row as int] == grid@[old_row as int]@);
            set_cell(grid, old_row, col, ' ');
            assert(grid.deep_view()[old_row as int] =~= fill(
                g0[old_row as int],
                from as int,
                col + 1,
                ' ',
            ));
            assert(grid.deep_view() =~= g0.update(old_row as int, grid.deep_view()[old_row as int]));
            col = col + 1;
        }
        assert(grid.deep_view() == g1);
        let mut col = from;
        while col < to
            invariant
                from <= col <= to,
                to <= g1[new_row as int].len(),
                new_row < g0.len(),
                g1.len() == g0.len(),
                grid@.len() == g0.len(),
                grid.deep_view() == g1.update(new_row as int, grid.deep_view()[new_row as int]),
                grid.deep_view()[new_row as int] == fill(g1[new_row as int], from as int, col as int, '='),
            decreases to - col,
        {
            assert(grid.deep_view()[new_row as int] == grid@[new_row as int]@);
            set_cell(grid, new_row, col, '=');
            assert(grid.deep_view()[new_row as int] =~= fill(
                g1[new_row as int],
                from as int,
                col + 1,
                '=',
            ));
            assert(grid.deep_view() =~= g1.update(new_row as int, grid.deep_view()[new_row as int]));
            col = col + 1;
        }
        assert(grid.deep_view()[new_row as int] =~= fill(g1[new_row as int], from as int, to as int, '='));
        self.row = new_row;
        proof {
            let g2 = grid.deep_view();
            assert forall|i: int| 0 <= i < g2.len() implies #[trigger] g2[i].len() == g0[i].len() by {}
        }
        let passenger_row: i32 = old_row as i32 - 1;
        let left = self.start_col as i32;
        let right = (self.start_col + self.width - 1) as i32;
        if player.row == passenger_row && player.col >= left && player.col <= right {
            player.row = player.row + self.dir;
        }
        let ghost es0 = enemies@;
        let n = enemies.len();
        let mut i: usize = 0;
        while i < n
            invariant
                n == es0.len(),
                enemies@.len() == n,
                i <= n,
                self.dir == 1 || self.dir == -1,
                0 <= passenger_row < i32::MAX,
                left as int == from as int,
                right as int == to - 1,
                forall|k: int|
                    0 <= k < n ==> #[trigger] enemies@[k] == (if k < i {
                        Enemy {
                            row: carried_row(
                                es0[k].col,
                                es0[k].row,
                                passenger_row as int,
                                from as int,
                                to - 1,
                                self.dir as int,
                            ),
                            ..es0[k]
                        }
                    } else {
                        es0[k]
                    }),
            decreases n - i,
        {
            let mut e = enemies[i];
            if e.row == passenger_row && e.col >= left && e.col <= right {
                e.row = e.row + self.dir;
            }
            enemies.set(i, e);
            i = i + 1;
        }
        assert(enemies@ =~= es0.map_values(
            |e: Enemy|
                Enemy {
                    row: carried_row(e.col, e.row, passenger_row as int, from as int, to - 1, self.dir as int),
                    ..e
                },
        ));
    }
}


/// A platform that the vertical scan may give on a `rows` by `cols` grid.
pub open spec fn shaft_ok(p: VerticalPlatform, rows: int, cols: int) -> bool {
    &&& p.top_bound + 2 <= p.row
    &&& p.row + 2 <= p.bottom_bound
    &&& p.bottom_bound < rows
    &&& 1 <= p.width
    &&& p.start_col + p.width <= cols
    &&& p.dir == 1
    &&& !p.half_tick
}

/// A `rows` by `cols` grid and platforms that all fit it.
pub open spec fn scan_ok(g: Seq<Seq<char>>, ps: Seq<VerticalPlatform>, rows: int, cols: int) -> bool {
    &&& g.len() == rows
    &&& 0 < rows <= i32::MAX
    &&& cols <= i32::MAX
    &&& rectangular(g)
    &&& g[0].len() == cols
    &&& forall|k: int| 0 <= k < ps.len() ==> shaft_ok(#[trigger] ps[k], rows, cols)
}

proof fn lemma_extend_left(row: Seq<char>, c: int)
    requires
        0 <= c,
    ensures
        0 <= extend_left(row, c) <= c,
    decreases c,
{
    if c > 0 && row[c - 1] == '=' {
        lemma_extend_left(row, c - 1);
    }
}

proof fn lemma_extend_right(row: Seq<char>, c: int, cols: int)
    requires
        0 <= c < cols,
    ensures
        c <= extend_right(row, c, cols) < cols,
    decreases cols - c,
{
    if c + 1 < cols && row[c + 1] == '=' {
        lemma_extend_right(row, c + 1, cols);
    }
}

proof fn lemma_vertical_step_ok(g: Seq<Seq<char>>, ps: Seq<VerticalPlatform>, c: int, r: int)
    requires
        scan_ok(g, ps, g.len() as int, g[0].len() as int),
        0 <= c < g[0].len(),
        0 <= r < g.len(),
    ensures
        scan_ok(
            vertical_step(g, ps, c, r).0,
            vertical_step(g, ps, c, r).1,
            g.len() as int,
            g[0].len() as int,
        ),
{
    let rows = g.len() as int;
    let cols = g[0].len() as int;
    if g[r][c] == '+' {
        let eq_row = skip_bars(g, c, r + 1);
        lemma_skip_bars_range(g, c, r + 1);
        if !(eq_row == r + 1 || eq_row >= rows || g[eq_row][c] != '=') {
            let l = extend_left(g[eq_row], c);
            let rt = extend_right(g[eq_row], c, cols);
            assert(g[eq_row].len() == cols);
            lemma_extend_left(g[eq_row], c);
            lemma_extend_right(g[eq_row], c, cols);
            if !claimed(ps, eq_row, l) {
                let bottom = skip_bars(g, c, eq_row + 1);
                lemma_skip_bars_range(g, c, eq_row + 1);
                if !(bottom == eq_row + 1 || bottom >= rows || g[bottom][c] != '+') {
                    let s = vertical_step(g, ps, c, r);
                    assert(s.1.last() == VerticalPlatform {
                        row: eq_row as usize,
                        start_col: l as usize,
                        width: (rt - l + 1) as usize,
                        top_bound: r as usize,
                        bottom_bound: bottom as usize,
                        dir: 1,
                        half_tick: false,
                    });
                    assert forall|k: int| 0 <= k < s.1.len() implies shaft_ok(#[trigger] s.1[k], rows, cols) by {
                        if k < ps.len() {
                            assert(s.1[k] == ps[k]);
                        }
                    }
                    assert forall|i: int| 0 <= i < s.0.len() implies #[trigger] s.0[i].len() == s.0[0].len() by {
                        assert(g[i].len() == g[0].len());
                    }
                }
            }
        }
    }
}

proof fn lemma_vertical_scan_col_ok(g: Seq<Seq<char>>, ps: Seq<VerticalPlatform>, c: int, r: int)
    requires
        scan_ok(g, ps, g.len() as int, g[0].len() as int),
        0 <= c < g[0].len(),
        0 <= r,
    ensures
        scan_ok(
            vertical_scan_col(g, ps, c, r).0,
            vertical_scan_col(g, ps, c, r).1,
            g.len() as int,
            g[0].len() as int,
        ),
    decreases g.len() - r,
{
    if r < g.len() {
        lemma_vertical_step_ok(g, ps, c, r);
        let s = vertical_step(g, ps, c, r);
        lemma_vertical_scan_col_ok(s.0, s.1, c, r + 1);
    }
}

proof fn lemma_vertical_scan_ok(g: Seq<Seq<char>>, ps: Seq<VerticalPlatform>, c: int, cols: int)
    requires
        scan_ok(g, ps, g.len() as int, cols),
        0 <= c,
    ensures
        scan_ok(
            vertical_scan(g, ps, c, cols).0,
            vertical_scan(g, ps, c, cols).1,
            g.len() as int,
            cols,
        ),
    decreases cols - c,
{
    if c < cols {
        lemma_vertical_scan_col_ok(g, ps, c, 0);
        let s = vertical_scan_col(g, ps, c, 0);
        lemma_vertical_scan_ok(s.0, s.1, c + 1, cols);
    }
}

/// Law: the vertical platforms that a well-formed grid spawns fit the grid
/// they leave behind, so `update` can run on them.
pub proof fn lemma_spawned_vertical_wf(g: Seq<Seq<char>>)
    requires
        grid_wf(g),
    ensures
        grid_wf(grid_after_vertical(g)),
        grid_after_vertical(g).len() == g.len(),
        grid_after_vertical(g)[0].len() == g[0].len(),
        forall|k: int|
            0 <= k < vertical_platforms(g).len() ==> vertical_wf(
                #[trigger] vertical_platforms(g)[k],
                grid_after_vertical(g),
            ),
{
    lemma_vertical_scan_ok(g, seq![], 0, g[0].len() as int);
}


/// Law: every other tick a moving platform moves, and then its tiles in the
/// grid are `'='` where it now stands.
pub proof fn lemma_moving_tick_tiles(p: MovingPlatform, g: Seq<Seq<char>>, pl: Player, es: Seq<Enemy>)
    requires
        moving_wf(p, g),
        !p.half_tick,
    ensures
        ({
            let t = moving_tick(p, g, pl, es);
            &&& t.0.start_col == p.start_col + t.0.dir
            &&& forall|j: int|
                t.0.start_col <= j < t.0.start_col + t.0.width ==> #[trigger] t.1[p.row as int][j] == '='
        }),
{
    assert(g[p.row as int].len() == g[0].len());
}

/// Law: every other tick a vertical platform moves one row, and then its
/// tiles in the grid are `'='` where it now stands.
pub proof fn lemma_vertical_tick_tiles(p: VerticalPlatform, g: Seq<Seq<char>>, pl: Player, es: Seq<Enemy>)
    requires
        vertical_wf(p, g),
        !p.half_tick,
    ensures
        ({
            let t = vertical_tick(p, g, pl, es);
            &&& t.0.row == p.row + t.0.dir
            &&& forall|j: int|
                t.0.start_col <= j < t.0.start_col + t.0.width ==> #[trigger] t.1[t.0.row as int][j] == '='
        }),
{
    let nr = p.row + vertical_dir(p);
    assert(g[nr].len() == g[0].len());
}

/// Law: when a vertical platform moves (every other tick) it moves one row
/// up or down, and the player and every enemy standing on it (on the row
/// just above its old row, within its columns) move by that same row step
/// and keep their columns; everything else stays where it is.
pub proof fn lemma_vertical_carries(p: VerticalPlatform, g: Seq<Seq<char>>, pl: Player, es: Seq<Enemy>)
    requires
        !p.half_tick,
        vertical_shape(p),
        p.row <= i32::MAX,
    ensures
        ({
            let t = vertical_tick(p, g, pl, es);
            let step = t.0.row - p.row;
            let on = |row: i32, col: i32|
                row == p.row - 1 && p.start_col <= col < p.start_col + p.width;
            &&& step == 1 || step == -1
            &&& t.3.len() == es.len()
            &&& forall|j: int|
                0 <= j < es.len() ==> {
                    &&& #[trigger] t.3[j].col == es[j].col
                    &&& t.3[j].dir == es[j].dir
                    &&& t.3[j].row == (if on(es[j].row, es[j].col) {
                        es[j].row + step
                    } else {
                        es[j].row as int
                    })
                }
            &&& t.2.col == pl.col
            &&& t.2.row == (if on(pl.row, pl.col) {
                pl.row + step
            } else {
                pl.row as int
            })
        }),
{
}

} // verus!

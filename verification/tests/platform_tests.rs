use jump10::enemy::Enemy;
use jump10::grid::parse_grid;
use jump10::platform::{MovingPlatform, VerticalPlatform};
use jump10::player::Player;

fn grid(rows: &[&str]) -> Vec<Vec<char>> {
    parse_grid(&rows.join("\n"))
}

fn row_string(g: &[Vec<char>], r: usize, n: usize) -> String {
    g[r][..n].iter().collect()
}

fn player_at(col: i32, row: i32) -> Player {
    Player { col, row, jump_remaining: 0, alive: true, stunned: false, on_ladder: false, spawn_col: col, spawn_row: row, lives: 10 }
}

#[test]
fn moving_platform_spawns_from_track() {
    let mut g = grid(&["", "+-==--+  +ab+"]);
    let ps = MovingPlatform::spawn_all(&mut g);
    assert_eq!(ps.len(), 1);
    let p = ps[0];
    assert_eq!((p.row, p.left_bound, p.right_bound, p.start_col, p.width, p.dir, p.half_tick), (1, 0, 6, 2, 2, 1, false));
    assert_eq!(row_string(&g, 1, 13), "  ==     +ab+");
}

#[test]
fn moving_platform_needs_an_eq_tile() {
    let mut g = grid(&["+---+", "++"]);
    let ps = MovingPlatform::spawn_all(&mut g);
    assert!(ps.is_empty());
    assert_eq!(row_string(&g, 0, 5), "+---+");
    assert_eq!(row_string(&g, 1, 2), "++");
}

#[test]
fn moving_platform_moves_every_other_tick_and_carries() {
    let mut g = grid(&["", "", "+=-+"]);
    let mut ps = MovingPlatform::spawn_all(&mut g);
    let mut p = ps.remove(0);
    let mut pl = player_at(1, 1);
    let mut es = vec![Enemy { col: 1, row: 1, dir: 1 }, Enemy { col: 3, row: 1, dir: 1 }];
    p.update(&mut g, &mut pl, &mut es);
    assert_eq!((p.start_col, p.dir, p.half_tick), (2, 1, true));
    assert_eq!(row_string(&g, 2, 4), "  = ");
    assert_eq!(pl.col, 2);
    assert_eq!(es[0].col, 2);
    assert_eq!(es[1].col, 3);
    p.update(&mut g, &mut pl, &mut es);
    assert_eq!((p.start_col, p.half_tick), (2, false));
    assert_eq!(pl.col, 2);
    // at the right bound it turns
    p.update(&mut g, &mut pl, &mut es);
    assert_eq!((p.start_col, p.dir), (1, -1));
    assert_eq!(row_string(&g, 2, 4), " =  ");
    assert_eq!(pl.col, 1);
}

#[test]
fn vertical_platform_spawns_from_shaft() {
    let mut g = grid(&["  +", "  |", " ===", "  |", "  +"]);
    let ps = VerticalPlatform::spawn_all(&mut g);
    assert_eq!(ps.len(), 1);
    let p = ps[0];
    assert_eq!((p.row, p.start_col, p.width, p.top_bound, p.bottom_bound, p.dir), (2, 1, 3, 0, 4, 1));
    assert_eq!(g[0][2], ' ');
    assert_eq!(g[1][2], ' ');
    assert_eq!(row_string(&g, 2, 4), " ===");
    assert_eq!(g[3][2], ' ');
    assert_eq!(g[4][2], ' ');
}

#[test]
fn vertical_platform_needs_rails() {
    let mut g = grid(&["  +", " ===", "  |", "  +"]);
    let ps = VerticalPlatform::spawn_all(&mut g);
    assert!(ps.is_empty());
    assert_eq!(g[0][2], '+');
}

#[test]
fn vertical_platform_moves_and_carries() {
    let mut g = grid(&["  +", "  |", " ===", "  |", "  |", "  +"]);
    let mut ps = VerticalPlatform::spawn_all(&mut g);
    let mut p = ps.remove(0);
    let mut pl = player_at(2, 1);
    let mut es = vec![Enemy { col: 0, row: 1, dir: 1 }];
    p.update(&mut g, &mut pl, &mut es);
    assert_eq!((p.row, p.dir, p.half_tick), (3, 1, true));
    assert_eq!(row_string(&g, 2, 4), "    ");
    assert_eq!(row_string(&g, 3, 4), " ===");
    assert_eq!(pl.row, 2);
    assert_eq!(es[0].row, 1);
    p.update(&mut g, &mut pl, &mut es);
    assert_eq!(p.row, 3);
    p.update(&mut g, &mut pl, &mut es);
    assert_eq!((p.row, p.dir), (4, 1));
    p.update(&mut g, &mut pl, &mut es);
    // next to the bottom bound: turns up
    p.update(&mut g, &mut pl, &mut es);
    assert_eq!((p.row, p.dir), (3, -1));
}

fn chars(rows: &[&str]) -> Vec<Vec<char>> {
    rows.iter().map(|r| r.chars().collect()).collect()
}

#[test]
fn moving_platform_idles_on_any_grid() {
    let mut p = MovingPlatform { row: 7, left_bound: 0, right_bound: 9, start_col: 3, width: 2, dir: 1, half_tick: true };
    let mut g = chars(&["ab", ""]);
    let mut pl = player_at(0, 0);
    let mut es = vec![Enemy { col: 1, row: 0, dir: -1 }];
    p.update(&mut g, &mut pl, &mut es);
    assert!(!p.half_tick);
    assert_eq!((p.start_col, p.dir), (3, 1));
    assert_eq!(g, chars(&["ab", ""]));
    assert_eq!((pl.col, pl.row), (0, 0));
    assert_eq!((es[0].col, es[0].row), (1, 0));
}

#[test]
fn moving_platform_moves_on_rows_of_any_length() {
    // Only the platform's row is long enough to hold its track.
    let mut g = chars(&["", " x", "+== +"]);
    let mut p = MovingPlatform { row: 2, left_bound: 0, right_bound: 4, start_col: 1, width: 2, dir: 1, half_tick: false };
    let mut pl = player_at(1, 1);
    let mut es = vec![];
    p.update(&mut g, &mut pl, &mut es);
    assert_eq!((p.start_col, p.dir, p.half_tick), (2, 1, true));
    assert_eq!(g[2], vec!['+', ' ', '=', '=', '+']);
    assert_eq!(g[0].len(), 0);
    // The player is carried only inside the first row, which is empty.
    assert_eq!(pl.col, 1);
}

#[test]
fn vertical_platform_idles_on_any_grid() {
    let mut p = VerticalPlatform { row: 5, start_col: 2, width: 3, top_bound: 1, bottom_bound: 9, dir: -1, half_tick: true };
    let mut g = chars(&["z"]);
    let mut pl = player_at(2, 4);
    let mut es = vec![];
    p.update(&mut g, &mut pl, &mut es);
    assert!(!p.half_tick);
    assert_eq!((p.row, p.dir), (5, -1));
    assert_eq!(g, chars(&["z"]));
    assert_eq!(pl.row, 4);
}

#[test]
fn vertical_platform_spawns_where_rows_are_longer_than_the_first() {
    let mut g = chars(&["  +", "  |  abc", " ===   ==", "  |", "  +    |"]);
    let ps = VerticalPlatform::spawn_all(&mut g);
    assert_eq!(ps.len(), 1);
    let p = ps[0];
    // The run of '=' is looked for within the width of the first row.
    assert_eq!((p.row, p.start_col, p.width, p.top_bound, p.bottom_bound), (2, 1, 2, 0, 4));
    assert_eq!(g[1], chars(&["     abc"])[0]);
    assert_eq!(g[4].len(), 8);
}

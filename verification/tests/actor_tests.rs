use jump10::enemy::Enemy;
use jump10::grid::parse_grid;
use jump10::player::{Keys, Player};

fn keys() -> Keys {
    Keys { a: false, left: false, d: false, right: false, w: false, up: false, space: false, s: false, down: false }
}

fn grid(rows: &[&str]) -> Vec<Vec<char>> {
    parse_grid(&rows.join("\n"))
}

#[test]
fn enemies_spawn_in_reading_order_and_leave_the_grid() {
    let mut g = grid(&["", "   @", " @   @"]);
    let es = Enemy::spawn_all(&mut g);
    assert_eq!(es.len(), 3);
    assert_eq!((es[0].col, es[0].row, es[0].dir), (3, 1, 1));
    assert_eq!((es[1].col, es[1].row), (1, 2));
    assert_eq!((es[2].col, es[2].row), (5, 2));
    assert!(g.iter().all(|r| !r.contains(&'@')));
}

#[test]
fn enemy_walks_and_turns_at_walls_and_edges() {
    let g = grid(&["", " #   #", " #####"]);
    let mut e = Enemy { col: 3, row: 1, dir: 1 };
    e.update(&g);
    assert_eq!((e.col, e.row, e.dir), (4, 1, 1));
    e.update(&g);
    // wall ahead: turn round
    assert_eq!((e.col, e.row, e.dir), (4, 1, -1));
    e.update(&g);
    assert_eq!((e.col, e.row, e.dir), (3, 1, -1));
    // edge ahead (no floor under column 0): turn
    let g2 = grid(&["", "     ", " ####"]);
    let mut e2 = Enemy { col: 1, row: 1, dir: -1 };
    e2.update(&g2);
    assert_eq!((e2.col, e2.row, e2.dir), (1, 1, 1));
}

#[test]
fn enemy_falls_without_ground() {
    let g = grid(&["  ", "  ", "  ", "##"]);
    let mut e = Enemy { col: 0, row: 0, dir: 1 };
    e.update(&g);
    // moving right is refused (no ground under column 1), so it turns, then falls
    assert_eq!((e.col, e.row, e.dir), (0, 1, -1));
}

#[test]
fn player_spawns_at_first_dollar() {
    let mut g = grid(&["", "  $ $"]);
    let p = Player::spawn(&mut g);
    assert_eq!((p.col, p.row, p.spawn_col, p.spawn_row, p.lives), (2, 1, 2, 1, 10));
    assert!(p.alive && !p.stunned && !p.on_ladder);
    assert_eq!(g[1][2], ' ');
    assert_eq!(g[1][4], '$');
}

#[test]
fn player_defaults_without_dollar() {
    let mut g = grid(&["###"]);
    let p = Player::spawn(&mut g);
    assert_eq!((p.col, p.row), (1, 1));
}

fn player_at(col: i32, row: i32) -> Player {
    Player { col, row, jump_remaining: 0, alive: true, stunned: false, on_ladder: false, spawn_col: col, spawn_row: row, lives: 10 }
}

#[test]
fn player_falls_one_row_per_tick() {
    let g = grid(&["", "", "", "####"]);
    let mut p = player_at(1, 0);
    let ev = p.update(&g, &keys());
    assert_eq!((p.col, p.row), (1, 1));
    assert!(!ev.jumped && !ev.died && !ev.stepped && !ev.sprung);
}

#[test]
fn player_jumps_two_rows() {
    let g = grid(&["", "", "", "", "", "####"]);
    let mut p = player_at(1, 4);
    let mut k = keys();
    k.space = true;
    let ev = p.update(&g, &k);
    assert!(ev.jumped);
    assert_eq!((p.row, p.jump_remaining), (3, 1));
    let ev = p.update(&g, &keys());
    assert!(!ev.jumped);
    assert_eq!((p.row, p.jump_remaining), (2, 0));
    p.update(&g, &keys());
    assert_eq!(p.row, 3);
}

#[test]
fn player_walks_and_steps() {
    let g = grid(&["", "####"]);
    let mut p = player_at(1, 0);
    let mut k = keys();
    k.d = true;
    let ev = p.update(&g, &k);
    assert_eq!((p.col, p.row), (2, 0));
    assert!(ev.stepped);
    let mut k = keys();
    k.a = true;
    k.d = true; // right wins
    p.update(&g, &k);
    assert_eq!(p.col, 3);
}

#[test]
fn player_dies_on_spikes() {
    let g = grid(&["", " ^", "###"]);
    let mut p = player_at(1, 0);
    let ev = p.update(&g, &keys());
    assert!(ev.died);
    assert_eq!(p.row, 1);
    assert_eq!(p.lives, 9);
    assert!(p.stunned && p.alive);
    // a stunned player does nothing
    let before = (p.col, p.row, p.lives);
    let ev = p.update(&g, &keys());
    assert!(!ev.died);
    assert_eq!(before, (p.col, p.row, p.lives));
}

#[test]
fn spring_launches_four_rows() {
    let g = grid(&["", "", "", "", "", "", " z", "###"]);
    let mut p = player_at(1, 5);
    let ev = p.update(&g, &keys());
    // falls into the spring, is lifted out, and launched
    assert!(ev.sprung);
    assert_eq!((p.row, p.jump_remaining), (5, 4));
}

#[test]
fn slides_push_the_player() {
    let g = grid(&["", "  \\  ", "#####"]);
    let mut p = player_at(2, 1);
    p.update(&g, &keys());
    assert_eq!((p.col, p.row), (3, 1));
    let g2 = grid(&["", "  /  ", "#####"]);
    let mut p2 = player_at(2, 1);
    let mut k = keys();
    k.d = true; // input is ignored on a slide
    p2.update(&g2, &k);
    assert_eq!((p2.col, p2.row), (1, 1));
}

#[test]
fn ladder_down_and_up() {
    let g = grid(&["", " ", "#H#", "#H#", "###"]);
    let mut p = player_at(1, 1);
    let mut k = keys();
    k.s = true;
    p.update(&g, &k);
    assert!(p.on_ladder);
    assert_eq!(p.row, 2);
    p.update(&g, &k);
    assert_eq!(p.row, 3);
    let mut k = keys();
    k.w = true;
    p.update(&g, &k);
    assert_eq!(p.row, 2);
    p.update(&g, &k);
    assert_eq!(p.row, 1);
    assert!(!p.on_ladder);
}

#[test]
fn die_and_respawn() {
    let mut p = player_at(4, 4);
    p.lives = 1;
    p.col = 7;
    p.die();
    assert_eq!(p.lives, 0);
    assert!(!p.alive);
    let mut q = player_at(4, 4);
    q.col = 9;
    q.jump_remaining = 2;
    q.die();
    assert!(q.stunned && q.alive);
    assert_eq!((q.lives, q.jump_remaining), (9, 0));
    q.die();
    assert_eq!(q.lives, 9);
    q.respawn();
    assert_eq!((q.col, q.row, q.stunned), (4, 4, false));
}

use jump10::game::{next_screen, Screen, ScreenEvent};
use jump10::level::{Level, LevelSource, TickOutcome};
use jump10::player::Keys;
use jump10::scroller::{spawn, ScrollPhase};
use jump10::grid::parse_grid;

fn keys() -> Keys {
    Keys { a: false, left: false, d: false, right: false, w: false, up: false, space: false, s: false, down: false }
}

fn source(name: &str, rows: &[&str]) -> LevelSource {
    LevelSource { name: name.to_string(), text: rows.join("\n") }
}

fn sources() -> Vec<LevelSource> {
    vec![
        source("01", &["", " $  @ *", "########"]),
        source("02", &["S", " $*", "###"]),
        source("03", &["", " $*", "###"]),
    ]
}

#[test]
fn load_takes_everything_out_of_the_grid() {
    let lvl = Level::load(sources(), 0);
    assert_eq!((lvl.player.col, lvl.player.row, lvl.player.lives), (1, 1, 10));
    assert_eq!(lvl.enemies.len(), 1);
    assert_eq!((lvl.enemies[0].col, lvl.enemies[0].row), (4, 1));
    assert_eq!(lvl.grid[1][1], ' ');
    assert_eq!(lvl.grid[1][4], ' ');
    assert_eq!(lvl.grid[1][6], '*');
    assert_eq!((lvl.idx, lvl.score), (0, 0));
    assert!(lvl.scroller.is_none());
    assert_eq!(lvl.name(), "01");
}

#[test]
fn secret_levels_are_marked_and_skipped() {
    let mut lvl = Level::load(sources(), 0);
    assert!(!lvl.is_secret(0));
    assert!(lvl.is_secret(1));
    lvl.player.lives = 7;
    assert!(lvl.advance(true));
    assert_eq!(lvl.idx, 2);
    assert_eq!(lvl.player.lives, 7);
    assert!(!lvl.advance(true));
    assert_eq!(lvl.idx, 2);
    lvl.restart();
    assert_eq!((lvl.idx, lvl.player.lives), (0, 10));
    assert!(lvl.advance(false));
    assert_eq!(lvl.idx, 1);
    // the secret marker is cleared from the grid
    assert_eq!(lvl.grid[0][0], ' ');
}

#[test]
fn tick_reaches_goal_and_advances() {
    let mut lvl = Level::load(sources(), 2);
    let mut k = keys();
    k.d = true;
    let (out, ev) = lvl.tick(&k);
    // the last level's goal: the game starts over
    assert_eq!(out, TickOutcome::Finished);
    assert!(ev.stepped);
    assert_eq!(lvl.idx, 0);
    let mut lvl = Level::load(sources(), 0);
    lvl.player.col = 5;
    let (out, _) = lvl.tick(&k);
    assert_eq!(out, TickOutcome::NextLevel);
    assert_eq!(lvl.idx, 2);
}

#[test]
fn tick_enemy_touch_costs_a_life() {
    let mut lvl = Level::load(sources(), 0);
    lvl.player.col = 2;
    let (out, _) = lvl.tick(&keys());
    assert_eq!(out, TickOutcome::Playing);
    // the enemy walked to column 5; not touching yet
    assert_eq!(lvl.player.lives, 10);
    lvl.enemies[0].col = 3;
    lvl.enemies[0].dir = -1;
    let (out, _) = lvl.tick(&keys());
    assert_eq!(out, TickOutcome::Playing);
    assert_eq!(lvl.player.lives, 9);
    assert!(lvl.player.stunned);
}

#[test]
fn tick_last_life_is_death() {
    let mut lvl = Level::load(sources(), 0);
    lvl.player.col = 2;
    lvl.player.lives = 1;
    lvl.enemies[0].col = 3;
    lvl.enemies[0].dir = -1;
    let (out, _) = lvl.tick(&keys());
    assert_eq!(out, TickOutcome::Dead);
    assert!(!lvl.player.alive);
    // touched on its row and on its column: two lives taken, below zero
    assert_eq!(lvl.player.lives, -1);
}

#[test]
fn scroller_box_and_lines() {
    let mut rows: Vec<String> = vec![String::new(); 13];
    rows[2] = "   !!!!".to_string();
    rows[3] = "   !!!!".to_string();
    let mut text = rows.join("\n");
    text.push_str("\nHello there\n   \nSecond line\n");
    let mut g = parse_grid(&text);
    let sc = spawn(&mut g, &text).expect("a scroller");
    assert_eq!((sc.col_start, sc.col_end, sc.row_start, sc.row_end), (3, 7, 2, 4));
    assert_eq!(sc.lines, vec!["Hello there".to_string(), "Second line".to_string()]);
    assert_eq!(sc.current_line, 0);
    assert_eq!(sc.phase, ScrollPhase::SlideOn);
    assert!(g.iter().all(|r| !r.contains(&'!')));
}

#[test]
fn scroller_needs_lines() {
    let text = "  !!\n".to_string();
    let mut g = parse_grid(&text);
    assert!(spawn(&mut g, &text).is_none());
    assert_eq!(g[0][2], ' ');
    let mut g2 = parse_grid("abc");
    assert!(spawn(&mut g2, "abc").is_none());
}

#[test]
fn scroller_phases_cycle_through_lines() {
    let mut rows: Vec<String> = vec![String::new(); 13];
    rows[0] = "!".to_string();
    let text = rows.join("\n") + "\none\ntwo";
    let mut g = parse_grid(&text);
    let mut sc = spawn(&mut g, &text).unwrap();
    for _ in 0..5 {
        sc.advance_phase();
    }
    assert_eq!((sc.phase, sc.current_line), (ScrollPhase::Pause3, 0));
    sc.advance_phase();
    assert_eq!((sc.phase, sc.current_line), (ScrollPhase::SlideOn, 1));
    for _ in 0..6 {
        sc.advance_phase();
    }
    assert_eq!(sc.current_line, 0);
    assert_eq!(sc.current_text(), "one");
}

#[test]
fn screens_follow_keys_and_ticks() {
    assert_eq!(next_screen(Screen::Splash, ScreenEvent::AnyKey), Screen::Intro);
    assert_eq!(next_screen(Screen::Intro, ScreenEvent::IntroOver), Screen::Playing);
    assert_eq!(next_screen(Screen::Intro, ScreenEvent::AnyKey), Screen::Playing);
    assert_eq!(next_screen(Screen::Playing, ScreenEvent::Tick(TickOutcome::Playing)), Screen::Playing);
    assert_eq!(next_screen(Screen::Playing, ScreenEvent::Tick(TickOutcome::NextLevel)), Screen::Playing);
    assert_eq!(next_screen(Screen::Playing, ScreenEvent::Tick(TickOutcome::Dead)), Screen::Death);
    assert_eq!(next_screen(Screen::Playing, ScreenEvent::Tick(TickOutcome::Finished)), Screen::Splash);
    assert_eq!(next_screen(Screen::Death, ScreenEvent::SkippedPastLast), Screen::Splash);
    assert_eq!(next_screen(Screen::Death, ScreenEvent::AnyKey), Screen::Playing);
    assert_eq!(next_screen(Screen::Splash, ScreenEvent::IntroOver), Screen::Splash);
}

#[test]
fn can_tick_checks_springs_and_lives() {
    let mut lvl = Level::load(sources(), 0);
    assert!(lvl.can_tick(&keys()));
    lvl.grid[0][1] = 'z';
    // Standing still, the player never reaches the spring above.
    assert!(lvl.can_tick(&keys()));
    // A jump takes the player up onto it, and the spring would lift it out.
    let mut jump = keys();
    jump.w = true;
    assert!(!lvl.can_tick(&jump));
    let mut lvl = Level::load(sources(), 0);
    lvl.player.lives = i32::MIN;
    assert!(!lvl.can_tick(&keys()));
    lvl.player.lives = i32::MIN + 1;
    assert!(lvl.can_tick(&keys()));
}

#[test]
fn skip_goes_to_the_very_next_level_then_starts_over() {
    let mut lvl = Level::load(sources(), 0);
    lvl.player.lives = 4;
    assert!(!lvl.skip());
    assert_eq!((lvl.idx, lvl.player.lives), (1, 4));
    assert!(!lvl.skip());
    assert_eq!(lvl.idx, 2);
    assert!(lvl.skip());
    assert_eq!((lvl.idx, lvl.player.lives), (0, 10));
}

use vstd::prelude::*;

use crate::level::TickOutcome;

verus! {

/// The screens of the game.
#[derive(Clone, Copy, Debug, PartialEq, Eq)]
pub enum Screen {
    Splash,
    Intro,
    Playing,
    Death,
}

/// What can happen while a screen is shown.
#[derive(Clone, Copy, Debug, PartialEq, Eq)]
pub enum ScreenEvent {
    /// A key was pressed.
    AnyKey,
    /// The intro text has scrolled out of sight.
    IntroOver,
    /// A tick of play ended so.
    Tick(TickOutcome),
    /// The skip key, pressed during play, found no level left, and the game
    /// started over.
    SkippedPastLast,
}

/// The screen after an event: a key leaves the splash screen for the intro,
/// and the intro (or the end of its text) for play; play goes to the death
/// screen when the player dies and back to the splash screen when the game
/// starts over (also when the skip key runs past the last level); a key on
/// the death screen starts play again.
pub open spec fn next_screen_spec(s: Screen, e: ScreenEvent) -> Screen {
    match (s, e) {
        (Screen::Splash, ScreenEvent::AnyKey) => Screen::Intro,
        (Screen::Intro, ScreenEvent::AnyKey) => Screen::Playing,
        (Screen::Intro, ScreenEvent::IntroOver) => Screen::Playing,
        (Screen::Playing, ScreenEvent::Tick(TickOutcome::Dead)) => Screen::Death,
        (Screen::Playing, ScreenEvent::Tick(TickOutcome::Finished)) => Screen::Splash,
        (_, ScreenEvent::SkippedPastLast) => Screen::Splash,
        (Screen::Death, ScreenEvent::AnyKey) => Screen::Playing,
        _ => s,
    }
}

/// The screen after an event (see `next_screen_spec`).
pub fn next_screen(s: Screen, e: ScreenEvent) -> (n: Screen)
    ensures
        n == next_screen_spec(s, e),
{
    match (s, e) {
        (Screen::Splash, ScreenEvent::AnyKey) => Screen::Intro,
        (Screen::Intro, ScreenEvent::AnyKey) => Screen::Playing,
        (Screen::Intro, ScreenEvent::IntroOver) => Screen::Playing,
        (Screen::Playing, ScreenEvent::Tick(TickOutcome::Dead)) => Screen::Death,
        (Screen::Playing, ScreenEvent::Tick(TickOutcome::Finished)) => Screen::Splash,
        (_, ScreenEvent::SkippedPastLast) => Screen::Splash,
        (Screen::Death, ScreenEvent::AnyKey) => Screen::Playing,
        _ => s,
    }
}

/// Law: play is reached from the splash screen by two key presses, and the
/// death screen only from play.
pub proof fn lemma_screen_flow(s: Screen, e: ScreenEvent)
    ensures
        next_screen_spec(next_screen_spec(Screen::Splash, ScreenEvent::AnyKey), ScreenEvent::AnyKey)
            == Screen::Playing,
        next_screen_spec(s, e) == Screen::Death ==> s == Screen::Death || s == Screen::Playing,
{
}

} // verus!

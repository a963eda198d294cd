# jump10

A retro ASCII platformer: a dollar sign jumps through levels of 60 by 13
tiles, with springs, slides, spikes, ladders, moving platforms and patrolling
enemies.

The rules of the game live in a library verified with Verus (`src/`):

- `grid`: level text to tile grid, and the grid helpers the other modules use.
- `player`, `enemy`: one tick of the player (with the keys held down) and of
  an enemy; spawning them from their markers.
- `platform`: moving (sideways) and vertical platforms: finding them in the
  grid and moving them, with whatever stands on them.
- `scroller`: the message box of a level and the order of its phases.
- `level`: loading levels, advancing (skipping secret levels), one tick of
  play.
- `game`: the order of the screens.
- `audio`: joining the music's decoded packets, read by read.

`app/` holds the window, input, drawing, timing and sound (macroquad,
rodio, and lewton and hound to turn the Ogg Vorbis music into WAV). At run time it reads `levels/<name>.txt`, `splash/splash.txt`,
`splash/death.txt` and `music.ogg` from the working directory.

Controls: A/D or the arrows move, W, Up or Space jump, S skips a level, P quits.

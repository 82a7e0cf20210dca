# DBD auto skill check

Watches the screen for the skill check widget of Dead by Daylight, follows its
needle, and presses the space bar when the needle is about to reach the success
zone. The decisions are made in a library that is verified with Verus.

## How a frame is processed

1. The region around the widget is cropped out of the frame (`capture`).
2. The dark part of the progress area and the grey part of the ring tell
   whether the widget is visible (`reading`).
3. A sweep over 360 degrees finds the white success zone and the red needle by
   hue, saturation and value (`scan`, `color`).
4. The state goes from searching over calibrating, where the target is averaged
   over some frames, to tracking (`state`, `skillcheck_logic`). A wiggle, white
   on both sides, is tracked back and forth.
5. The needle's speed is the least-squares slope of its angle over time
   (`motion`). The key is pressed when the time to go is within the latency.

Angles, ratios and speeds are IEEE 754 numbers. The library computes them on
bit patterns, with the rounding of each operation stated and proved
(`rounding`, `binary32`, `binary64`). Cosines, sines and arc tangents are the
machine's: a table of directions and a function are handed in.

## What is stated of the whole

`laws` holds what follows for every frame and every run of frames: among others
that a skill check is clicked once, that the clicks of a wiggle are at least
250 milliseconds apart, that a larger latency never loses a click, and that the
ring alone does not show a widget. Whatever is found is kept, where the
threshold for keeping a widget is no higher than that for finding one.

The measured speed is the slope of the line that fits best, but for roundings:
`laws::accuracy` says how far it can be off, for every history whose spread in
time and whose speed are finite, and for every speed that tracking takes over
from up to 65536 readings. Where readings are whole milliseconds and degrees,
and all totals are below `2^24`, it is the exact slope rounded once
(`laws::fit`).

## Layout

- `src/` is the verified library.
- `tests/` holds its tests, many of them against the machine's own arithmetic.
- `app/` is the program around it: the window, the configuration file, screen
  capture on Linux (portal, PipeWire, Vulkan) and Windows, and the keyboards.

## Settings

A file with comments is created at
`~/.config/dbd-auto-skillcheck-linux/config.toml`. `latency_ms` compensates for
input lag: increase it to click earlier, decrease it to click later.
`grey_v_min` and `grey_v_max` are accepted for `grey_val_min` and `grey_val_max`,
and come first where both are given.

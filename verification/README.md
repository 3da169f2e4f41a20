# latency_agent

The emitter side of a click-to-photon latency measurement on Windows: a window
that flashes white on every click of the left mouse button and shows, in every
frame, a Gray-code barcode of the frame's index. Clicks and presented frames are
logged with their performance-counter times, so that a camera that watches the
screen can tell how long it took from click to light.

- `src/` is the verified library: debouncing, the frame loop, the barcode and the
  scene, the log lines, window placement and messages, the command line, and the
  evaluation of the self-test.
- `tests/` runs it on concrete values.
- `app/` is the program around it: the window, Direct3D, the log files.

The library has no floating-point code. Where a logged or sampled value is defined
by a floating-point expression, `src/rounding.rs` computes it in integers: it is
proved to round as its own definition of binary rounding says, and `tests/` compares
the results with those of the floating-point unit.

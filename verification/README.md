# dwm

A dynamic window manager for X, with its window-management logic written in
Verus and proved against its contracts.

- `src/` is the `dwm` library: tag sets and their shifts, client lists and
  focus stacks per monitor, focus, swallowing terminals, rules, size hints,
  the bar's layout and clicks, the grid, monocle and Fibonacci layouts, and
  the decisions taken on X events (configure requests, client messages,
  pointer motion, drags). Every function carries a contract, and the laws
  that relate several of them are proof functions.
- `tests/` runs the library on concrete states.
- `app/` is the program around it: the X connection (Xlib, Xft, xcb), the
  bar drawing, the event loop, spawning programs, and the layouts that share
  space by floating-point factors.

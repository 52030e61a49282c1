# pong

A terminal ping monitor for several hosts. The crate is split in two:

- `src/` — the verified library. It holds the per-host statistics
  (`stats`), the status and colors of hosts and the choice of an address
  (`types`), the monitor's reaction to each event (`app`), the schedule of a
  ping loop (`ping`), the chart's window and axis extents (`chart`) and the
  text of the clock and host count (`text`), with 256-bit arithmetic for
  exact sums of squares (`wide`). Round-trip times are whole
  nanoseconds; the mean, the variance and the packet loss are exact fractions.
- `app/` — the program around it: argument parsing, name resolution,
  ICMP pings, the terminal event loop and the drawing. It performs the
  effects that the library decides on and turns nanoseconds into the
  milliseconds shown on screen.

`tests/` runs the library on concrete values.

# sonny

The verified core of the SONNY robot microkernel, in Rust with Verus.

`src/` is the library, and Verus proves its contracts. Believed without proof are only the
wrappers around `serde_json` (`json`) and the clock (`system::clock`), and what
`String::push` and `String::clear` do (`text`). Floating-point numbers are held as bit
patterns (`numeric`), so that the vectors, limits and protocols have an exact meaning over
the integers.

- `io_bridge`: command and state vectors, the sanitizer, the jerk limiter, the failsafe
  guard, the watchdog, the codecs of the robot brands, the configuration of a machine,
  and the loop that serves a robot over its fieldbus.
- `diagnostics`: health counters, jitter analysis, the 100 Hz control loop, the
  dashboard, and the log of states.
- `chaos`: a stress test of a simulated machine.
- `mocks`: a simulated robot.
- `registry`, `ros2_bridge`, `network_hook`: skills, register frames, topics and payloads.
- `math_utils`: vectors, matrices and quaternions.
- `system`, `boot`: clocks, the isolation of the control thread, and the choice of a
  fieldbus at start.
- `numeric`, `text`, `json`: numbers, text and JSON objects.

The proof functions whose names begin with `law_` state what holds of the library as a
whole: for example that a stopped robot gets no command (`io_bridge::fieldbus_loop`), that
what reaches a drive is finite and within the limits of its joint, as long as the velocity
and the acceleration stay within the range of the numbers
(`io_bridge::hardware_abstraction`), and that a silent control loop always ends in drives at
zero (`io_bridge::watchdog_timer`).

`app/` is the program around the library: the Zenoh bus, sockets, serial ports, threads,
the terminal, and the JSON form of the configuration. `tests/` holds the tests.

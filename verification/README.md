# megabit-coproc-simulator

A simulator for the Megabit coprocessor: the firmware talks to a virtual
serial device, the simulator answers its commands, and a browser frontend
shows the simulated LEDs and LED matrix.

- `src/` is the verified library: COBS framing of serial packets and the
  receiver that reassembles them (`framing`), the command protocol and the
  simulator's decisions (`simulator`), the frontend messages (`messages`),
  the drawing plan of the LED matrix (`display`) and the frontend's websocket
  address (`connection`).
- `app/` holds the program around it: the pseudo-terminal, the HTTP and
  websocket server, the message loops, JSON encoding, and the browser
  components.
- `tests/` runs the library on concrete values.

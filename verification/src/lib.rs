//! Verified core of the Megabit coprocessor simulator: the serial framing of
//! packets, the command protocol spoken over the virtual serial line, the
//! messages exchanged with the browser frontend, and the drawing plan of the
//! simulated LED matrix.

pub mod messages;
pub mod framing;
pub mod simulator;
pub mod display;
pub mod connection;

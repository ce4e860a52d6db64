//! A single-player battleship engine: a grid with hidden ships, hit
//! resolution with reveal-on-sink, and a time-bounded session store.

mod clock;
pub mod game;
mod random;
pub mod session;

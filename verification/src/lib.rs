//! A verified maze core: randomized depth-first maze generation over a
//! rectangular grid, extraction of the wall segments for one-time rendering,
//! and a per-tick ball update that derives momentum from tilt samples, clamps
//! the ball to the canvas and snaps it off maze walls.

pub mod ball;
pub mod client;
pub mod grid;
pub mod maze;
pub mod reach;
pub mod rng;
pub mod walls;

//! The rules of a small arcade game, kept apart from drawing and input
//! plumbing: a tower that jumps inside a ring and the bullets it fires.
//!
//! The tower stands in a window. A press of the pointer makes it jump
//! towards the pointer, at least the inner and at most the outer radius of
//! the ring far, and fire a bullet. Bullets fly straight and turn back at
//! the edges of the window. The game ends when a bullet touches the tower;
//! until then every bullet in flight earns points.
//!
//! Everything is counted in whole numbers, so that every step of the game
//! is exact and the same on every machine: lengths in units of a millionth
//! of a pixel, time in microseconds, scores in units of a millionth of a
//! point, and directions as vectors.
//!
//! - [`arith`]: whole-number square roots and scaling.
//! - [`geometry`]: points, circles and when circles overlap.
//! - [`heading`]: directions, their mirror images at the walls, the step
//!   of a bullet.
//! - [`ring`]: the jump of the tower and the ring it lands in.
//! - [`actors`]: bullets and the tower.
//! - [`events`]: the input that the game reacts to.
//! - [`ui`]: the push button of the menu.
//! - [`scenes`]: the menu and the game, and the score.
//! - [`highscore`]: the text that the highscore is kept as.
//! - [`driver`]: the main loop's decisions: which scene is active, when the
//!   window closes, when the highscore is read and written.

pub mod actors;
pub mod arith;
pub mod driver;
pub mod events;
pub mod geometry;
pub mod heading;
pub mod highscore;
pub mod ring;
pub mod scenes;
pub mod ui;

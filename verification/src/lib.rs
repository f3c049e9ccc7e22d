//! A falling-sand cellular automaton on a fixed grid.
//!
//! Every cell of a [`tilemap::Tilemap`] holds one [`element::Element`]. A
//! [`scheduler::TickScheduler`] advances the grid one tick at a time: it paints
//! the queued brush strokes, lets [`rules::rules`] move or convert every cell
//! from what the cell saw of its four neighbours at the end of the previous
//! tick, and then pushes the changed cells to their neighbours for the next one.

pub mod element;
pub mod tilemap;
pub mod neighbours;
pub mod random;
pub mod rules;
pub mod brush;
pub mod scheduler;
pub mod laws;

//! A tile-grid logistics and production simulation: items are spawned,
//! carried by trains along rails, combined by recipe at crafting stations,
//! and delivered to a scoring sink.
//!
//! The engine is discrete-tick: one `advance` call per frame supplies the
//! elapsed time, all trains move, then all buildings are evaluated in
//! ascending position order. Time is measured in whole milliseconds, and a
//! train's progress across a cell in thousandths of a cell, so that the
//! whole state is integral.

pub mod constants;
pub mod items;
pub mod model;
pub mod building;
pub mod route;
pub mod train;
pub mod sim;
pub mod rng;
pub mod generate;

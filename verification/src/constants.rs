use vstd::prelude::*;

verus! {

/// Progress across one grid cell is measured in thousandths: a
/// `sub_position` of `SUB_SCALE` means the cell has been fully crossed.
/// Elapsed time is measured in milliseconds, so a train crosses one cell
/// per second of elapsed time.
pub const SUB_SCALE: u64 = 1000;

/// The mid-cell mark: trains are dispatched here, and a train deposits its
/// load once it has covered at least half of its final cell.
pub const HALF_CELL: u64 = 500;

/// End of a cell's entry (`Input`) zone, in thousandths of a cell.
pub const TRAIN_BOUNDARY_1: u64 = 300;

/// Start of a cell's exit (`Output`) zone, in thousandths of a cell.
pub const TRAIN_BOUNDARY_2: u64 = 700;

/// Bounds of the procedural recipe generator.
pub const MIN_ITEMS: u64 = 6;
pub const MAX_ITEMS: u64 = 10;
pub const MAX_SPAWNABLE_ITEMS: u64 = 3;
pub const MAX_COMPONENTS: u64 = 5;

/// Production time of a generated item, in milliseconds.
pub const MIN_ITEM_TIME: u64 = 1000;
pub const MAX_ITEM_TIME: u64 = 5000;

/// The layout generator retries a random placement at most this many times
/// per building before giving up, so that generation always terminates.
pub const PLACEMENT_ATTEMPTS: u64 = 64;

/// Every cell position the simulation touches stays within this bound, so
/// stepping one cell in any direction never overflows a coordinate.
pub const COORD_BOUND: i64 = 1_000_000_000;

} // verus!

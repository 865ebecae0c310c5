//! Solvers for a series of small submarine puzzles: sonar depth scans,
//! course navigation, power diagnostics, bingo, vent maps, lanternfish
//! growth, crab alignment, seven-segment wiring deduction, smoke basins,
//! chunk syntax, octopus flashes, cave routes, transparent origami and
//! trench-map enhancement.  The seven-segment engine is the heart of the
//! crate: it recovers the scrambled segment-to-wire assignment of a broken
//! display and decodes its readings.

pub mod depth;
pub mod text;
pub mod segments;
pub mod navigation;
pub mod diagnostics;
pub mod bingo;
pub mod lanternfish;
pub mod crabs;
pub mod heightmap;
pub mod vents;
pub mod octopus;
pub mod chunks;
pub mod origami;
pub mod trench;
pub mod caves;

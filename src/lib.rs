//! Relaxation of the two-dimensional Laplace equation on a grid of nodes with
//! fixed-value regions: the grid model, the sweeps of successive over-relaxation,
//! and the sector schedule that lets several workers relax one grid at once.

pub mod grid;
pub mod plot;
pub mod sectors;

pub use grid::{FixedBox, Grid, GridError, Scale, Stencil};
pub use sectors::{Message, ScheduleError, SectorSchedule};

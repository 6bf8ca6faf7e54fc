//! A verified library of small combinatorial solvers.
//!
//! The centrepiece is a dependency-ordered task scheduler: a task graph built
//! from "must finish before" edges, a deterministic serial walk of that graph
//! under a lexical tie-break, and a discrete-event simulation of a fixed pool
//! of workers executing the same graph concurrently.  Around it stand several
//! smaller verified solvers: frequency accumulation, box-id checksums, fabric
//! claim overlap counting, guard log actions, polymer reduction,
//! nearest-coordinate territories, a marble game, moving-light rendering,
//! and a fuel-cell power grid.

pub mod fabric;
pub mod frequency;
pub mod inventory;
pub mod lights;
pub mod marbles;
pub mod polymer;
pub mod power_grid;
pub mod schedule;
pub mod shift_log;
pub mod territory;
pub mod text;

pub use text::lex_lt;
pub use text::str_eq;
pub use text::str_lt;

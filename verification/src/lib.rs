//! A library for representing circuit netlists for EDA tool development.
//!
//! A netlist owns boundary inputs and instances of cells, wired by the signals that they
//! drive, and exposes some of the signals as outputs. It can be edited, checked, analysed
//! and written out as a Verilog module.

pub mod analysis;
pub mod attribute;
pub mod circuit;
pub mod dispatch;
pub mod edits;
pub mod error;
pub mod gate;
pub mod graph;
pub mod logic;
pub mod netlist;
pub mod text;
pub mod validate;
pub mod verilog;

//! Small puzzle machines: an Intcode interpreter with an input search,
//! a fuel calculator and a crossing-wires locator.
pub mod intcode;
pub mod fuel;
pub mod wires;
pub mod text;

//! The planner: the reservoir bank, the recipe tree and the steps that
//! turn one into a log of actions on the other.

pub mod action;
pub mod floor;
pub mod laws;
pub mod merge;
pub mod planner;
pub mod reservoir;
pub mod stock;
pub mod stocked;
pub mod tree;

//! Static-timing compilation of control programs, with the visitor
//! framework that drives it.
pub mod action;
pub mod errors;
pub mod ir;
pub mod visitor;
pub mod math_utilities;
pub mod static_timing;
pub mod schedule;
pub mod post_order;
pub mod trace;
pub mod static_pass;

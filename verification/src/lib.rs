//! Address mapping and row-cycle accounting for a processing-in-memory
//! sparse matrix multiplication simulator.
pub mod bits;
pub mod jump;
pub mod row_cycle;
pub mod remote_updator;
pub mod same_bank;
pub mod sparse;
pub mod same_bank_weighted;
pub mod evil_filter;
pub mod event;
pub mod overlap;
pub mod transpose;
pub mod results;
pub mod resource;
pub mod action;
pub mod same_subarray;
pub mod algorithms;
pub mod gearbox;
pub mod dispatch;
pub mod split;
pub mod sparse_vec;
pub mod gearbox_rounds;
pub mod gearbox_refined;

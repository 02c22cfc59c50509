//! Search guided by a neural network, and its training.

pub mod burn_load;
pub mod choice;
pub mod constants;
pub mod input;
pub mod input_laws;
pub mod load_laws;
pub mod model;
pub mod search;
pub mod search_laws;
pub mod show;
pub mod train;
pub mod transform;

//! What holds of calls: the laws here are stated over the results that the functions
//! return for their arguments.

pub mod attention;
pub mod defaults;
pub mod model;
pub mod names;
pub mod numbers;
pub mod selection;
pub mod state;
pub mod weights;

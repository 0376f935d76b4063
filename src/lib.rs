//! Reads `name<delimiter>value` lines out of a configuration text for a fixed
//! list of expected parameter names.

pub mod text;
pub mod reader;
pub mod laws;
pub use reader::{ParameterError, ParameterMap, ParameterReader};

pub mod errors;
pub mod utils;

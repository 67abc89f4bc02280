pub mod chromosome;
pub mod engine;
pub mod ga;
pub mod sequential;

pub mod dp;
pub mod ga;

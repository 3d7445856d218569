pub mod adjacency;
pub mod pixel;
pub mod types;
pub mod wfc_field;
pub mod worker;

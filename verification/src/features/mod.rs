pub mod import;
pub mod refresh;
pub mod rows;
pub mod sort;

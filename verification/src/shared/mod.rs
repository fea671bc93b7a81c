pub mod types;

pub mod shared;
pub mod sim;

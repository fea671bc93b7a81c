pub mod book_model;
pub mod event_queue;
pub mod exchange;
pub mod engine;
pub mod laws;

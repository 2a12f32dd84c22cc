pub mod context;
pub mod pass;
pub mod pipeline;
pub mod config;
pub mod result;
pub mod clock;

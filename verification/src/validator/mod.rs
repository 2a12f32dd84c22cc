pub mod pattern;
pub mod coverage;
pub mod executor;
pub mod compiler;
pub mod oracle;
pub mod cycles;

pub mod types;
pub mod outline;
pub mod formatter;
pub mod walker;
pub mod audit;
pub mod compiler;

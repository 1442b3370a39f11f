pub mod analyzer;
pub mod audit;
pub mod cli;
pub mod db;
pub mod embed;
pub mod error;
pub mod manager;
pub mod observer;
pub mod recorder;

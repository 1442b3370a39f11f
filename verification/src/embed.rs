pub mod content;
pub mod error;
pub mod contextual;
pub mod model_version;
pub mod embedder;
pub mod drift;
pub mod orchestrator;
pub mod drift_detect;
pub mod report;
pub mod calibrate;
pub mod similarity;

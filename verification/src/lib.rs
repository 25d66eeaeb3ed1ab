pub mod config;
pub mod highlight;
pub mod scan;
pub mod targets;
pub mod text;
pub mod usage;

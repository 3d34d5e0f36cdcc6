pub mod config;
pub mod github;
pub mod qa;

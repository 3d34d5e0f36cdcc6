pub mod http;
pub mod qa;
pub mod query;

pub mod qa;

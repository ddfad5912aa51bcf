pub mod config;
pub mod search;
pub mod text;
pub mod update;

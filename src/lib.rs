pub mod decimal;
pub mod text;
pub mod config;
pub mod persist;
pub mod store;
pub mod modlog;
pub mod commands;

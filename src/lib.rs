pub mod catalog;
pub mod language;
pub mod registry;
pub mod route;
pub mod server;
pub mod text;

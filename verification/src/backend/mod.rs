pub mod auth;
pub mod database;
pub mod util;

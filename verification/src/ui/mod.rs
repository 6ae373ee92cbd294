pub mod app;
pub mod messages;
pub mod tray;
pub mod views;
pub mod backend;

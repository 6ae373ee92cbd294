pub mod idle;
pub mod mode;
pub mod paused;
pub mod streaming;

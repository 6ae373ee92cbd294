pub mod control;
pub mod negotiate;
pub mod session;
pub mod pin_check;

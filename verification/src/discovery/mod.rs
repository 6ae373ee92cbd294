pub mod browser;
pub mod advertiser;

pub mod cipher;
pub mod keys;
pub mod pairing;
pub mod replay;

pub mod base32;
pub mod error;
pub mod memo;

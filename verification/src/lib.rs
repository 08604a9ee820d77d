pub mod args;
pub mod codec;
pub mod crypto;
pub mod store;
pub mod vault;

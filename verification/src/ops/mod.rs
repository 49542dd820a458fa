pub mod filter;
pub mod record;
pub mod stream;
pub mod tap;

pub mod block;
pub mod keys;

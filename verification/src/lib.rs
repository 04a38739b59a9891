pub mod bytes;
pub mod crypto;
pub mod merkle_tree;
pub mod ring_signature;
pub mod pqring;
pub mod ringxkem;

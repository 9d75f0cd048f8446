//! Reconstruction of paired-end read pairs from a stream of decoded
//! alignment records whose mates may arrive in any order.

pub mod feature;
pub mod record;
pub mod record_pairs;

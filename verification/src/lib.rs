//! Sparse binary parity-check matrices, Tanner graphs and CSS code
//! construction for LDPC and quantum LDPC decoding.

pub mod matrix;
pub mod css;
pub mod graph;
pub mod hgp;
pub mod random_ldpc;
pub mod decoder;

//! Attention micro-kernels.
pub mod slha_v2;

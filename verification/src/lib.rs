//! SLHA v2 tile codes, the CCOS elastic KV-cache and rank metrics.
pub mod attention;
pub mod metrics;
pub mod ccos;
pub mod slha_c;

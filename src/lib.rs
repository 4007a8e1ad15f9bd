//! Email authentication core: DKIM data model and canonicalization, and the
//! DMARC evaluator (From-domain extraction, policy tree walk and alignment).
pub mod base64;
pub mod canonicalize;
pub mod dkim;
pub mod dmarc;
pub mod error;
pub mod tags;
pub mod tree_walk;

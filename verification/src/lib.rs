//! A TCP connect-scan core: port-specification expansion, host-address
//! handling, banner sanitization, and a bounded-concurrency scan state
//! machine. All socket work lives outside this crate; the logic here is
//! verified.

pub mod addr;
pub mod banner;
pub mod ports;
pub mod scan;
pub mod text;

//! Building and mutating GRF archives in place, and the data types of the
//! patcher that delivers updates into them.

pub mod archive;
pub mod builder;
pub mod crypto;
pub mod dyn_alloc;
pub mod embed;
pub mod encoding;
pub mod error;
pub mod generator;
pub mod laws;
pub mod patcher;
pub mod reading;
pub mod zlib;

//! Delimiter-separated web tokens: a small signed-claim format whose wire form is
//! `base64(header);base64(payload);base64(tag)`, with the header `DSWT-<version>/<algorithm>`,
//! the payload a comma-separated list of `key=value` or `key:type=value` entries in
//! ascending key order, and the tag an HMAC over the first two segments.
use vstd::prelude::*;

pub mod text;
pub mod algorithms;
pub mod error;
pub mod types;
pub mod payload;
pub mod codec;
pub mod signer;
pub mod token;
pub mod manager;

pub use algorithms::Algorithm;
pub use error::TokenError;
pub use manager::TokenManager;
pub use payload::PayloadItem;
pub use token::{Token, VERSION};
pub use types::PayloadType;

verus! {

} // verus!

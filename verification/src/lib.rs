//! A time-limited, AEAD-protected license token library.
//!
//! A token binds an expiry timestamp and a subject string. `codec` turns a
//! payload into an authenticated base64 token string and back; `expiry`
//! decides whether a decoded payload has expired at a given moment.

pub mod codec;
pub mod expiry;
pub mod json;
pub mod state;

pub use expiry::ExpiryStatus;
pub use expiry::TokenPayload;

//! The token payload and the expiry policy.

use vstd::prelude::*;

verus! {

/// The signed content of a token: an expiry timestamp (seconds since the
/// epoch, UTC) and an opaque subject string.
#[derive(Debug)]
pub struct TokenPayload {
    pub exp: i64,
    pub sub: String,
}

/// The classification of a decoded payload at a given moment.
#[derive(Debug, Clone, Copy, PartialEq, Eq, Structural)]
pub enum ExpiryStatus {
    Valid,
    Expired,
}

/// A payload whose expiry is at or before `now` is expired; the boundary
/// moment itself counts as expired.
pub open spec fn is_expired_at(exp: int, now: int) -> bool {
    exp <= now
}

impl TokenPayload {
    /// Decide whether this payload has expired at time `now`.
    pub fn evaluate(&self, now: i64) -> (r: ExpiryStatus)
        ensures
            r == ExpiryStatus::Expired <==> is_expired_at(self.exp as int, now as int),
            r == ExpiryStatus::Valid <==> !is_expired_at(self.exp as int, now as int),
    {
        if self.exp <= now {
            ExpiryStatus::Expired
        } else {
            ExpiryStatus::Valid
        }
    }
}

/// The expiry boundary: a payload expiring exactly at `t` is already expired
/// at `t`, and still valid one second earlier.
pub proof fn lemma_expiry_boundary(t: int)
    ensures
        is_expired_at(t, t),
        !is_expired_at(t, t - 1),
{
}

} // verus!

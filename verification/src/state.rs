//! Validation of the configured token and the shared expiry flag.

use crate::codec::decrypt_token;
use crate::codec::is_token_for;
use crate::codec::now_timestamp;
use crate::codec::payload_fits;
use crate::expiry::is_expired_at;
use vstd::prelude::*;
use vstd::string::StringExecFns;

verus! {

/// The validation outcome the rest of the application consults: whether the
/// configured token is expired. The caller wraps it in whatever
/// synchronization the surrounding process needs.
pub struct AppState {
    pub is_expired: bool,
}

impl AppState {
    pub fn new(is_expired: bool) -> (r: AppState)
        ensures
            r.is_expired == is_expired,
    {
        AppState { is_expired }
    }
}

/// Validate a token string under the secret key: decode it, compare its
/// expiry against the clock, and record the outcome in `is_expired`. A token
/// that does not authenticate leaves the flag alone and reports an error.
pub fn validate_key(encrypted_token: &str, secret_key: &[u8; 32], is_expired: &mut bool) -> (r:
    Result<(), String>)
    ensures
        r matches Ok(u) ==> exists|e: int, s: Seq<char>, now: int|
            #![trigger is_token_for(encrypted_token@, secret_key@, e, s), is_expired_at(e, now)]
            -8_400_000_000_000 < now < 8_400_000_000_000 && is_token_for(
                encrypted_token@,
                secret_key@,
                e,
                s,
            ) && (*final(is_expired) <==> is_expired_at(e, now)),
        r matches Err(m) ==> m@ == "Failed to decrypt token or invalid token."@
            && *final(is_expired) == *old(is_expired),
        forall|e: int, s: Seq<char>|
            (i64::MIN <= e <= i64::MAX && payload_fits(e, s) && #[trigger] is_token_for(
                encrypted_token@,
                secret_key@,
                e,
                s,
            )) ==> r is Ok,
{
    match decrypt_token(encrypted_token, secret_key) {
        Some(payload) => {
            let now: i64 = now_timestamp();
            if payload.exp > now {
                *is_expired = false;
            } else {
                *is_expired = true;
            }
            proof {
                assert(is_token_for(
                    encrypted_token@,
                    secret_key@,
                    payload.exp as int,
                    payload.sub@,
                ) && is_expired_at(payload.exp as int, now as int) == *is_expired);
            }
            Ok(())
        },
        None => Err(String::from_str("Failed to decrypt token or invalid token.")),
    }
}

// ---------------------------------------------------------------------------
// Locating the token in the configuration text
// ---------------------------------------------------------------------------

/// Whitespace that surrounds a configured value within its line.
pub open spec fn is_space(b: u8) -> bool {
    b == 0x20 || b == 0x09 || b == 0x0d
}

pub open spec fn trim_front(s: Seq<u8>) -> Seq<u8>
    decreases s.len(),
{
    if s.len() > 0 && is_space(s[0]) {
        trim_front(s.drop_first())
    } else {
        s
    }
}

pub open spec fn trim_back(s: Seq<u8>) -> Seq<u8>
    decreases s.len(),
{
    if s.len() > 0 && is_space(s.last()) {
        trim_back(s.drop_last())
    } else {
        s
    }
}

/// A value with the whitespace around it removed.
pub open spec fn trim_ws(s: Seq<u8>) -> Seq<u8> {
    trim_back(trim_front(s))
}

/// The bytes of a line up to (not including) the first line feed.
pub open spec fn take_line(s: Seq<u8>) -> Seq<u8>
    decreases s.len(),
{
    if s.len() == 0 || s[0] == 0x0a {
        Seq::empty()
    } else {
        seq![s[0]] + take_line(s.drop_first())
    }
}

/// Whether a line carries a configured key: it begins with `key=`.
pub open spec fn starts_with_key(line: Seq<u8>) -> bool {
    line.len() >= 4 && line[0] == 0x6b && line[1] == 0x65 && line[2] == 0x79 && line[3] == 0x3d
}

/// The token the configuration text carries: the value of the first line of
/// the form `key=<value>`, whitespace-trimmed; `None` when no line matches.
pub open spec fn config_token(s: Seq<u8>) -> Option<Seq<u8>>
    decreases s.len(),
    via config_token_dec
{
    let line = take_line(s);
    if starts_with_key(line) {
        Some(trim_ws(line.skip(4)))
    } else if line.len() == s.len() {
        None
    } else {
        config_token(s.skip(line.len() as int + 1))
    }
}

proof fn lemma_take_line_le(s: Seq<u8>)
    ensures
        take_line(s).len() <= s.len(),
    decreases s.len(),
{
    if !(s.len() == 0 || s[0] == 0x0a) {
        lemma_take_line_le(s.drop_first());
    }
}

#[via_fn]
proof fn config_token_dec(s: Seq<u8>) {
    lemma_take_line_le(s);
}

/// `take_line` is the prefix up to the first line feed.
proof fn lemma_take_line(s: Seq<u8>, d: int)
    requires
        0 <= d <= s.len(),
        forall|k: int| 0 <= k < d ==> s[k] != 0x0a,
        d == s.len() || s[d] == 0x0a,
    ensures
        take_line(s) == s.take(d),
    decreases d,
{
    if d == 0 {
        assert(s.take(0) =~= Seq::<u8>::empty());
    } else {
        lemma_take_line(s.drop_first(), d - 1);
        assert(take_line(s) == seq![s[0]] + take_line(s.drop_first()));
        assert(seq![s[0]] + s.drop_first().take(d - 1) =~= s.take(d));
    }
}

/// `trim_front` drops exactly the leading whitespace.
proof fn lemma_trim_front(s: Seq<u8>, lo: int)
    requires
        0 <= lo <= s.len(),
        forall|k: int| 0 <= k < lo ==> is_space(#[trigger] s[k]),
        lo == s.len() || !is_space(s[lo]),
    ensures
        trim_front(s) == s.skip(lo),
    decreases lo,
{
    if lo == 0 {
        assert(s.skip(0) =~= s);
    } else {
        lemma_trim_front(s.drop_first(), lo - 1);
        assert(s.drop_first().skip(lo - 1) =~= s.skip(lo));
    }
}

/// `trim_back` drops exactly the trailing whitespace.
proof fn lemma_trim_back(s: Seq<u8>, hi: int)
    requires
        0 <= hi <= s.len(),
        forall|k: int| hi <= k < s.len() ==> is_space(#[trigger] s[k]),
        hi == 0 || !is_space(s[hi - 1]),
    ensures
        trim_back(s) == s.take(hi),
    decreases s.len(),
{
    if hi == s.len() {
        assert(s.take(hi) =~= s);
    } else {
        assert(is_space(s.last()));
        lemma_trim_back(s.drop_last(), hi);
        assert(s.drop_last().take(hi) =~= s.take(hi));
    }
}

/// Extract the configured token value from configuration text: the value of
/// the first `key=` line, whitespace-trimmed.
#[verifier::loop_isolation(false)]
#[verifier::rlimit(80)]
pub fn find_token_in_config(contents: &[u8]) -> (r: Option<Vec<u8>>)
    ensures
        match r {
            Some(t) => config_token(contents@) == Some(t@),
            None => config_token(contents@) is None,
        },
{
    let n: usize = contents.len();
    let mut pos: usize = 0;
    proof {
        assert(contents@.skip(0) =~= contents@);
    }
    loop
        invariant
            pos <= n == contents@.len(),
            config_token(contents@) == config_token(contents@.skip(pos as int)),
        decreases n - pos,
    {
        let ghost tail: Seq<u8> = contents@.skip(pos as int);
        // find the end of the current line
        let mut k: usize = pos;
        while k < n && contents[k] != 0x0a
            invariant
                pos <= k <= n,
                forall|t: int| pos <= t < k ==> contents@[t] != 0x0a,
            decreases n - k,
        {
            k += 1;
        }
        proof {
            lemma_take_line(tail, k - pos);
            assert(tail.take(k - pos) =~= contents@.subrange(pos as int, k as int));
        }
        // does the line start with "key="?
        let has_key: bool = k - pos >= 4 && contents[pos] == 0x6b && contents[pos + 1] == 0x65
            && contents[pos + 2] == 0x79 && contents[pos + 3] == 0x3d;
        if has_key {
            // trim the value
            let mut lo: usize = pos + 4;
            let mut hi: usize = k;
            while lo < hi && (contents[lo] == 0x20 || contents[lo] == 0x09 || contents[lo]
                == 0x0d)
                invariant
                    pos + 4 <= lo <= hi <= k,
                    forall|t: int| pos + 4 <= t < lo ==> is_space(#[trigger] contents@[t]),
                decreases hi - lo,
            {
                lo += 1;
            }
            while lo < hi && (contents[hi - 1] == 0x20 || contents[hi - 1] == 0x09 || contents[hi
                - 1] == 0x0d)
                invariant
                    pos + 4 <= lo <= hi <= k,
                    forall|t: int| hi <= t < k ==> is_space(#[trigger] contents@[t]),
                decreases hi - lo,
            {
                hi -= 1;
            }
            let mut out: Vec<u8> = Vec::new();
            let mut q: usize = lo;
            while q < hi
                invariant
                    lo <= q <= hi <= n == contents@.len(),
                    out@ == contents@.subrange(lo as int, q as int),
                decreases hi - q,
            {
                out.push(contents[q]);
                proof {
                    assert(out@ =~= contents@.subrange(lo as int, q as int + 1));
                }
                q += 1;
            }
            proof {
                let line: Seq<u8> = take_line(tail);
                let value: Seq<u8> = line.skip(4);
                assert(line == contents@.subrange(pos as int, k as int));
                assert(starts_with_key(line));
                assert(value =~= contents@.subrange(pos as int + 4, k as int));
                lemma_trim_front(value, lo - (pos + 4));
                assert(value.skip(lo - (pos + 4)) =~= contents@.subrange(lo as int, k as int));
                lemma_trim_back(contents@.subrange(lo as int, k as int), hi - lo);
                assert(contents@.subrange(lo as int, k as int).take(hi - lo) =~= contents@.subrange(
                    lo as int,
                    hi as int,
                ));
                assert(trim_ws(value) == contents@.subrange(lo as int, hi as int));
                assert(config_token(contents@) == Some(out@));
            }
            return Some(out);
        }
        if k == n {
            proof {
                let line: Seq<u8> = take_line(tail);
                assert(line == contents@.subrange(pos as int, k as int));
                assert(!starts_with_key(line));
                assert(line.len() == tail.len());
            }
            return None;
        }
        proof {
            let line: Seq<u8> = take_line(tail);
            assert(line == contents@.subrange(pos as int, k as int));
            assert(!starts_with_key(line));
            assert(line.len() < tail.len());
            assert(tail.skip(line.len() as int + 1) =~= contents@.skip(k as int + 1));
        }
        pos = k + 1;
    }
}

} // verus!

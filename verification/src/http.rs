//! The ranged requests a connection makes: the `Range` header it sends, and
//! how it answers the server's status, retrying with growing waits while the
//! server says it is busy.
use vstd::prelude::*;
use vstd::arithmetic::power2::pow2;
use crate::error::Error;
use crate::text::{decimal, push_decimal};

verus! {

/// The `Range` header value asking for bytes `start..=end`: `bytes=START-END`.
pub open spec fn range_request_text(start: u64, end: u64) -> Seq<char> {
    seq!['b', 'y', 't', 'e', 's', '='] + decimal(start as nat) + seq!['-'] + decimal(end as nat)
}

/// The `Range` header value asking for bytes `start..=end`.
pub fn range_header_value(start: u64, end: u64) -> (v: String)
    ensures
        v@ == range_request_text(start, end),
{
    let mut v = String::new();
    v.push('b');
    v.push('y');
    v.push('t');
    v.push('e');
    v.push('s');
    v.push('=');
    push_decimal(&mut v, start);
    v.push('-');
    push_decimal(&mut v, end);
    assert(v@ =~= range_request_text(start, end));
    v
}

/// How many times a ranged request is sent before giving up.
pub const MAX_RANGE_ATTEMPTS: u32 = 5;

/// What to do with the server's answer to a ranged request.
pub enum RangeStep {
    /// The server sent the range: read its body.
    Accept,
    /// The server is busy: wait this many seconds, then ask again.
    Retry(u64),
    /// Give up with this error.
    Refuse(Error),
}

/// The state of a connection's ranged request: how many busy answers it
/// has had, and how long it will wait after the next one.
pub struct RangeRetry {
    pub busy_answers: u32,
    pub delay_secs: u64,
}

impl RangeRetry {
    /// The wait doubles with every busy answer, starting at one second.
    pub open spec fn wf(&self) -> bool {
        &&& self.busy_answers <= MAX_RANGE_ATTEMPTS
        &&& self.delay_secs == pow2(self.busy_answers as nat)
    }

    /// A request not sent yet.
    pub fn new() -> (r: Self)
        ensures
            r.wf(),
            r.busy_answers == 0,
    {
        proof {
            vstd::arithmetic::power2::lemma2_to64();
        }
        RangeRetry { busy_answers: 0, delay_secs: 1 }
    }

    /// Whether the request may be sent (again): after five busy answers the
    /// server is taken to be rate limiting.
    pub fn may_send(&self) -> (r: Result<(), Error>)
        ensures
            self.busy_answers < MAX_RANGE_ATTEMPTS ==> r is Ok,
            self.busy_answers >= MAX_RANGE_ATTEMPTS ==> r matches Err(Error::RateLimited),
    {
        if self.busy_answers < MAX_RANGE_ATTEMPTS {
            Ok(())
        } else {
            Err(Error::RateLimited)
        }
    }

    /// Answers the server's status: "206 Partial Content" is accepted;
    /// "429 Too Many Requests" is retried after `2^k` seconds, `k` being the
    /// number of busy answers before it; "200 OK" means the server ignored
    /// the range; anything else is refused with its status.
    pub fn on_status(&mut self, status: u16) -> (r: RangeStep)
        requires
            old(self).wf(),
            old(self).busy_answers < MAX_RANGE_ATTEMPTS,
        ensures
            final(self).wf(),
            status == 206 ==> r is Accept && *final(self) == *old(self),
            status == 429 ==> (r matches RangeStep::Retry(d) && d == pow2(
                old(self).busy_answers as nat,
            )) && final(self).busy_answers == old(self).busy_answers + 1,
            status == 200 ==> (r matches RangeStep::Refuse(Error::NoRangeSupport)) && *final(self)
                == *old(self),
            status != 206 && status != 429 && status != 200 ==> (r matches RangeStep::Refuse(
                Error::NetworkStatus(s),
            ) && s == status) && *final(self) == *old(self),
    {
        if status == 206 {
            RangeStep::Accept
        } else if status == 429 {
            let wait = self.delay_secs;
            proof {
                vstd::arithmetic::power2::lemma2_to64();
                vstd::arithmetic::power2::lemma_pow2_adds(self.busy_answers as nat, 1);
                assert(pow2(self.busy_answers as nat) <= 16) by {
                    if self.busy_answers < 4 {
                        vstd::arithmetic::power2::lemma_pow2_strictly_increases(
                            self.busy_answers as nat,
                            4,
                        );
                    }
                }
            }
            self.delay_secs = self.delay_secs * 2;
            self.busy_answers = self.busy_answers + 1;
            RangeStep::Retry(wait)
        } else if status == 200 {
            RangeStep::Refuse(Error::NoRangeSupport)
        } else {
            RangeStep::Refuse(Error::NetworkStatus(status))
        }
    }
}

} // verus!

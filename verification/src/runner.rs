//! The decisions of the check loop: the test message and how long to sleep
//! between rounds.

use vstd::prelude::*;

use crate::notifier::Notification;
use crate::text::to_owned_string;

verus! {

/// `rand::rng().random_range(0..=hi)`: a random number from `0` to `hi`,
/// drawn by the thread-local generator. Only the range is stated; the
/// value depends on chance. (`rand::rng` panics if the operating system's
/// random source fails when the generator is first seeded.)
#[verifier::external_body]
fn random_up_to(hi: u64) -> (r: u64)
    ensures
        r <= hi,
{
    rand::RngExt::random_range(&mut rand::rng(), 0..=hi)
}

/// How often the sources are checked: a fixed interval plus a random delay
/// between the least and the greatest, all in minutes.
#[derive(Clone, Copy)]
pub struct Schedule {
    pub check_interval_minutes: u64,
    pub random_delay_min_minutes: u64,
    pub random_delay_max_minutes: u64,
}

/// The seconds to sleep for a random delay of `jitter` minutes above the least.
pub open spec fn sleep_seconds(s: Schedule, jitter: int) -> int {
    (s.check_interval_minutes + s.random_delay_min_minutes + jitter) * 60
}

impl Schedule {
    /// The seconds to sleep for a random delay of `jitter` minutes above the
    /// least; `None` when that does not fit in a `u64`.
    pub fn sleep_after(&self, jitter: u64) -> (r: Option<u64>)
        ensures
            match r {
                Some(t) => t == sleep_seconds(*self, jitter as int),
                None => sleep_seconds(*self, jitter as int) > u64::MAX,
            },
    {
        let delay = match self.random_delay_min_minutes.checked_add(jitter) {
            Some(d) => d,
            None => {
                return None;
            },
        };
        let minutes = match self.check_interval_minutes.checked_add(delay) {
            Some(m) => m,
            None => {
                return None;
            },
        };
        minutes.checked_mul(60)
    }

    /// The seconds to sleep before the next round, with a random delay
    /// drawn between the least and the greatest; `None` when the sleep does
    /// not fit in a `u64`.
    pub fn next_sleep(&self) -> (r: Option<u64>)
        requires
            self.random_delay_min_minutes <= self.random_delay_max_minutes,
        ensures
            exists|jitter: int|
                0 <= jitter <= self.random_delay_max_minutes - self.random_delay_min_minutes && match r {
                    Some(t) => t == sleep_seconds(*self, jitter),
                    None => sleep_seconds(*self, jitter) > u64::MAX,
                },
    {
        let jitter = random_up_to(self.random_delay_max_minutes - self.random_delay_min_minutes);
        let r = self.sleep_after(jitter);
        assert(0 <= jitter as int <= self.random_delay_max_minutes - self.random_delay_min_minutes);
        r
    }
}

/// The message sent when a test mail is asked for at startup.
pub fn test_notification() -> (n: Notification)
    ensures
        n.title@ == "simple-notifier: test email"@,
        n.body@
            == "This is a test email from simple-notifier. Email sending is configured correctly."@,
{
    Notification {
        title: to_owned_string("simple-notifier: test email"),
        body: to_owned_string(
            "This is a test email from simple-notifier. Email sending is configured correctly.",
        ),
    }
}

} // verus!

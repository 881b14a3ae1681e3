//! When proxies are checked.
use vstd::prelude::*;

verus! {

/// Checks proxies from time to time. Times are in milliseconds, the interval in seconds.
#[derive(Debug)]
pub struct HealthCheck {
    pub url: String,
    pub interval: u64,
    /// Proxies are not checked while they are in use.
    pub lazy: bool,
    pub last_check: u64,
    /// The names of the proxies.
    pub proxies: Vec<String>,
}

/// A check is due: always, or, for one that waits, once the interval has passed since the last
/// check or use.
pub open spec fn due(lazy: bool, interval: u64, last_check: u64, now: u64) -> bool {
    !lazy || (now >= last_check && (now - last_check) / 1000 >= interval) || interval == 0
}

impl HealthCheck {
    /// Proxies that were never checked; the time counts from now.
    pub fn new(proxies: Vec<String>, url: String, interval: u64, lazy: bool, now: u64) -> (res: HealthCheck)
        ensures
            res.proxies == proxies,
            res.url == url,
            res.interval == interval,
            res.lazy == lazy,
            res.last_check == now,
    {
        HealthCheck { url, interval, lazy, last_check: now, proxies }
    }

    /// Whether the proxies are to be checked at a tick of the clock.
    pub fn tick(&self, now: u64) -> (res: bool)
        ensures
            res == due(self.lazy, self.interval, self.last_check, now),
    {
        let passed: u64 = if now >= self.last_check {
            (now - self.last_check) / 1000
        } else {
            0
        };
        !self.lazy || passed >= self.interval
    }

    /// Takes note that a check that was due at a tick of the clock is done. The time counts from the
    /// tick, whatever use there was meanwhile.
    pub fn checked(&mut self, ticked: u64)
        ensures
            *final(self) == (HealthCheck { last_check: ticked, ..*old(self) }),
    {
        self.last_check = ticked;
    }

    /// Takes note that the proxies are in use.
    pub fn touch(&mut self, now: u64)
        ensures
            *final(self) == (HealthCheck { last_check: now, ..*old(self) }),
    {
        self.last_check = now;
    }

    /// Takes other proxies.
    pub fn update(&mut self, proxies: Vec<String>)
        ensures
            *final(self) == (HealthCheck { proxies, ..*old(self) }),
    {
        self.proxies = proxies;
    }

    /// Whether proxies are checked at all.
    pub fn auto(&self) -> (res: bool)
        ensures
            res == (self.interval != 0),
    {
        self.interval != 0
    }
}

/// Right after use, proxies that wait for their check are not checked.
pub proof fn law_use_puts_check_off(interval: u64, now: u64, later: u64)
    requires
        now <= later,
        later - now < interval * 1000,
    ensures
        !due(true, interval, now, later),
{
}

/// A check is due each time where proxies are checked whether in use or not. Else it is due once the
/// interval, in seconds, has passed since the last check or use, and stays due until then.
pub proof fn law_when_a_check_is_due(lazy: bool, interval: u64, last_check: u64, now: u64, later: u64)
    requires
        last_check <= now <= later,
    ensures
        !lazy ==> due(lazy, interval, last_check, now),
        lazy ==> (due(lazy, interval, last_check, now) <==> now - last_check >= interval * 1000),
        due(lazy, interval, last_check, now) ==> due(lazy, interval, last_check, later),
{
}

} // verus!

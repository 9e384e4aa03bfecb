//! Per-user rate limiting: one reply per user per cooldown period.
//!
//! The limiter keeps, for every user it has ever allowed a reply to, the time
//! of that last allowed reply. A reply is allowed when the user was never seen
//! before, or when at least one full cooldown period has passed since the last
//! allowed reply. Time is supplied by the caller as a monotonic reading in
//! milliseconds; the limiter itself does no I/O.

use vstd::prelude::*;

verus! {

/// Whether a reply is allowed given the time of the last allowed reply (if
/// any), the current time, and the cooldown period.
pub open spec fn allowed(last: Option<u64>, now: u64, period: u64) -> bool {
    match last {
        Option::None => true,
        Option::Some(t) => t + period <= now,
    }
}

/// The time recorded for `user` by the first entry that carries it, if any.
pub open spec fn lookup(entries: Seq<(String, u64)>, user: Seq<char>) -> Option<u64>
    decreases entries.len(),
{
    if entries.len() == 0 {
        Option::None
    } else if entries[0].0@ == user {
        Option::Some(entries[0].1)
    } else {
        lookup(entries.drop_first(), user)
    }
}

/// Token bucket per user key, capacity one, one token per cooldown period:
/// equivalently, a map from user to the time of the last allowed reply.
pub struct RateLimiter {
    period: u64,
    entries: Vec<(String, u64)>,
}

impl RateLimiter {
    /// The configured cooldown period in milliseconds.
    pub closed spec fn spec_period(self) -> u64 {
        self.period
    }

    /// The time of the last allowed reply to `user`, if any.
    pub closed spec fn last_seen(self, user: Seq<char>) -> Option<u64> {
        lookup(self.entries@, user)
    }

    /// A fresh limiter with the given cooldown period: no user seen yet.
    pub fn new(period: u64) -> (r: RateLimiter)
        ensures
            r.spec_period() == period,
            forall|u: Seq<char>| r.last_seen(u) == Option::<u64>::None,
    {
        RateLimiter { period, entries: Vec::new() }
    }

    /// Decide whether a reply to `user` at time `now` is allowed, and if so
    /// consume the user's token: record `now` as the last allowed time.
    /// A denied call leaves the state unchanged, and no user's state ever
    /// depends on another's.
    pub fn allow(&mut self, user: &str, now: u64) -> (b: bool)
        ensures
            b == allowed(old(self).last_seen(user@), now, old(self).spec_period()),
            final(self).spec_period() == old(self).spec_period(),
            b ==> final(self).last_seen(user@) == Option::Some(now),
            !b ==> *final(self) == *old(self),
            forall|u: Seq<char>| u != user@ ==> final(self).last_seen(u) == old(self).last_seen(u),
    {
        let user_owned = user.to_owned();
        let n = self.entries.len();
        let mut i: usize = 0;
        while i < n
            invariant
                *self == *old(self),
                n == self.entries.len(),
                i <= n,
                user_owned@ == user@,
                forall|j: int| 0 <= j < i ==> self.entries@[j].0@ != user@,
            decreases n - i,
        {
            if self.entries[i].0 == user_owned {
                let t = self.entries[i].1;
                proof {
                    lemma_lookup_first_hit(self.entries@, user@, i as int);
                }
                if now >= t && now - t >= self.period {
                    let ghost prior = self.entries@;
                    let ghost pair: (String, u64) = (user_owned, now);
                    proof {
                        lemma_lookup_update(prior, i as int, pair);
                    }
                    self.entries[i] = (user_owned, now);
                    assert(self.entries@ =~= prior.update(i as int, pair));
                    return true;
                } else {
                    return false;
                }
            }
            i += 1;
        }
        proof {
            lemma_lookup_absent(self.entries@, user@);
            lemma_lookup_push(self.entries@, (user_owned, now), user@);
            lemma_lookup_push_other(self.entries@, user@);
        }
        self.entries.push((user_owned, now));
        true
    }
}

/// When the first entry carrying `user` stands at position `i`, the lookup
/// returns that entry's time.
proof fn lemma_lookup_first_hit(entries: Seq<(String, u64)>, user: Seq<char>, i: int)
    requires
        0 <= i < entries.len(),
        entries[i].0@ == user,
        forall|j: int| 0 <= j < i ==> entries[j].0@ != user,
    ensures
        lookup(entries, user) == Option::Some(entries[i].1),
    decreases i,
{
    if i > 0 {
        lemma_lookup_first_hit(entries.drop_first(), user, i - 1);
    }
}

/// When no entry carries `user`, the lookup returns nothing.
proof fn lemma_lookup_absent(entries: Seq<(String, u64)>, user: Seq<char>)
    requires
        forall|j: int| 0 <= j < entries.len() ==> entries[j].0@ != user,
    ensures
        lookup(entries, user) == Option::<u64>::None,
    decreases entries.len(),
{
    if entries.len() > 0 {
        lemma_lookup_absent(entries.drop_first(), user);
    }
}

/// Overwriting the first entry that carries the pair's key with a fresh time
/// changes that key's lookup to the fresh time and no other key's lookup at
/// all.
proof fn lemma_lookup_update(entries: Seq<(String, u64)>, i: int, pair: (String, u64))
    requires
        0 <= i < entries.len(),
        entries[i].0@ == pair.0@,
        forall|j: int| 0 <= j < i ==> entries[j].0@ != pair.0@,
    ensures
        lookup(entries.update(i, pair), pair.0@) == Option::Some(pair.1),
        forall|u: Seq<char>|
            u != pair.0@ ==> lookup(entries.update(i, pair), u) == lookup(entries, u),
    decreases i,
{
    let updated = entries.update(i, pair);
    if i == 0 {
        assert(updated[0] == pair);
        assert forall|u: Seq<char>| u != pair.0@ implies lookup(updated, u) == lookup(
            entries,
            u,
        ) by {
            assert(updated.drop_first() =~= entries.drop_first());
        }
    } else {
        lemma_lookup_update(entries.drop_first(), i - 1, pair);
        assert(updated.drop_first() =~= entries.drop_first().update(i - 1, pair));
        assert(updated[0] == entries[0]);
        assert forall|u: Seq<char>| u != pair.0@ implies lookup(updated, u) == lookup(
            entries,
            u,
        ) by {
            assert(lookup(updated.drop_first(), u) == lookup(entries.drop_first(), u));
        }
    }
}

/// Appending an entry for a user that had none gives that user the appended
/// time.
proof fn lemma_lookup_push(entries: Seq<(String, u64)>, pair: (String, u64), user: Seq<char>)
    requires
        pair.0@ == user,
        lookup(entries, user) == Option::<u64>::None,
    ensures
        lookup(entries.push(pair), user) == Option::Some(pair.1),
    decreases entries.len(),
{
    if entries.len() > 0 {
        lemma_lookup_push(entries.drop_first(), pair, user);
        assert(entries.push(pair).drop_first() =~= entries.drop_first().push(pair));
    } else {
        assert(entries.push(pair)[0] == pair);
    }
}

/// Appending an entry for one user leaves every other user's lookup alone.
proof fn lemma_lookup_push_other(entries: Seq<(String, u64)>, user: Seq<char>)
    ensures
        forall|pair: (String, u64), u: Seq<char>|
            pair.0@ == user && u != user ==> lookup(entries.push(pair), u) == lookup(entries, u),
    decreases entries.len(),
{
    assert forall|pair: (String, u64), u: Seq<char>|
        pair.0@ == user && u != user implies lookup(entries.push(pair), u) == lookup(
        entries,
        u,
    ) by {
        lemma_lookup_push_any(entries, pair, u);
    }
}

/// Appending an entry changes a lookup only for the appended key, and only
/// when that key had no entry before.
proof fn lemma_lookup_push_any(entries: Seq<(String, u64)>, pair: (String, u64), u: Seq<char>)
    requires
        pair.0@ != u,
    ensures
        lookup(entries.push(pair), u) == lookup(entries, u),
    decreases entries.len(),
{
    let pushed = entries.push(pair);
    if entries.len() > 0 {
        lemma_lookup_push_any(entries.drop_first(), pair, u);
        assert(pushed[0] == entries[0]);
        assert(pushed.drop_first() =~= entries.drop_first().push(pair));
        if entries[0].0@ == u {
            assert(lookup(entries, u) == Option::Some(entries[0].1));
            assert(lookup(pushed, u) == Option::Some(pushed[0].1));
        } else {
            assert(lookup(entries, u) == lookup(entries.drop_first(), u));
            assert(lookup(pushed, u) == lookup(pushed.drop_first(), u));
        }
    } else {
        assert(pushed[0] == pair);
        assert(pushed.drop_first() =~= Seq::<(String, u64)>::empty());
        assert(lookup(pushed, u) == lookup(pushed.drop_first(), u));
        assert(lookup(pushed.drop_first(), u) == Option::<u64>::None);
        assert(lookup(entries, u) == Option::<u64>::None);
    }
}

/// A user never seen is always allowed.
pub proof fn lemma_fresh_user_allowed(now: u64, period: u64)
    ensures
        allowed(Option::None, now, period),
{
}

/// Right after an allowed reply at `now`, a second call before a full period
/// has passed is denied.
pub proof fn lemma_second_call_denied(now: u64, later: u64, period: u64)
    requires
        later < now + period,
    ensures
        !allowed(Option::Some(now), later, period),
{
}

/// Once a full period has passed since the last allowed reply, a call is
/// allowed again.
pub proof fn lemma_cooldown_elapsed_allowed(now: u64, later: u64, period: u64)
    requires
        later >= now + period,
    ensures
        allowed(Option::Some(now), later, period),
{
}

} // verus!

//! The event dispatcher: classify one inbound protocol event and decide what,
//! if anything, goes back out.
//!
//! The dispatcher owns the channel list, the phrase rules, the per-user rate
//! limiter, and the duplicate-suppression bypass state. It does no I/O: the
//! surrounding connection loop feeds it events as plain values and performs
//! the actions it returns.

use crate::phrase::{default_reply, lemma_default_table, match_rules, phrases, rules_are_default,
    Phrase};
use crate::pyramid::{build_pyramid, pyramid_batch};
use crate::rate::{allowed, RateLimiter};
use crate::text::{chars_eq, chars_start_with, chars_vec, parse_u8_arg, parse_u8_spec, starts_with,
    trim};
use vstd::prelude::*;

verus! {

/// An inbound protocol event, as plain values.
pub enum Event {
    Privmsg { sender: String, channel: String, text: String },
    Ping { token: String },
    Reconnect,
    Other,
}

/// What the dispatcher asks the connection to perform in response.
pub enum Action {
    /// Send a chat message to a channel.
    SendPrivmsg { channel: String, text: String },
    /// Transmit a pre-framed raw batch.
    SendRaw { batch: String },
    /// Answer a keepalive with its token.
    Pong { token: String },
    /// Re-establish the connection, then join exactly these channels again.
    Rejoin { channels: Vec<String> },
}

#[verifier::external_type_specification]
#[verifier::external_body]
pub struct ExSameMessageBypass(tmi::client::write::SameMessageBypass);

/// The non-empty suffix the duplicate-suppression bypass alternates with: a
/// space and an invisible braille blank.
pub open spec fn bypass_suffix() -> Seq<char> {
    " \u{2800}"@
}

/// Relies on tmi's SameMessageBypass::default: a fresh bypass state.
#[verifier::external_body]
fn smb_new() -> tmi::client::write::SameMessageBypass {
    tmi::client::write::SameMessageBypass::default()
}

/// Relies on tmi's SameMessageBypass::get: whatever its internal state, the
/// returned suffix is either empty or the one invisible-tail suffix.
#[verifier::external_body]
fn smb_get(smb: &mut tmi::client::write::SameMessageBypass) -> (r: &'static str)
    ensures
        r@.len() == 0 || r@ == bypass_suffix(),
{
    smb.get()
}

/// The identities permitted to invoke the pyramid command.
pub open spec fn in_allow_list(u: Seq<char>) -> bool {
    u == "mosscode"@ || u == "vesdev"@
}

/// The height the text asks of the pyramid command, when it carries one: the
/// command prefix followed by a small integer, whitespace around it ignored.
pub open spec fn pyramid_request(text: Seq<char>) -> Option<u8> {
    if starts_with(text, "!pyramid"@) {
        parse_u8_spec(trim(text.skip("!pyramid"@.len() as int)))
    } else {
        Option::None
    }
}

/// The dispatcher's whole state: which channels it serves, its rule table,
/// the per-user limiter, and the bypass toggle.
pub struct Dispatcher {
    channels: Vec<String>,
    rules: Vec<Phrase>,
    limiter: RateLimiter,
    smb: tmi::client::write::SameMessageBypass,
}

impl Dispatcher {
    /// The channels the dispatcher serves, as character sequences.
    pub closed spec fn spec_channels(self) -> Seq<Seq<char>> {
        self.channels.deep_view()
    }

    /// The rule table.
    pub closed spec fn spec_rules(self) -> Seq<Phrase> {
        self.rules@
    }

    /// The rate limiter's state.
    pub closed spec fn spec_limiter(self) -> RateLimiter {
        self.limiter
    }

    /// A dispatcher is well formed when its rule table is the built-in one.
    pub open spec fn wf(self) -> bool {
        rules_are_default(self.spec_rules())
    }

    /// A fresh dispatcher for the given channels, with the built-in rules, an
    /// idle limiter with the given cooldown, and a fresh bypass state.
    pub fn new(channels: Vec<String>, cooldown_ms: u64) -> (d: Dispatcher)
        ensures
            d.wf(),
            d.spec_channels() == channels.deep_view(),
            d.spec_limiter().spec_period() == cooldown_ms,
            forall|u: Seq<char>| d.spec_limiter().last_seen(u) == Option::<u64>::None,
    {
        Dispatcher {
            channels,
            rules: phrases(),
            limiter: RateLimiter::new(cooldown_ms),
            smb: smb_new(),
        }
    }

    /// A copy of the channel list.
    fn clone_channels(&self) -> (r: Vec<String>)
        ensures
            r.deep_view() == self.spec_channels(),
    {
        let n = self.channels.len();
        let mut out: Vec<String> = Vec::new();
        let mut i: usize = 0;
        while i < n
            invariant
                i <= n,
                n == self.channels@.len(),
                out@.len() == i,
                forall|j: int| 0 <= j < i ==> out@[j]@ == self.channels@[j]@,
            decreases n - i,
        {
            let c = self.channels[i].clone();
            out.push(c);
            i += 1;
        }
        assert(out.deep_view() =~~= self.channels.deep_view());
        out
    }

    /// Classify one inbound event and decide the response.
    ///
    /// A keepalive always earns exactly one pong, never rate limited. A
    /// reconnect directive asks for the same channel set to be rejoined. A
    /// chat message is first checked for the pyramid command: an allow-listed
    /// sender with a height inside the small permitted range gets the whole
    /// batch, any other pyramid request is silently dropped. Otherwise the
    /// phrase rules decide a reply, and the reply is sent only when the
    /// sender's cooldown has elapsed, with the bypass suffix appended.
    pub fn handle_message(&mut self, ev: Event, now: u64) -> (action: Option<Action>)
        requires
            old(self).wf(),
        ensures
            final(self).wf(),
            final(self).spec_channels() == old(self).spec_channels(),
            final(self).spec_rules() == old(self).spec_rules(),
            final(self).spec_limiter().spec_period() == old(self).spec_limiter().spec_period(),
            match ev {
                Event::Ping { token } => (action matches Option::Some(Action::Pong { token: t })
                    && t@ == token@) && final(self).spec_limiter() == old(self).spec_limiter(),
                Event::Reconnect => (action matches Option::Some(Action::Rejoin { channels: cs })
                    && cs.deep_view() == old(self).spec_channels()) && final(self).spec_limiter()
                    == old(self).spec_limiter(),
                Event::Other => action is None && final(self).spec_limiter() == old(
                    self,
                ).spec_limiter(),
                Event::Privmsg { sender, channel, text } => match pyramid_request(text@) {
                    Option::Some(n) => final(self).spec_limiter() == old(self).spec_limiter() && (
                    if in_allow_list(sender@) && 1 <= n <= 4 {
                        action matches Option::Some(Action::SendRaw { batch }) && batch@
                            == pyramid_batch(channel@, n as int)
                    } else {
                        action is None
                    }),
                    Option::None => match default_reply(text@) {
                        Option::Some(reply) => if allowed(
                            old(self).spec_limiter().last_seen(sender@),
                            now,
                            old(self).spec_limiter().spec_period(),
                        ) {
                            (action matches Option::Some(Action::SendPrivmsg { channel: ch, text: t })
                                && ch@ == channel@ && (t@ == reply || t@ == reply
                                + bypass_suffix())) && final(self).spec_limiter().last_seen(
                                sender@,
                            ) == Option::Some(now) && (forall|u: Seq<char>|
                                u != sender@ ==> final(self).spec_limiter().last_seen(u) == old(
                                    self,
                                ).spec_limiter().last_seen(u))
                        } else {
                            action is None && final(self).spec_limiter() == old(
                                self,
                            ).spec_limiter()
                        },
                        Option::None => action is None && final(self).spec_limiter() == old(
                            self,
                        ).spec_limiter(),
                    },
                },
            },
    {
        match ev {
            Event::Ping { token } => Option::Some(Action::Pong { token }),
            Event::Reconnect => Option::Some(
                Action::Rejoin { channels: self.clone_channels() },
            ),
            Event::Other => Option::None,
            Event::Privmsg { sender, channel, text } => {
                let text_chars = chars_vec(text.as_str());
                let pat = chars_vec("!pyramid");
                if chars_start_with(&text_chars, &pat) {
                    let parsed = parse_u8_arg(&text_chars, pat.len());
                    if let Option::Some(n) = parsed {
                        let sender_chars = chars_vec(sender.as_str());
                        let allow1 = chars_vec("mosscode");
                        let allow2 = chars_vec("vesdev");
                        let listed = chars_eq(&sender_chars, &allow1) || chars_eq(
                            &sender_chars,
                            &allow2,
                        );
                        if listed && 1 <= n && n <= 4 {
                            let batch = build_pyramid(channel.as_str(), n);
                            return Option::Some(Action::SendRaw { batch });
                        }
                        return Option::None;
                    }
                }
                let matched = match_rules(&self.rules, text.as_str());
                proof {
                    lemma_default_table(self.rules@, text@);
                }
                match matched {
                    Option::Some(reply) => {
                        if self.limiter.allow(sender.as_str(), now) {
                            let suffix = smb_get(&mut self.smb);
                            let mut out = reply;
                            out.append(suffix);
                            proof {
                                if suffix@.len() == 0 {
                                    assert(out@ =~= default_reply(text@)->0);
                                }
                            }
                            Option::Some(Action::SendPrivmsg { channel, text: out })
                        } else {
                            Option::None
                        }
                    },
                    Option::None => Option::None,
                }
            },
        }
    }
}

} // verus!

use tayb::dispatch::{Action, Dispatcher, Event};
use tayb::text::parse_channels;

fn channels() -> Vec<String> {
    vec![String::from("#one"), String::from("#two")]
}

fn privmsg(sender: &str, channel: &str, text: &str) -> Event {
    Event::Privmsg {
        sender: String::from(sender),
        channel: String::from(channel),
        text: String::from(text),
    }
}

#[test]
fn pyramid_of_three_is_five_lines() {
    let mut d = Dispatcher::new(channels(), 3000);
    let action = d.handle_message(privmsg("mosscode", "#one", "!pyramid 3"), 0);
    match action {
        Some(Action::SendRaw { batch }) => {
            let expected = "PRIVMSG #one :6yb\r\n\
                            PRIVMSG #one :6yb 6yb\r\n\
                            PRIVMSG #one :6yb 6yb 6yb\r\n\
                            PRIVMSG #one :6yb 6yb\r\n\
                            PRIVMSG #one :6yb\r\n";
            assert_eq!(batch, expected);
            assert_eq!(batch.matches("PRIVMSG").count(), 5);
        }
        other => panic!("expected a raw batch, got {:?}", other.is_some()),
    }
}

#[test]
fn pyramid_out_of_range_is_dropped() {
    let mut d = Dispatcher::new(channels(), 3000);
    assert!(d.handle_message(privmsg("mosscode", "#one", "!pyramid 0"), 0).is_none());
    assert!(d.handle_message(privmsg("mosscode", "#one", "!pyramid 5"), 0).is_none());
}

#[test]
fn pyramid_needs_allow_listed_sender() {
    let mut d = Dispatcher::new(channels(), 3000);
    assert!(d.handle_message(privmsg("someone", "#one", "!pyramid 3"), 0).is_none());
}

#[test]
fn pyramid_accepts_other_allow_listed_sender() {
    let mut d = Dispatcher::new(channels(), 3000);
    let action = d.handle_message(privmsg("vesdev", "#two", "!pyramid 1"), 0);
    match action {
        Some(Action::SendRaw { batch }) => {
            assert_eq!(batch, "PRIVMSG #two :6yb\r\n");
        }
        _ => panic!("expected a raw batch"),
    }
}

#[test]
fn unparsable_pyramid_argument_falls_through() {
    let mut d = Dispatcher::new(channels(), 3000);
    // no number: the text is tried against the phrase rules instead, and
    // matches nothing
    assert!(d.handle_message(privmsg("mosscode", "#one", "!pyramid lots"), 0).is_none());
}

#[test]
fn ping_always_earns_one_pong() {
    let mut d = Dispatcher::new(channels(), 3000);
    // exhaust a user's budget first: the pong must not be rate limited
    let _ = d.handle_message(privmsg("a", "#one", "ok"), 0);
    let action = d.handle_message(Event::Ping { token: String::from("tmi.example") }, 0);
    match action {
        Some(Action::Pong { token }) => assert_eq!(token, "tmi.example"),
        _ => panic!("expected a pong"),
    }
}

#[test]
fn reconnect_rejoins_same_channels() {
    let mut d = Dispatcher::new(channels(), 3000);
    let action = d.handle_message(Event::Reconnect, 0);
    match action {
        Some(Action::Rejoin { channels: cs }) => {
            assert_eq!(cs, vec![String::from("#one"), String::from("#two")]);
        }
        _ => panic!("expected a rejoin"),
    }
}

#[test]
fn other_events_are_ignored() {
    let mut d = Dispatcher::new(channels(), 3000);
    assert!(d.handle_message(Event::Other, 0).is_none());
}

#[test]
fn two_quick_messages_one_reply() {
    // a 3-second cooldown and no elapsed time between the two messages:
    // exactly one outgoing reply, for the first message only
    let mut d = Dispatcher::new(channels(), 3000);
    let first = d.handle_message(privmsg("a", "#one", "6yb"), 0);
    match first {
        Some(Action::SendPrivmsg { channel, text }) => {
            assert_eq!(channel, "#one");
            assert_eq!(text, "6yb");
        }
        _ => panic!("expected a reply to the first message"),
    }
    let second = d.handle_message(privmsg("a", "#one", "ok"), 0);
    assert!(second.is_none());
}

#[test]
fn reply_carries_alternating_bypass_suffix() {
    let mut d = Dispatcher::new(channels(), 3000);
    let first = d.handle_message(privmsg("a", "#one", "ok"), 0);
    let second = d.handle_message(privmsg("b", "#one", "ok"), 0);
    match (first, second) {
        (
            Some(Action::SendPrivmsg { text: t1, .. }),
            Some(Action::SendPrivmsg { text: t2, .. }),
        ) => {
            assert_eq!(t1, "6yb");
            assert_eq!(t2, "6yb \u{2800}");
        }
        _ => panic!("expected two replies"),
    }
}

#[test]
fn channel_list_parses_from_commas() {
    assert_eq!(parse_channels("#a,#b,#c"), vec!["#a", "#b", "#c"]);
    assert_eq!(parse_channels("#solo"), vec!["#solo"]);
    assert_eq!(parse_channels(""), vec![""]);
    assert_eq!(parse_channels("#a,,#b"), vec!["#a", "", "#b"]);
}

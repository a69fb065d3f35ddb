//! Wire-level behaviour: framing, command parsing, and the replies
//! commands produce against a fresh store.

use mini_redis::cmd::{Applied, Command};
use mini_redis::db::State;
use mini_redis::frame::{encode_frame, try_parse_frame, Frame, FrameError};

/// Parses exactly one frame out of `bytes`, expecting it to be complete.
fn parse_one(bytes: &[u8]) -> (Frame, usize) {
    match try_parse_frame(bytes) {
        Ok(Some(pair)) => pair,
        _ => panic!("expected a complete frame"),
    }
}

/// Runs one request through parse, dispatch and apply, returning the
/// encoded reply.
fn reply_bytes(state: &mut State, request: &[u8], now_ms: u64) -> Vec<u8> {
    let (frame, used) = parse_one(request);
    assert_eq!(used, request.len());
    let cmd = Command::from_frame(frame).expect("command must parse");
    match cmd.apply_to_state(state, now_ms) {
        Applied::Reply { frame, notify: _ } => encode_frame(&frame).expect("reply must encode"),
        other => panic!("expected a direct reply, got: {}", discr(&other)),
    }
}

fn discr(a: &Applied) -> &'static str {
    match a {
        Applied::Reply { .. } => "reply",
        Applied::StartSubscription { .. } => "subscription",
        Applied::InvalidUnsubscribe => "invalid unsubscribe",
    }
}

#[test]
fn ping_returns_pong() {
    let mut state = State::new();
    let out = reply_bytes(&mut state, b"*1\r\n$4\r\nPING\r\n", 0);
    assert_eq!(out, b"+PONG\r\n");
}

#[test]
fn ping_echoes_payload() {
    let mut state = State::new();
    let out = reply_bytes(&mut state, b"*2\r\n$4\r\nPING\r\n$5\r\nhello\r\n", 0);
    assert_eq!(out, b"$5\r\nhello\r\n");
}

#[test]
fn set_then_get_round_trip() {
    let mut state = State::new();
    let out = reply_bytes(&mut state, b"*3\r\n$3\r\nSET\r\n$5\r\nhello\r\n$5\r\nworld\r\n", 0);
    assert_eq!(out, b"+OK\r\n");
    let out = reply_bytes(&mut state, b"*2\r\n$3\r\nGET\r\n$5\r\nhello\r\n", 1);
    assert_eq!(out, b"$5\r\nworld\r\n");
}

#[test]
fn get_missing_returns_null() {
    let mut state = State::new();
    let out = reply_bytes(&mut state, b"*2\r\n$3\r\nGET\r\n$7\r\nmissing\r\n", 0);
    assert_eq!(out, b"$-1\r\n");
}

#[test]
fn set_overwrites_whatever_was_there() {
    let mut state = State::new();
    reply_bytes(&mut state, b"*3\r\n$3\r\nSET\r\n$1\r\nk\r\n$1\r\na\r\n", 0);
    reply_bytes(&mut state, b"*3\r\n$3\r\nSET\r\n$1\r\nk\r\n$1\r\nb\r\n", 1);
    let out = reply_bytes(&mut state, b"*2\r\n$3\r\nGET\r\n$1\r\nk\r\n", 2);
    assert_eq!(out, b"$1\r\nb\r\n");
}

#[test]
fn set_with_px_expires_after_sweep() {
    let mut state = State::new();
    let out = reply_bytes(
        &mut state,
        b"*5\r\n$3\r\nSET\r\n$1\r\nk\r\n$1\r\nv\r\n$2\r\nPX\r\n$3\r\n100\r\n",
        0,
    );
    assert_eq!(out, b"+OK\r\n");
    // Within the time to live the value is visible.
    let out = reply_bytes(&mut state, b"*2\r\n$3\r\nGET\r\n$1\r\nk\r\n", 50);
    assert_eq!(out, b"$1\r\nv\r\n");
    // After the sweeper has run past the deadline, it is gone.
    assert_eq!(state.purge_expired(150), None);
    let out = reply_bytes(&mut state, b"*2\r\n$3\r\nGET\r\n$1\r\nk\r\n", 150);
    assert_eq!(out, b"$-1\r\n");
}

#[test]
fn set_with_ex_uses_seconds() {
    let mut state = State::new();
    let out = reply_bytes(
        &mut state,
        b"*5\r\n$3\r\nSET\r\n$1\r\nk\r\n$1\r\nv\r\n$2\r\nEX\r\n$1\r\n2\r\n",
        0,
    );
    assert_eq!(out, b"+OK\r\n");
    // 2 seconds: still present after 1999 ms, gone once swept at 2000 ms.
    state.purge_expired(1999);
    let out = reply_bytes(&mut state, b"*2\r\n$3\r\nGET\r\n$1\r\nk\r\n", 1999);
    assert_eq!(out, b"$1\r\nv\r\n");
    state.purge_expired(2000);
    let out = reply_bytes(&mut state, b"*2\r\n$3\r\nGET\r\n$1\r\nk\r\n", 2000);
    assert_eq!(out, b"$-1\r\n");
}

#[test]
fn unknown_command_reports_lowercased_name() {
    let mut state = State::new();
    let out = reply_bytes(&mut state, b"*2\r\n$8\r\nWHATEVER\r\n$1\r\nx\r\n", 0);
    assert_eq!(out, b"-ERR unknown command 'whatever'\r\n");
}

#[test]
fn command_names_match_case_insensitively() {
    let mut state = State::new();
    let out = reply_bytes(&mut state, b"*1\r\n$4\r\npInG\r\n", 0);
    assert_eq!(out, b"+PONG\r\n");
}

#[test]
fn partial_frame_waits_for_more_bytes() {
    let mut state = State::new();
    // The prefix of a SET arrives first: not a frame yet, not an error.
    let prefix = b"*3\r\n$3\r\nS";
    assert!(matches!(try_parse_frame(prefix), Ok(None)));
    // Once the rest arrives the same buffer parses and applies cleanly.
    let mut full = prefix.to_vec();
    full.extend_from_slice(b"ET\r\n$1\r\nk\r\n$1\r\nv\r\n");
    let out = reply_bytes(&mut state, &full, 0);
    assert_eq!(out, b"+OK\r\n");
}

#[test]
fn malformed_tag_is_rejected() {
    assert!(matches!(try_parse_frame(b"!bad\r\n"), Err(FrameError::Malformed)));
}

#[test]
fn integer_frame_parses_to_u64() {
    let (frame, used) = parse_one(b":18446744073709551615\r\n");
    assert_eq!(used, 23);
    assert!(matches!(frame, Frame::Integer(u64::MAX)));
}

#[test]
fn integer_overflow_is_malformed() {
    assert!(matches!(
        try_parse_frame(b":18446744073709551616\r\n"),
        Err(FrameError::Malformed)
    ));
}

#[test]
fn non_numeric_length_is_malformed() {
    assert!(matches!(try_parse_frame(b"$x3\r\nabc\r\n"), Err(FrameError::Malformed)));
}

#[test]
fn null_frame_round_trips() {
    let (frame, used) = parse_one(b"$-1\r\n");
    assert_eq!(used, 5);
    assert!(matches!(frame, Frame::Null));
    assert_eq!(encode_frame(&frame).unwrap(), b"$-1\r\n");
}

#[test]
fn every_frame_kind_round_trips() {
    let cases: Vec<Frame> = vec![
        Frame::Simple("OK".to_string()),
        Frame::Error("ERR boom".to_string()),
        Frame::Integer(0),
        Frame::Integer(12345),
        Frame::Bulk(b"hello".to_vec()),
        Frame::Bulk(Vec::new()),
        Frame::Null,
        Frame::Array(vec![
            Frame::Bulk(b"GET".to_vec()),
            Frame::Simple("k".to_string()),
            Frame::Integer(7),
            Frame::Null,
        ]),
    ];
    for frame in cases {
        let encoded = encode_frame(&frame).expect("test frames are encodable");
        let (parsed, used) = parse_one(&encoded);
        assert_eq!(used, encoded.len());
        let re_encoded = encode_frame(&parsed).expect("parsed frame encodes again");
        assert_eq!(re_encoded, encoded);
    }
}

#[test]
fn trailing_bytes_are_left_for_the_next_frame() {
    let bytes = b"+first\r\n+second\r\n";
    let (frame, used) = parse_one(bytes);
    assert_eq!(used, 8);
    assert!(matches!(frame, Frame::Simple(ref s) if s == "first"));
    let (frame2, used2) = parse_one(&bytes[used..]);
    assert_eq!(used2, 9);
    assert!(matches!(frame2, Frame::Simple(ref s) if s == "second"));
}

#[test]
fn nested_arrays_cannot_be_encoded() {
    let nested = Frame::Array(vec![Frame::Array(vec![Frame::Null])]);
    assert!(encode_frame(&nested).is_none());
    assert!(!nested.is_encodable());
}

#[test]
fn text_with_line_breaks_cannot_be_encoded() {
    let bad = Frame::Simple("a\r\nb".to_string());
    assert!(encode_frame(&bad).is_none());
}

#[test]
fn invalid_utf8_key_is_a_protocol_error() {
    let frame = Frame::Array(vec![Frame::Bulk(b"GET".to_vec()), Frame::Bulk(vec![0xff, 0xfe])]);
    assert!(Command::from_frame(frame).is_err());
}

#[test]
fn non_array_frame_is_not_a_command() {
    assert!(Command::from_frame(Frame::Simple("GET".to_string())).is_err());
}

#[test]
fn get_arity_is_exact() {
    // No key at all.
    let frame = Frame::Array(vec![Frame::Bulk(b"GET".to_vec())]);
    assert!(Command::from_frame(frame).is_err());
    // One token too many.
    let frame = Frame::Array(vec![
        Frame::Bulk(b"GET".to_vec()),
        Frame::Bulk(b"k".to_vec()),
        Frame::Bulk(b"extra".to_vec()),
    ]);
    assert!(Command::from_frame(frame).is_err());
}

#[test]
fn unknown_set_option_is_rejected() {
    let frame = Frame::Array(vec![
        Frame::Bulk(b"SET".to_vec()),
        Frame::Bulk(b"k".to_vec()),
        Frame::Bulk(b"v".to_vec()),
        Frame::Bulk(b"NX".to_vec()),
    ]);
    assert!(Command::from_frame(frame).is_err());
}

#[test]
fn zero_expiration_is_rejected() {
    let frame = Frame::Array(vec![
        Frame::Bulk(b"SET".to_vec()),
        Frame::Bulk(b"k".to_vec()),
        Frame::Bulk(b"v".to_vec()),
        Frame::Bulk(b"PX".to_vec()),
        Frame::Bulk(b"0".to_vec()),
    ]);
    assert!(Command::from_frame(frame).is_err());
}

#[test]
fn unsubscribe_outside_a_session_breaks_the_connection() {
    let mut state = State::new();
    let (frame, _) = parse_one(b"*1\r\n$11\r\nUNSUBSCRIBE\r\n");
    let cmd = Command::from_frame(frame).expect("unsubscribe parses");
    assert!(matches!(cmd.apply_to_state(&mut state, 0), Applied::InvalidUnsubscribe));
}

#[test]
fn get_name_reports_each_command() {
    let (frame, _) = parse_one(b"*2\r\n$3\r\nGET\r\n$1\r\nk\r\n");
    assert_eq!(Command::from_frame(frame).unwrap().get_name(), "get");
    let (frame, _) = parse_one(b"*1\r\n$4\r\nPING\r\n");
    assert_eq!(Command::from_frame(frame).unwrap().get_name(), "ping");
    let (frame, _) = parse_one(b"*1\r\n$5\r\nNOPE!\r\n");
    assert_eq!(Command::from_frame(frame).unwrap().get_name(), "nope!");
}

#[test]
fn subscribe_command_starts_a_session() {
    let (frame, _) = parse_one(b"*3\r\n$9\r\nSUBSCRIBE\r\n$3\r\nfoo\r\n$3\r\nbar\r\n");
    let cmd = Command::from_frame(frame).expect("subscribe parses");
    let mut state = State::new();
    match cmd.apply_to_state(&mut state, 0) {
        Applied::StartSubscription { channels } => {
            assert_eq!(channels, vec!["foo".to_string(), "bar".to_string()]);
        },
        other => panic!("expected a subscription, got: {}", discr(&other)),
    }
}

#[test]
fn subscribe_with_no_channel_is_an_error() {
    let (frame, _) = parse_one(b"*1\r\n$9\r\nSUBSCRIBE\r\n");
    assert!(Command::from_frame(frame).is_err());
}

#[test]
fn subscribe_confirmation_frame_matches_the_wire() {
    let frame = mini_redis::cmd::make_subscribe_frame("foo", 1);
    assert_eq!(encode_frame(&frame).unwrap(), b"*3\r\n$9\r\nsubscribe\r\n$3\r\nfoo\r\n:1\r\n");
}

#[test]
fn message_frame_matches_the_wire() {
    let frame = mini_redis::cmd::make_message_frame("foo", b"bar".to_vec());
    assert_eq!(encode_frame(&frame).unwrap(), b"*3\r\n$7\r\nmessage\r\n$3\r\nfoo\r\n$3\r\nbar\r\n");
}

#[test]
fn unsubscribe_confirmation_frame_matches_the_wire() {
    let frame = mini_redis::cmd::make_unsubscribe_frame("bar", 0);
    assert_eq!(encode_frame(&frame).unwrap(), b"*3\r\n$11\r\nunsubscribe\r\n$3\r\nbar\r\n:0\r\n");
}

#[test]
fn simple_string_tokens_name_commands_too() {
    let mut state = State::new();
    let out = reply_bytes(&mut state, b"*3\r\n+SET\r\n+k\r\n+v\r\n", 0);
    assert_eq!(out, b"+OK\r\n");
    let out = reply_bytes(&mut state, b"*2\r\n+GET\r\n+k\r\n", 1);
    assert_eq!(out, b"$1\r\nv\r\n");
}

#[test]
fn accept_backoff_doubles_then_gives_up() {
    assert_eq!(mini_redis::accept_backoff(1), Some((1, 2)));
    assert_eq!(mini_redis::accept_backoff(64), Some((64, 128)));
    assert_eq!(mini_redis::accept_backoff(128), None);
}

use mini_redis::handshake::HandshakeState;
use mini_redis::handshake::handshake_init;
use mini_redis::handshake::handshake_step;
use mini_redis::parser::Value;

#[test]
fn handshake_opens_with_ping() {
    let (state, probe) = handshake_init();
    assert_eq!(state, HandshakeState::AwaitingPong);
    assert_eq!(probe.serialize(), "*1\r\n$4\r\nPING\r\n");
}

#[test]
fn pong_reply_advances_and_sends_three_messages() {
    let (state, msgs) = handshake_step(
        HandshakeState::AwaitingPong,
        Value::SimpleString("PONG".to_string()),
        6380,
    );
    assert_eq!(state, HandshakeState::AwaitingFullResync);
    assert_eq!(msgs.len(), 3);
    let mut it = msgs.into_iter();
    assert_eq!(
        it.next().unwrap().serialize(),
        "*3\r\n$8\r\nREPLCONF\r\n$14\r\nlistening-port\r\n$4\r\n6380\r\n"
    );
    assert_eq!(
        it.next().unwrap().serialize(),
        "*3\r\n$8\r\nREPLCONF\r\n$4\r\ncapa\r\n$6\r\npsync2\r\n"
    );
    assert_eq!(
        it.next().unwrap().serialize(),
        "*3\r\n$5\r\nPSYNC\r\n$1\r\n?\r\n$2\r\n-1\r\n"
    );
}

#[test]
fn non_pong_reply_fails_the_handshake() {
    let (state, msgs) = handshake_step(
        HandshakeState::AwaitingPong,
        Value::SimpleString("NOPE".to_string()),
        6380,
    );
    assert_eq!(state, HandshakeState::Failed);
    assert!(msgs.is_empty());
}

#[test]
fn resync_reply_is_discarded_and_completes() {
    let (state, msgs) = handshake_step(
        HandshakeState::AwaitingFullResync,
        Value::SimpleString("FULLRESYNC 8371b4fb1155b71f4a04d3e1bc3e18c4a990aeeb 0".to_string()),
        6380,
    );
    assert_eq!(state, HandshakeState::Synchronized);
    assert!(msgs.is_empty());
}

#[test]
fn settled_states_do_not_move() {
    let (state, msgs) = handshake_step(
        HandshakeState::Synchronized,
        Value::SimpleString("PONG".to_string()),
        6380,
    );
    assert_eq!(state, HandshakeState::Synchronized);
    assert!(msgs.is_empty());
}

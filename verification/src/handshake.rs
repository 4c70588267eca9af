//! The replica-side handshake: the fixed sequence of codec round-trips a
//! replica performs once at startup against its configured master. The
//! decisions live here as a pure step function from state and decoded
//! reply to next state and messages to send; the surrounding process
//! performs the sends and reads and feeds the replies back.

use vstd::prelude::*;
use vstd::string::StrSliceExecFns;

use vstd::utf8::encode_utf8;

use crate::parser::Value;
use crate::parser::Msg;
use crate::parser::models_of;
use crate::parser::lemma_models_of;
use crate::commands::command_of;
use crate::commands::parse_command;
use crate::text::dec_of;
use crate::text::push_u64_dec;
use crate::text::str_eq;

verus! {

/// The states of the handshake. `Failed` records a fatal handshake
/// failure: the connection to the master is abandoned and not retried.
#[derive(Clone, Copy, Debug, PartialEq, Eq, Structural)]
pub enum HandshakeState {
    Disconnected,
    AwaitingPong,
    AwaitingFullResync,
    Synchronized,
    Failed,
}

/// A bulk payload carrying the given text on the wire.
pub open spec fn bulk_of(t: Seq<char>) -> Msg {
    Msg::Bulk(encode_utf8(t))
}

/// The liveness probe sent first: `PING` as a one-element sequence.
pub open spec fn ping_msg() -> Msg {
    Msg::Array(seq![bulk_of("PING"@)])
}

/// The replica's port announcement.
pub open spec fn replconf_port_msg(port: u16) -> Msg {
    Msg::Array(
        seq![
            bulk_of("REPLCONF"@),
            bulk_of("listening-port"@),
            bulk_of(dec_of(port as nat)),
        ],
    )
}

/// The replica's capability announcement.
pub open spec fn replconf_capa_msg() -> Msg {
    Msg::Array(seq![bulk_of("REPLCONF"@), bulk_of("capa"@), bulk_of("psync2"@)])
}

/// The synchronization request with placeholder id and offset.
pub open spec fn psync_msg() -> Msg {
    Msg::Array(seq![bulk_of("PSYNC"@), bulk_of("?"@), bulk_of("-1"@)])
}

/// The three messages sent, in order and without waiting for replies,
/// once the master has answered the probe with a pong.
pub open spec fn handshake_sends(port: u16) -> Seq<Msg> {
    seq![replconf_port_msg(port), replconf_capa_msg(), psync_msg()]
}

/// Whether a reply reads as `pong` through the same command-parsing path
/// used for client requests.
pub open spec fn is_pong(v: Value) -> bool {
    command_of(v) matches Some((name, args)) && name == "pong"@
}

fn bulk(text: &str) -> (r: Value)
    ensures
        r@ == bulk_of(text@),
{
    Value::BulkString(text.to_owned())
}

fn msg3(a: Value, b: Value, c: Value) -> (r: Value)
    ensures
        r@ == Msg::Array(seq![a@, b@, c@]),
{
    let ghost ma = a@;
    let ghost mb = b@;
    let ghost mc = c@;
    let mut items: Vec<Value> = Vec::new();
    items.push(a);
    items.push(b);
    items.push(c);
    proof {
        lemma_models_of(items@);
        assert(models_of(items@) =~= seq![ma, mb, mc]);
    }
    Value::Array(items)
}

/// Opens the handshake: the state that awaits the master's answer to the
/// probe, and the probe message to send.
pub fn handshake_init() -> (r: (HandshakeState, Value))
    ensures
        r.0 == HandshakeState::AwaitingPong,
        r.1@ == ping_msg(),
{
    let mut items: Vec<Value> = Vec::new();
    items.push(bulk("PING"));
    proof {
        lemma_models_of(items@);
        assert(models_of(items@) =~= seq![bulk_of("PING"@)]);
    }
    (HandshakeState::AwaitingPong, Value::Array(items))
}

/// Advances the handshake on one decoded reply from the master. A pong
/// while awaiting one yields the port, capability and synchronization
/// messages to send, in order; any other reply there is a fatal failure.
/// The reply read while awaiting full resynchronization is discarded
/// without being inspected, and the handshake is complete.
pub fn handshake_step(state: HandshakeState, reply: Value, port: u16) -> (r: (
    HandshakeState,
    Vec<Value>,
))
    ensures
        state == HandshakeState::AwaitingPong && is_pong(reply) ==> r.0
            == HandshakeState::AwaitingFullResync && models_of(r.1@) == handshake_sends(port),
        state == HandshakeState::AwaitingPong && !is_pong(reply) ==> r.0
            == HandshakeState::Failed && r.1@.len() == 0,
        state == HandshakeState::AwaitingFullResync ==> r.0 == HandshakeState::Synchronized
            && r.1@.len() == 0,
        state == HandshakeState::Disconnected || state == HandshakeState::Synchronized || state
            == HandshakeState::Failed ==> r.0 == state && r.1@.len() == 0,
{
    match state {
        HandshakeState::AwaitingPong => {
            match parse_command(reply) {
                Ok((name, _args)) => {
                    if str_eq(name.as_str(), "pong") {
                        let mut out = String::new();
                        push_u64_dec(&mut out, port as u64);
                        let m1 = msg3(bulk("REPLCONF"), bulk("listening-port"), Value::BulkString(out));
                        let m2 = msg3(bulk("REPLCONF"), bulk("capa"), bulk("psync2"));
                        let m3 = msg3(bulk("PSYNC"), bulk("?"), bulk("-1"));
                        let ghost g1 = m1@;
                        let ghost g2 = m2@;
                        let ghost g3 = m3@;
                        let mut msgs: Vec<Value> = Vec::new();
                        msgs.push(m1);
                        msgs.push(m2);
                        msgs.push(m3);
                        proof {
                            lemma_models_of(msgs@);
                            assert(models_of(msgs@) =~= seq![g1, g2, g3]);
                        }
                        (HandshakeState::AwaitingFullResync, msgs)
                    } else {
                        (HandshakeState::Failed, Vec::new())
                    }
                },
                Err(_e) => (HandshakeState::Failed, Vec::new()),
            }
        },
        HandshakeState::AwaitingFullResync => (HandshakeState::Synchronized, Vec::new()),
        _ => (state, Vec::new()),
    }
}

} // verus!

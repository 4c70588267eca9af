//! The command dispatcher: interprets a decoded message as a command name
//! plus arguments and produces the reply message, mutating the store as
//! needed. Command names are normalized to ASCII lower case once, so all
//! commands match case-insensitively.

use vstd::prelude::*;
use vstd::string::StrSliceExecFns;
use vstd::string::StringExecFns;
use vstd::utf8::encode_utf8;

use crate::parser::Value;
use crate::database::Database;
use crate::database::set_applied;
use crate::database::read_result;
use crate::text::dec_of;
use crate::text::lower_seq;
use crate::text::to_lower;
use crate::text::parse_u128;
use crate::text::parsed_u128;
use crate::text::push_u64_dec;
use crate::text::str_eq;

verus! {

/// How dispatching can fail: a command name outside the table, or
/// arguments whose shape or content the command rejects.
#[derive(Clone, Copy, Debug, PartialEq, Eq, Structural)]
pub enum CommandError {
    Unsupported,
    Invalid,
}

/// The command reading of a message: a sequence whose first element is a
/// bulk payload names that command, with the remaining elements as
/// arguments; a bare status line is a command with no arguments (as a
/// master's reply to `PING` is). The name is lower-cased.
pub open spec fn command_of(v: Value) -> Option<(Seq<char>, Seq<Value>)> {
    match v {
        Value::Array(items) => {
            if items@.len() == 0 {
                None
            } else {
                match items@[0] {
                    Value::BulkString(name) => Some((lower_seq(name@), items@.drop_first())),
                    _ => None,
                }
            }
        },
        Value::SimpleString(s) => Some((lower_seq(s@), Seq::empty())),
        _ => None,
    }
}

/// Whether `v` is a status reply carrying exactly the text `t`.
pub open spec fn is_simple(v: Value, t: Seq<char>) -> bool {
    match v {
        Value::SimpleString(s) => s@ == t,
        _ => false,
    }
}

/// Whether `v` is the null bulk (absence) reply.
pub open spec fn is_null_reply(v: Value) -> bool {
    match v {
        Value::NullBulkString() => true,
        _ => false,
    }
}

/// Whether `v` is a verbatim text block carrying exactly the text `t`.
pub open spec fn is_text(v: Value, t: Seq<char>) -> bool {
    match v {
        Value::Text(s) => s@ == t,
        _ => false,
    }
}

/// The text a read reply carries: the payload of a status reply, and
/// nothing for the null bulk (absence) reply.
pub open spec fn simple_opt(v: Value) -> Option<Seq<char>> {
    match v {
        Value::SimpleString(s) => Some(s@),
        _ => None,
    }
}

/// Extracts the bulk payload of a message, the only argument form a
/// command accepts where it expects text.
pub fn unpack_string(value: Value) -> (r: Result<String, CommandError>)
    ensures
        match value {
            Value::BulkString(s) => r matches Ok(x) && x@ == s@,
            _ => r == Err::<String, CommandError>(CommandError::Invalid),
        },
{
    match value {
        Value::BulkString(s) => Ok(s),
        _ => Err(CommandError::Invalid),
    }
}

/// Splits a decoded message into a lower-cased command name and its
/// argument list, exactly as `command_of` prescribes.
pub fn parse_command(buffer: Value) -> (r: Result<(String, Vec<Value>), CommandError>)
    ensures
        match command_of(buffer) {
            Some((name, args)) => r matches Ok((n, a)) && n@ == name && a@ == args,
            None => r == Err::<(String, Vec<Value>), CommandError>(CommandError::Invalid),
        },
{
    match buffer {
        Value::Array(v) => {
            if v.len() == 0 {
                return Err(CommandError::Invalid);
            }
            let ghost v0 = v@;
            let mut v = v;
            let first = v.remove(0);
            proof {
                assert(v@ =~= v0.drop_first());
            }
            match unpack_string(first) {
                Ok(s) => {
                    let name = to_lower(s.as_str());
                    Ok((name, v))
                },
                Err(e) => Err(e),
            }
        },
        Value::SimpleString(s) => {
            let name = to_lower(s.as_str());
            Ok((name, Vec::new()))
        },
        _ => Err(CommandError::Invalid),
    }
}

/// Whether a lower-cased name is in the command table.
pub open spec fn known_command(name: Seq<char>) -> bool {
    ||| name == "ping"@
    ||| name == "echo"@
    ||| name == "set"@
    ||| name == "get"@
    ||| name == "info"@
    ||| name == "replconf"@
    ||| name == "psync"@
}

/// The key and value texts of a write command's first two arguments, or
/// `None` where they are missing or not bulk payloads.
pub open spec fn set_args(args: Seq<Value>) -> Option<(Seq<char>, Seq<char>)> {
    if args.len() >= 2 {
        match (args[0], args[1]) {
            (Value::BulkString(k), Value::BulkString(v)) => Some((k@, v@)),
            _ => None,
        }
    } else {
        None
    }
}

/// The TTL of a write command: with exactly four arguments whose third is
/// a bulk payload reading `px` case-insensitively and whose fourth is a
/// bulk payload, that fourth argument parsed as milliseconds (`None`
/// where it does not parse); in every other shape, zero (never expire).
pub open spec fn set_ttl(args: Seq<Value>) -> Option<int> {
    if args.len() == 4 {
        match (args[2], args[3]) {
            (Value::BulkString(flag), Value::BulkString(t)) => if lower_seq(flag@) == "px"@ {
                parsed_u128(t@)
            } else {
                Some(0)
            },
            (Value::BulkString(flag), _) => Some(0),
            _ => Some(0),
        }
    } else {
        Some(0)
    }
}

/// The key text of a read command's first argument.
pub open spec fn get_key(args: Seq<Value>) -> Option<Seq<char>> {
    if args.len() >= 1 {
        match args[0] {
            Value::BulkString(k) => Some(k@),
            _ => None,
        }
    } else {
        None
    }
}

/// The informational reply body for a node of the given role.
pub open spec fn info_body(master: bool) -> Seq<char> {
    if master {
        "# Replication"@ + seq!['\n'] + "role:master"@ + seq!['\n']
            + "master_replid:8371b4fb1155b71f4a04d3e1bc3e18c4a990aeeb"@ + seq!['\n']
            + "master_repl_offset:0"@
    } else {
        "role:slave"@ + seq!['\n'] + "master_replid:8371b4fb1155b71f4a04d3e1bc3e18c4a990aeeb"@
            + seq!['\n'] + "master_repl_offset:0"@
    }
}

/// The informational body framed as a bulk-style block: a `$`, the
/// decimal count of the body's UTF-8 bytes, CR LF, the body, CR LF.
pub open spec fn framed_info(body: Seq<char>) -> Seq<char> {
    seq!['$'] + dec_of(encode_utf8(body).len()) + seq!['\r', '\n'] + body + seq!['\r', '\n']
}

/// The fixed reply to a synchronization request.
pub open spec fn psync_reply() -> Seq<char> {
    "FULLRESYNC 8371b4fb1155b71f4a04d3e1bc3e18c4a990aeeb 0"@
}

/// Dispatches one command against the store and produces the reply
/// message. The command name is expected lower-cased, as `parse_command`
/// hands it out; a name outside the table is refused as unsupported, and
/// malformed arguments are refused as invalid, leaving the store
/// unchanged either way.
#[verifier::rlimit(80)]
pub fn dispatch(command: &String, args: Vec<Value>, db: &mut Database) -> (r: Result<
    Value,
    CommandError,
>)
    ensures
        final(db).spec_master_host() == old(db).spec_master_host(),
        final(db).spec_port() == old(db).spec_port(),
        command@ != "set"@ ==> final(db)@ == old(db)@,
        command@ == "ping"@ ==> (r matches Ok(v) && is_simple(v, "PONG"@)),
        command@ == "echo"@ && args@.len() >= 1 ==> (r matches Ok(v) && v@ == args@[0]@),
        command@ == "echo"@ && args@.len() == 0 ==> r == Err::<Value, CommandError>(
            CommandError::Invalid,
        ),
        command@ == "set"@ && set_args(args@) is None ==> r == Err::<Value, CommandError>(
            CommandError::Invalid,
        ) && final(db)@ == old(db)@,
        command@ == "set"@ && set_args(args@) is Some && set_ttl(args@) is None ==> r == Err::<
            Value,
            CommandError,
        >(CommandError::Invalid) && final(db)@ == old(db)@,
        command@ == "set"@ ==> (set_args(args@) matches Some((k, v)) ==> (set_ttl(args@)
            matches Some(ttl) ==> {
            &&& set_applied(old(db)@, final(db)@, k, v, ttl as u128)
            &&& final(db)@.contains_key(k)
            &&& final(db)@[k].value == v
            &&& (ttl == 0 ==> final(db)@[k].expiration == 0)
            &&& (old(db)@.contains_key(k) ==> (r matches Ok(rv) && is_null_reply(rv)))
            &&& (!old(db)@.contains_key(k) ==> (r matches Ok(rv) && is_simple(rv, "OK"@)))
        })),
        command@ == "get"@ && get_key(args@) is None ==> r == Err::<Value, CommandError>(
            CommandError::Invalid,
        ),
        command@ == "get"@ ==> (get_key(args@) matches Some(k) ==> {
            &&& r matches Ok(rv) && (simple_opt(rv) is Some || is_null_reply(rv)) && read_result(
                old(db)@,
                k,
                simple_opt(rv),
            )
            &&& (!old(db)@.contains_key(k) ==> (r matches Ok(rv) && is_null_reply(rv)))
            &&& (old(db)@.contains_key(k) && old(db)@[k].expiration == 0 ==> (r matches Ok(rv)
                && is_simple(rv, old(db)@[k].value)))
        }),
        command@ == "info"@ ==> (r matches Ok(v) && is_text(
            v,
            framed_info(info_body(old(db).is_master())),
        )),
        command@ == "replconf"@ ==> (r matches Ok(v) && is_simple(v, "OK"@)),
        command@ == "psync"@ ==> (r matches Ok(v) && is_simple(v, psync_reply())),
        !known_command(command@) ==> r == Err::<Value, CommandError>(CommandError::Unsupported),
{
    proof {
        reveal_strlit("ping");
        reveal_strlit("echo");
        reveal_strlit("set");
        reveal_strlit("get");
        reveal_strlit("info");
        reveal_strlit("replconf");
        reveal_strlit("psync");
        assert("ping"@.len() == 4);
        assert("echo"@.len() == 4);
        assert("set"@.len() == 3);
        assert("get"@.len() == 3);
        assert("info"@.len() == 4);
        assert("replconf"@.len() == 8);
        assert("psync"@.len() == 5);
        assert("ping"@[0] != "echo"@[0]);
        assert("ping"@[0] != "info"@[0]);
        assert("echo"@[0] != "info"@[0]);
        assert("set"@[0] != "get"@[0]);
    }
    let c = command.as_str();
    if str_eq(c, "ping") {
        Ok(Value::SimpleString("PONG".to_owned()))
    } else if str_eq(c, "echo") {
        echo_command(args)
    } else if str_eq(c, "set") {
        set_command(args, db)
    } else if str_eq(c, "get") {
        get_command(args, db)
    } else if str_eq(c, "info") {
        info_command(db)
    } else if str_eq(c, "replconf") {
        Ok(Value::SimpleString("OK".to_owned()))
    } else if str_eq(c, "psync") {
        Ok(Value::SimpleString("FULLRESYNC 8371b4fb1155b71f4a04d3e1bc3e18c4a990aeeb 0".to_owned()))
    } else {
        Err(CommandError::Unsupported)
    }
}

/// Echoes the first argument back unchanged.
fn echo_command(args: Vec<Value>) -> (r: Result<Value, CommandError>)
    ensures
        args@.len() >= 1 ==> (r matches Ok(v) && v@ == args@[0]@),
        args@.len() == 0 ==> r == Err::<Value, CommandError>(CommandError::Invalid),
{
    if args.len() == 0 {
        return Err(CommandError::Invalid);
    }
    let mut args = args;
    let first = args.remove(0);
    Ok(first)
}

/// Performs the write command: installs the value under the key with the
/// TTL the arguments name, and signals a fresh insert with `OK` but an
/// overwrite with a null bulk reply.
fn set_command(args: Vec<Value>, db: &mut Database) -> (r: Result<Value, CommandError>)
    ensures
        final(db).spec_master_host() == old(db).spec_master_host(),
        final(db).spec_port() == old(db).spec_port(),
        set_args(args@) is None ==> r == Err::<Value, CommandError>(CommandError::Invalid)
            && final(db)@ == old(db)@,
        set_args(args@) is Some && set_ttl(args@) is None ==> r == Err::<Value, CommandError>(
            CommandError::Invalid,
        ) && final(db)@ == old(db)@,
        set_args(args@) matches Some((k, v)) ==> (set_ttl(args@) matches Some(ttl) ==> {
            &&& set_applied(old(db)@, final(db)@, k, v, ttl as u128)
            &&& final(db)@.contains_key(k)
            &&& final(db)@[k].value == v
            &&& (ttl == 0 ==> final(db)@[k].expiration == 0)
            &&& (old(db)@.contains_key(k) ==> (r matches Ok(rv) && is_null_reply(rv)))
            &&& (!old(db)@.contains_key(k) ==> (r matches Ok(rv) && is_simple(rv, "OK"@)))
        }),
{
    let ghost args0 = args@;
    if args.len() < 2 {
        return Err(CommandError::Invalid);
    }
    let mut args = args;
    let first = args.remove(0);
    let second = args.remove(0);
    proof {
        assert(args@ =~= args0.drop_first().drop_first());
        assert(forall|j: int| 0 <= j < args@.len() ==> args@[j] == #[trigger] args0[j + 2]);
    }
    let key = match first {
        Value::BulkString(k) => k,
        _ => {
            return Err(CommandError::Invalid);
        },
    };
    let value = match second {
        Value::BulkString(v) => v,
        _ => {
            return Err(CommandError::Invalid);
        },
    };
    let mut ttl: u128 = 0;
    if args.len() == 2 {
        match &args[0] {
            Value::BulkString(flag) => {
                let lf = to_lower(flag.as_str());
                if str_eq(lf.as_str(), "px") {
                    match &args[1] {
                        Value::BulkString(t) => {
                            match parse_u128(t.as_str()) {
                                Some(x) => {
                                    ttl = x;
                                },
                                None => {
                                    return Err(CommandError::Invalid);
                                },
                            }
                        },
                        _ => {},
                    }
                }
            },
            _ => {},
        }
    }
    let prev = db.set(&key, &value, ttl);
    proof {
        assert(set_args(args0) == Some((key@, value@)));
        assert(set_ttl(args0) == Some(ttl as int));
        assert(set_applied(old(db)@, db@, key@, value@, ttl));
    }
    match prev {
        None => Ok(Value::SimpleString("OK".to_owned())),
        Some(_r) => Ok(Value::NullBulkString()),
    }
}

/// Performs the read command: the stored value as a status reply if the
/// key is present and alive, a null bulk reply otherwise.
fn get_command(args: Vec<Value>, db: &Database) -> (r: Result<Value, CommandError>)
    ensures
        get_key(args@) is None ==> r == Err::<Value, CommandError>(CommandError::Invalid),
        get_key(args@) matches Some(k) ==> {
            &&& r matches Ok(rv) && (simple_opt(rv) is Some || is_null_reply(rv)) && read_result(
                db@,
                k,
                simple_opt(rv),
            )
            &&& (!db@.contains_key(k) ==> (r matches Ok(rv) && is_null_reply(rv)))
            &&& (db@.contains_key(k) && db@[k].expiration == 0 ==> (r matches Ok(rv) && is_simple(
                rv,
                db@[k].value,
            )))
        },
{
    let ghost args0 = args@;
    if args.len() == 0 {
        return Err(CommandError::Invalid);
    }
    let mut args = args;
    let first = args.remove(0);
    let key = match first {
        Value::BulkString(k) => k,
        _ => {
            return Err(CommandError::Invalid);
        },
    };
    proof {
        assert(get_key(args0) == Some(key@));
    }
    match db.get(&key) {
        Some(v) => Ok(Value::SimpleString(v.clone())),
        None => Ok(Value::NullBulkString()),
    }
}

/// Builds the informational reply: the role-dependent body framed as a
/// verbatim text block whose declared length is the body's byte length.
fn info_command(db: &Database) -> (r: Result<Value, CommandError>)
    ensures
        r matches Ok(v) && is_text(v, framed_info(info_body(db.is_master()))),
{
    proof {
        reveal_strlit("role:master");
        reveal_strlit("role:slave");
    }
    let mut body = String::new();
    match db.host_info() {
        Some(h) => {
            if str_eq(h.as_str(), "role:master") {
                body.append("# Replication");
                body.push('\n');
                body.append("role:master");
            } else {
                body.append("role:slave");
            }
        },
        None => {
            proof {
                assert(false);
            }
        },
    }
    body.push('\n');
    match db.repl_id() {
        Some(ri) => {
            body.append(ri.as_str());
        },
        None => {
            proof {
                assert(false);
            }
        },
    }
    body.push('\n');
    match db.repl_offset() {
        Some(ro) => {
            body.append(ro.as_str());
        },
        None => {
            proof {
                assert(false);
            }
        },
    }
    proof {
        assert(body@ =~= info_body(db.is_master()));
    }
    let byte_len = body.as_str().as_bytes().len();
    let mut framed = String::new();
    framed.push('$');
    push_u64_dec(&mut framed, byte_len as u64);
    framed.push('\r');
    framed.push('\n');
    framed.append(body.as_str());
    framed.push('\r');
    framed.push('\n');
    proof {
        assert(byte_len == encode_utf8(info_body(db.is_master())).len());
        assert(framed@ =~= framed_info(info_body(db.is_master())));
    }
    Ok(Value::Text(framed))
}

} // verus!

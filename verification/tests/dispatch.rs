use mini_redis::commands::CommandError;
use mini_redis::commands::dispatch;
use mini_redis::commands::parse_command;
use mini_redis::commands::unpack_string;
use mini_redis::database::Database;
use mini_redis::parser::Value;
use mini_redis::parser::parse_message;

#[test]
fn dispatch_ping() {
    let mut db = Database::new("".to_string(), 6379);
    let r = dispatch(&"ping".to_string(), vec![], &mut db);
    assert_eq!(r, Ok(Value::SimpleString("PONG".to_string())));
}

#[test]
fn decoded_echo_dispatches_unchanged() {
    let (v, n) = parse_message(b"*2\r\n$4\r\nECHO\r\n$3\r\nfoo\r\n", 0).unwrap();
    assert_eq!(n, 23);
    let (command, args) = parse_command(v).unwrap();
    assert_eq!(command, "echo");
    let mut db = Database::new("".to_string(), 6379);
    let r = dispatch(&command, args, &mut db);
    assert_eq!(r, Ok(Value::BulkString("foo".to_string())));
}

#[test]
fn dispatch_set_fresh_then_overwrite() {
    let mut db = Database::new("".to_string(), 6379);
    let r1 = dispatch(
        &"set".to_string(),
        vec![
            Value::BulkString("k".to_string()),
            Value::BulkString("a".to_string()),
        ],
        &mut db,
    );
    assert_eq!(r1, Ok(Value::SimpleString("OK".to_string())));
    let r2 = dispatch(
        &"set".to_string(),
        vec![
            Value::BulkString("k".to_string()),
            Value::BulkString("b".to_string()),
        ],
        &mut db,
    );
    assert_eq!(r2, Ok(Value::NullBulkString()));
    let r3 = dispatch(
        &"get".to_string(),
        vec![Value::BulkString("k".to_string())],
        &mut db,
    );
    assert_eq!(r3, Ok(Value::SimpleString("b".to_string())));
}

#[test]
fn dispatch_set_with_px_ttl() {
    let mut db = Database::new("".to_string(), 6379);
    let r = dispatch(
        &"set".to_string(),
        vec![
            Value::BulkString("k".to_string()),
            Value::BulkString("v".to_string()),
            Value::BulkString("PX".to_string()),
            Value::BulkString("600000".to_string()),
        ],
        &mut db,
    );
    assert_eq!(r, Ok(Value::SimpleString("OK".to_string())));
    let g = dispatch(
        &"get".to_string(),
        vec![Value::BulkString("k".to_string())],
        &mut db,
    );
    assert_eq!(g, Ok(Value::SimpleString("v".to_string())));
}

#[test]
fn dispatch_set_with_unparseable_ttl() {
    let mut db = Database::new("".to_string(), 6379);
    let r = dispatch(
        &"set".to_string(),
        vec![
            Value::BulkString("k".to_string()),
            Value::BulkString("v".to_string()),
            Value::BulkString("px".to_string()),
            Value::BulkString("abc".to_string()),
        ],
        &mut db,
    );
    assert_eq!(r, Err(CommandError::Invalid));
}

#[test]
fn dispatch_set_with_other_flag_never_expires() {
    let mut db = Database::new("".to_string(), 6379);
    let r = dispatch(
        &"set".to_string(),
        vec![
            Value::BulkString("k".to_string()),
            Value::BulkString("v".to_string()),
            Value::BulkString("ex".to_string()),
            Value::BulkString("1".to_string()),
        ],
        &mut db,
    );
    assert_eq!(r, Ok(Value::SimpleString("OK".to_string())));
    let g = dispatch(
        &"get".to_string(),
        vec![Value::BulkString("k".to_string())],
        &mut db,
    );
    assert_eq!(g, Ok(Value::SimpleString("v".to_string())));
}

#[test]
fn dispatch_set_missing_arguments() {
    let mut db = Database::new("".to_string(), 6379);
    let r = dispatch(
        &"set".to_string(),
        vec![Value::BulkString("k".to_string())],
        &mut db,
    );
    assert_eq!(r, Err(CommandError::Invalid));
}

#[test]
fn dispatch_get_missing_key() {
    let mut db = Database::new("".to_string(), 6379);
    let r = dispatch(
        &"get".to_string(),
        vec![Value::BulkString("nope".to_string())],
        &mut db,
    );
    assert_eq!(r, Ok(Value::NullBulkString()));
}

#[test]
fn dispatch_echo_without_argument() {
    let mut db = Database::new("".to_string(), 6379);
    let r = dispatch(&"echo".to_string(), vec![], &mut db);
    assert_eq!(r, Err(CommandError::Invalid));
}

#[test]
fn dispatch_info_as_master() {
    let mut db = Database::new("".to_string(), 6379);
    let r = dispatch(&"info".to_string(), vec![], &mut db);
    let expected = "$101\r\n# Replication\nrole:master\nmaster_replid:8371b4fb1155b71f4a04d3e1bc3e18c4a990aeeb\nmaster_repl_offset:0\r\n";
    assert_eq!(r, Ok(Value::Text(expected.to_string())));
}

#[test]
fn dispatch_info_as_replica() {
    let mut db = Database::new("localhost".to_string(), 6380);
    let r = dispatch(&"info".to_string(), vec![], &mut db);
    let expected = "$86\r\nrole:slave\nmaster_replid:8371b4fb1155b71f4a04d3e1bc3e18c4a990aeeb\nmaster_repl_offset:0\r\n";
    assert_eq!(r, Ok(Value::Text(expected.to_string())));
}

#[test]
fn dispatch_replconf() {
    let mut db = Database::new("".to_string(), 6379);
    let r = dispatch(&"replconf".to_string(), vec![], &mut db);
    assert_eq!(r, Ok(Value::SimpleString("OK".to_string())));
}

#[test]
fn dispatch_psync() {
    let mut db = Database::new("".to_string(), 6379);
    let r = dispatch(
        &"psync".to_string(),
        vec![
            Value::BulkString("?".to_string()),
            Value::BulkString("-1".to_string()),
        ],
        &mut db,
    );
    assert_eq!(
        r,
        Ok(Value::SimpleString(
            "FULLRESYNC 8371b4fb1155b71f4a04d3e1bc3e18c4a990aeeb 0".to_string()
        ))
    );
}

#[test]
fn dispatch_unknown_command() {
    let mut db = Database::new("".to_string(), 6379);
    let r = dispatch(&"flushall".to_string(), vec![], &mut db);
    assert_eq!(r, Err(CommandError::Unsupported));
}

#[test]
fn parse_command_lowercases_names() {
    let v = Value::Array(vec![
        Value::BulkString("SET".to_string()),
        Value::BulkString("K".to_string()),
    ]);
    let (command, args) = parse_command(v).unwrap();
    assert_eq!(command, "set");
    assert_eq!(args, vec![Value::BulkString("K".to_string())]);
}

#[test]
fn parse_command_of_status_line() {
    let (command, args) = parse_command(Value::SimpleString("PONG".to_string())).unwrap();
    assert_eq!(command, "pong");
    assert!(args.is_empty());
}

#[test]
fn parse_command_rejects_other_shapes() {
    assert_eq!(
        parse_command(Value::NullBulkString()),
        Err(CommandError::Invalid)
    );
    assert_eq!(
        parse_command(Value::Array(vec![])),
        Err(CommandError::Invalid)
    );
    assert_eq!(
        parse_command(Value::Array(vec![Value::NullBulkString()])),
        Err(CommandError::Invalid)
    );
}

#[test]
fn unpack_string_accepts_only_bulk() {
    assert_eq!(
        unpack_string(Value::BulkString("x".to_string())),
        Ok("x".to_string())
    );
    assert_eq!(
        unpack_string(Value::SimpleString("x".to_string())),
        Err(CommandError::Invalid)
    );
}

//! Tests of command parsing: verbs, arities, argument shapes, and errors.
use miniredis::command::{Command, CommandError, PsyncArgs, ReplconfArgs};
use miniredis::protocol::Resp;

fn bulk(s: &[u8]) -> Resp {
    Resp::Bulk(Some(s.to_vec()))
}

#[test]
fn test_parse_echo_command() {
    let input = Resp::Array(vec![bulk(b"ECHO"), bulk(b"hello")]);

    let command = Command::from_resp(input).unwrap();
    match command {
        Command::Echo(args) => assert_eq!(args, b"hello".to_vec()),
        _ => panic!("Expected Echo command"),
    }
}

#[test]
fn test_invalid_command_type() {
    let input = Resp::SimpleString(b"ECHO".to_vec());

    let result = Command::from_resp(input);
    assert!(result.is_err());
    assert_eq!(
        result.unwrap_err().message(),
        "Command Error: Invalid Packet - RESP should be an array"
    );
}

#[test]
fn test_invalid_command_argument_type() {
    let input = Resp::Array(vec![bulk(b"ECHO"), Resp::Integer(42)]);

    let result = Command::from_resp(input);
    assert!(result.is_err());
    assert_eq!(
        result.unwrap_err().message(),
        "Command Error: Invalid Arguments - All arguments must be bulk strings"
    );
}

#[test]
fn verbs_are_case_insensitive() {
    let cmd = Command::from_resp(Resp::Array(vec![bulk(b"ping")])).unwrap();
    assert!(matches!(cmd, Command::Ping));
    let cmd = Command::from_resp(Resp::Array(vec![bulk(b"get"), bulk(b"k")])).unwrap();
    assert!(matches!(cmd, Command::Get(_)));
}

#[test]
fn unknown_verb_is_invalid_command() {
    let result = Command::from_resp(Resp::Array(vec![bulk(b"FLUSHALL")]));
    assert!(matches!(
        result.unwrap_err(),
        CommandError::InvalidCommand(_)
    ));
}

#[test]
fn ping_rejects_arguments() {
    let result = Command::from_resp(Resp::Array(vec![bulk(b"PING"), bulk(b"x")]));
    assert!(matches!(
        result.unwrap_err(),
        CommandError::InvalidArguments(_)
    ));
}

#[test]
fn set_without_ttl() {
    let cmd = Command::from_resp(Resp::Array(vec![bulk(b"SET"), bulk(b"foo"), bulk(b"bar")]))
        .unwrap();
    match cmd {
        Command::SetValue(k, v, ttl) => {
            assert_eq!(k, b"foo".to_vec());
            assert_eq!(v, b"bar".to_vec());
            assert_eq!(ttl, None);
        }
        _ => panic!("Expected SetValue command"),
    }
}

#[test]
fn set_with_px_ttl() {
    let cmd = Command::from_resp(Resp::Array(vec![
        bulk(b"SET"),
        bulk(b"foo"),
        bulk(b"bar"),
        bulk(b"px"),
        bulk(b"100000"),
    ]))
    .unwrap();
    match cmd {
        Command::SetValue(_, _, ttl) => assert_eq!(ttl, Some(100000)),
        _ => panic!("Expected SetValue command"),
    }
}

#[test]
fn set_with_bad_millis_is_invalid() {
    let result = Command::from_resp(Resp::Array(vec![
        bulk(b"SET"),
        bulk(b"foo"),
        bulk(b"bar"),
        bulk(b"PX"),
        bulk(b"ten"),
    ]));
    assert_eq!(
        result.unwrap_err().message(),
        "Command Error: Invalid Arguments - Invalid millisecond value"
    );
}

#[test]
fn set_with_unknown_option_is_invalid() {
    let result = Command::from_resp(Resp::Array(vec![
        bulk(b"SET"),
        bulk(b"foo"),
        bulk(b"bar"),
        bulk(b"EX"),
        bulk(b"10"),
    ]));
    assert!(matches!(
        result.unwrap_err(),
        CommandError::InvalidArguments(_)
    ));
}

#[test]
fn info_requires_replication_category() {
    let cmd =
        Command::from_resp(Resp::Array(vec![bulk(b"INFO"), bulk(b"replication")])).unwrap();
    match cmd {
        Command::Info(Some(c)) => assert_eq!(c, b"replication".to_vec()),
        _ => panic!("Expected Info command"),
    }
    let result = Command::from_resp(Resp::Array(vec![bulk(b"INFO"), bulk(b"keyspace")]));
    assert!(matches!(
        result.unwrap_err(),
        CommandError::InvalidArguments(_)
    ));
}

#[test]
fn replconf_listening_port_short_circuits() {
    let cmd = Command::from_resp(Resp::Array(vec![
        bulk(b"REPLCONF"),
        bulk(b"listening-port"),
        bulk(b"6380"),
        bulk(b"capa"),
        bulk(b"psync2"),
    ]))
    .unwrap();
    match cmd {
        Command::Replconf(ReplconfArgs::Port(p)) => assert_eq!(p, b"6380".to_vec()),
        _ => panic!("Expected Replconf listening-port"),
    }
}

#[test]
fn replconf_duplicate_capa_is_deduplicated() {
    let cmd = Command::from_resp(Resp::Array(vec![
        bulk(b"REPLCONF"),
        bulk(b"capa"),
        bulk(b"psync2"),
        bulk(b"capa"),
        bulk(b"psync2"),
    ]))
    .unwrap();
    match cmd {
        Command::Replconf(ReplconfArgs::Capa(caps)) => {
            assert_eq!(caps.len(), 1);
            assert_eq!(caps[0], b"psync2".to_vec());
        }
        _ => panic!("Expected Replconf capa"),
    }
}

#[test]
fn replconf_distinct_capas_accumulate_in_order() {
    let cmd = Command::from_resp(Resp::Array(vec![
        bulk(b"REPLCONF"),
        bulk(b"capa"),
        bulk(b"eof"),
        bulk(b"capa"),
        bulk(b"psync2"),
    ]))
    .unwrap();
    match cmd {
        Command::Replconf(ReplconfArgs::Capa(caps)) => {
            assert_eq!(caps, vec![b"eof".to_vec(), b"psync2".to_vec()]);
        }
        _ => panic!("Expected Replconf capa"),
    }
}

#[test]
fn replconf_dangling_subverb_is_invalid() {
    let result = Command::from_resp(Resp::Array(vec![bulk(b"REPLCONF"), bulk(b"capa")]));
    assert!(matches!(
        result.unwrap_err(),
        CommandError::InvalidArguments(_)
    ));
}

#[test]
fn replconf_unknown_subverb_is_invalid() {
    let result = Command::from_resp(Resp::Array(vec![
        bulk(b"REPLCONF"),
        bulk(b"getack"),
        bulk(b"*"),
    ]));
    assert!(matches!(
        result.unwrap_err(),
        CommandError::InvalidArguments(_)
    ));
}

#[test]
fn psync_initial_query() {
    let cmd =
        Command::from_resp(Resp::Array(vec![bulk(b"PSYNC"), bulk(b"?"), bulk(b"-1")])).unwrap();
    match cmd {
        Command::Psync(PsyncArgs::Question(o)) => assert_eq!(o, b"-1".to_vec()),
        _ => panic!("Expected Psync initial query"),
    }
}

#[test]
fn psync_question_with_other_offset_is_invalid() {
    let result = Command::from_resp(Resp::Array(vec![bulk(b"PSYNC"), bulk(b"?"), bulk(b"0")]));
    assert_eq!(
        result.unwrap_err().message(),
        "Command Error: Invalid Arguments - Byte offset should be -1 when querying for replid"
    );
}

#[test]
fn psync_continuation_id() {
    let cmd = Command::from_resp(Resp::Array(vec![
        bulk(b"PSYNC"),
        bulk(b"abc123"),
        bulk(b"42"),
    ]))
    .unwrap();
    match cmd {
        Command::Psync(PsyncArgs::Id(id, off)) => {
            assert_eq!(id, b"abc123".to_vec());
            assert_eq!(off, b"42".to_vec());
        }
        _ => panic!("Expected Psync continuation"),
    }
}

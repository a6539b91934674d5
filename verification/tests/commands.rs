use redis_starter_rust::command::resp::Resp;
use redis_starter_rust::command::{Command, CommandParseError};

fn bulk(s: &str) -> Resp {
    Resp::BulkString(s.to_string())
}

fn array_of(parts: &[&str]) -> Resp {
    Resp::Array(parts.iter().map(|p| bulk(p)).collect())
}

#[test]
fn parse_ping() {
    match Command::try_from(array_of(&["PING"])) {
        Ok(Command::Ping) => {}
        _ => panic!("expected Ping"),
    }
}

#[test]
fn parse_ping_case_insensitive() {
    match Command::try_from(array_of(&["PiNg"])) {
        Ok(Command::Ping) => {}
        _ => panic!("expected Ping"),
    }
}

#[test]
fn parse_echo() {
    match Command::try_from(array_of(&["echo", "hello"])) {
        Ok(Command::Echo(s)) => assert_eq!(s, "hello"),
        _ => panic!("expected Echo"),
    }
}

#[test]
fn parse_echo_missing_argument() {
    match Command::try_from(array_of(&["ECHO"])) {
        Err(CommandParseError::MissingArgument) => {}
        _ => panic!("expected MissingArgument"),
    }
}

#[test]
fn parse_echo_wrong_argument_type() {
    let v = Resp::Array(vec![bulk("ECHO"), Resp::Array(vec![])]);
    match Command::try_from(v) {
        Err(CommandParseError::ArgumentType) => {}
        _ => panic!("expected ArgumentType"),
    }
}

#[test]
fn parse_get() {
    match Command::try_from(array_of(&["GET", "k"])) {
        Ok(Command::Get(k)) => assert_eq!(k, "k"),
        _ => panic!("expected Get"),
    }
}

#[test]
fn parse_set_plain() {
    match Command::try_from(array_of(&["SET", "k", "v"])) {
        Ok(Command::SetCmd(a)) => {
            assert_eq!(a.key, "k");
            assert_eq!(a.value, "v");
            assert_eq!(a.px, None);
        }
        _ => panic!("expected SetCmd"),
    }
}

#[test]
fn parse_set_with_px() {
    match Command::try_from(array_of(&["SET", "k", "v", "PX", "100"])) {
        Ok(Command::SetCmd(a)) => {
            assert_eq!(a.key, "k");
            assert_eq!(a.value, "v");
            assert_eq!(a.px, Some(100));
        }
        _ => panic!("expected SetCmd"),
    }
}

#[test]
fn parse_set_with_unparseable_px() {
    match Command::try_from(array_of(&["SET", "k", "v", "PX", "x"])) {
        Err(CommandParseError::ArgumentType) => {}
        _ => panic!("expected ArgumentType"),
    }
}

#[test]
fn parse_set_px_missing_value() {
    match Command::try_from(array_of(&["SET", "k", "v", "PX"])) {
        Err(CommandParseError::MissingArgument) => {}
        _ => panic!("expected MissingArgument"),
    }
}

#[test]
fn parse_set_later_px_wins() {
    match Command::try_from(array_of(&["SET", "k", "v", "px", "1", "PX", "2"])) {
        Ok(Command::SetCmd(a)) => assert_eq!(a.px, Some(2)),
        _ => panic!("expected SetCmd"),
    }
}

#[test]
fn parse_set_unknown_flag() {
    match Command::try_from(array_of(&["SET", "k", "v", "EX", "10"])) {
        Err(CommandParseError::UnknownArgument) => {}
        _ => panic!("expected UnknownArgument"),
    }
}

#[test]
fn parse_config_get() {
    match Command::try_from(array_of(&["CONFIG", "GET", "dir"])) {
        Ok(Command::ConfigGet(k)) => assert_eq!(k, "dir"),
        _ => panic!("expected ConfigGet"),
    }
}

#[test]
fn parse_config_without_subcommand() {
    match Command::try_from(array_of(&["CONFIG"])) {
        Err(CommandParseError::UnknownCommandName(s)) => assert_eq!(s, "config"),
        _ => panic!("expected UnknownCommandName"),
    }
}

#[test]
fn parse_config_unknown_subcommand() {
    match Command::try_from(array_of(&["CONFIG", "Save", "dir"])) {
        Err(CommandParseError::UnknownCommandName(s)) => assert_eq!(s, "Save"),
        _ => panic!("expected UnknownCommandName"),
    }
}

#[test]
fn parse_unknown_command_keeps_text() {
    match Command::try_from(array_of(&["FLUSHALL"])) {
        Err(CommandParseError::UnknownCommandName(s)) => assert_eq!(s, "FLUSHALL"),
        _ => panic!("expected UnknownCommandName"),
    }
}

#[test]
fn parse_empty_array() {
    match Command::try_from(Resp::Array(vec![])) {
        Err(CommandParseError::EmptyRespArray) => {}
        _ => panic!("expected EmptyRespArray"),
    }
}

#[test]
fn parse_command_name_not_bulk_string() {
    let v = Resp::Array(vec![Resp::Array(vec![]), bulk("x")]);
    match Command::try_from(v) {
        Err(CommandParseError::CommandName) => {}
        _ => panic!("expected CommandName"),
    }
}

#[test]
fn parse_non_array_is_unrecognised() {
    match Command::try_from(bulk("PING")) {
        Err(CommandParseError::Unrecognised(Resp::BulkString(s))) => assert_eq!(s, "PING"),
        _ => panic!("expected Unrecognised"),
    }
}

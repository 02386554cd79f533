use redis_lite::codec::ResponseType;
use redis_lite::command::{
    plan_command, plan_for, render_config, render_get, render_info, render_keys, Command, CommandError, CommandPlan,
    ConfigField,
};
use redis_lite::config::{Config, DEFAULT_PORT};
use redis_lite::snapshot::DataType;

fn args(items: &[&str]) -> Vec<ResponseType> {
    items.iter().map(|s| ResponseType::BulkString(s.as_bytes().to_vec())).collect()
}

fn reply(plan: Result<CommandPlan, CommandError>) -> Vec<u8> {
    match plan {
        Ok(CommandPlan::Reply(bytes)) => bytes,
        _ => panic!("expected a ready reply"),
    }
}

#[test]
fn command_names_in_any_case() {
    assert_eq!(Command::from_name("EcHo"), Some(Command::Echo));
    assert_eq!(Command::from_name("KEYS"), Some(Command::Keys));
    assert_eq!(Command::from_name("set"), Some(Command::SetKey));
    assert_eq!(Command::from_name("flush"), None);
}

#[test]
fn ping_echo_and_command() {
    assert_eq!(reply(plan_command(&"PING".to_string(), &[])), b"+PONG\r\n".to_vec());
    assert_eq!(reply(plan_command(&"echo".to_string(), &args(&["hey"]))), b"$3\r\nhey\r\n".to_vec());
    assert_eq!(reply(plan_command(&"COMMAND".to_string(), &[])), b"-COMMAND not implemented\r\n".to_vec());
    assert!(matches!(plan_command(&"ECHO".to_string(), &[]), Err(CommandError::MissingArgument)));
    assert!(matches!(plan_command(&"NOPE".to_string(), &[]), Err(CommandError::InvalidCommand(_))));
}

#[test]
fn set_with_expiry_options() {
    match plan_command(&"SET".to_string(), &args(&["k", "v", "px", "100"])) {
        Ok(CommandPlan::SetKey { key, value, ttl }) => {
            assert_eq!((key.as_str(), value.as_str(), ttl), ("k", "v", Some(100_000_000)));
        }
        _ => panic!("expected a set"),
    }
    match plan_command(&"SET".to_string(), &args(&["k", "v", "EX", "2"])) {
        Ok(CommandPlan::SetKey { ttl, .. }) => assert_eq!(ttl, Some(2_000_000_000)),
        _ => panic!("expected a set"),
    }
    match plan_command(&"SET".to_string(), &args(&["k", "v"])) {
        Ok(CommandPlan::SetKey { ttl, .. }) => assert_eq!(ttl, None),
        _ => panic!("expected a set"),
    }
    assert!(matches!(plan_command(&"SET".to_string(), &args(&["k", "v", "PX", "soon"])), Err(CommandError::InvalidNumber(_))));
    assert_eq!(reply(plan_command(&"SET".to_string(), &args(&["k"]))), b"-Failed to set\r\n".to_vec());
}

#[test]
fn get_select_keys_config_info() {
    assert!(matches!(plan_command(&"GET".to_string(), &args(&["k"])), Ok(CommandPlan::GetKey(k)) if k == "k"));
    assert_eq!(reply(plan_command(&"GET".to_string(), &[])), b"$-1\r\n".to_vec());
    assert!(matches!(plan_command(&"SELECT".to_string(), &args(&["3"])), Ok(CommandPlan::Select(3))));
    assert!(matches!(plan_command(&"SELECT".to_string(), &args(&["x"])), Err(CommandError::InvalidNumber(_))));
    assert!(matches!(plan_command(&"KEYS".to_string(), &args(&["*"])), Ok(CommandPlan::ListKeys)));
    assert_eq!(reply(plan_command(&"KEYS".to_string(), &args(&["a*"]))), Vec::<u8>::new());
    match plan_command(&"CONFIG".to_string(), &args(&["get", "dir", "other", "DBFILENAME"])) {
        Ok(CommandPlan::ConfigGet(fields)) => assert_eq!(fields, vec![ConfigField::Dir, ConfigField::DbFilename]),
        _ => panic!("expected config get"),
    }
    assert!(matches!(plan_command(&"INFO".to_string(), &args(&["Replication"])), Ok(CommandPlan::Info)));
}

#[test]
fn replies_are_rendered() {
    assert_eq!(render_get(&Some(DataType::String("bar".to_string()))), b"$3\r\nbar\r\n".to_vec());
    assert_eq!(render_get(&Some(DataType::List)), b"$-1\r\n".to_vec());
    assert_eq!(render_get(&None), b"$-1\r\n".to_vec());
    assert_eq!(render_keys(&vec!["a".to_string(), "bc".to_string()]), b"*2\r\n$1\r\na\r\n$2\r\nbc\r\n".to_vec());
    let entries = vec![(ConfigField::Dir, Some("/tmp".to_string())), (ConfigField::DbFilename, None)];
    assert_eq!(render_config(&entries), b"*4\r\n$3\r\ndir\r\n$4\r\n/tmp\r\n$10\r\ndbfilename\r\n$-1\r\n".to_vec());
    assert_eq!(render_info(true), b"$25\r\n# Replication\nrole:slave\n\r\n".to_vec());
}

#[test]
fn config_defaults_and_arguments() {
    let mut config = Config::default();
    assert!(config.dir.is_none() && config.db_filename.is_none() && config.replica_of.is_none());
    assert_eq!(config.port, DEFAULT_PORT);
    assert!(config.snapshot_location().is_none());
    let r = config.apply_arguments(Some("/data".to_string()), Some("dump.rdb".to_string()), Some(7000), Some(("localhost".to_string(), "6379".to_string())));
    assert!(r.is_ok());
    assert_eq!(config.port, 7000);
    assert_eq!(config.replica_of.as_ref().map(|r| (r.host.as_str(), r.port)), Some(("localhost", 6379)));
    assert_eq!(config.snapshot_location().map(|(d, f)| (d.as_str(), f.as_str())), Some(("/data", "dump.rdb")));
    assert!(config.apply_arguments(None, None, None, Some(("h".to_string(), "70000".to_string()))).is_err());
}

#[test]
fn lowercase_names_and_known_commands() {
    assert_eq!(Command::from_lowercase(&"ping".to_string()), Some(Command::Ping));
    assert_eq!(Command::from_lowercase(&"PING".to_string()), None);
    assert_eq!(reply(plan_for(Command::Ping, &[])), b"+PONG\r\n".to_vec());
    assert_eq!(reply(plan_for(Command::Info, &args(&["memory"]))), Vec::<u8>::new());
    assert!(matches!(plan_for(Command::Get, &args(&["a", "b"])), Ok(CommandPlan::GetKey(k)) if k == "a"));
}

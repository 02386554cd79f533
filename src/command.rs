//! Requests: which command a request names, what it asks of the store and
//! the configuration, and the bytes of each reply.

use vstd::prelude::*;
use vstd::string::StringExecFns;
use vstd::utf8::encode_utf8;
use crate::codec::{
    crlf, encode, write_bulk_string, write_nil_bulk_string, write_resp, write_simple_error,
    write_simple_string, Frame, ResponseType,
};
use crate::decimal::{decimal_digits, int_text_value, parse_int, push_decimal};
use crate::snapshot::DataType;
use crate::text::text_of;

verus! {

/// The text that `str::to_lowercase` makes of `s`.
pub uninterp spec fn lower_of(s: Seq<char>) -> Seq<char>;

/// Relies on `str::to_lowercase`: the result depends on the characters alone.
#[verifier::external_body]
fn lowercase(s: &str) -> (r: String)
    ensures
        r@ == lower_of(s@),
{
    s.to_lowercase()
}

fn is_text(s: &String, lit: &str) -> (r: bool)
    ensures
        r == (s@ == lit@),
{
    *s == <String as StringExecFns>::from_str(lit)
}

#[derive(Debug, Clone, Copy, PartialEq, Eq, Structural)]
pub enum Command {
    Echo,
    Ping,
    Command,
    Select,
    SetKey,
    Get,
    Config,
    Keys,
    Info,
}

/// The command that a lower-case name names.
pub open spec fn command_named(n: Seq<char>) -> Option<Command> {
    if n == "echo"@ {
        Some(Command::Echo)
    } else if n == "ping"@ {
        Some(Command::Ping)
    } else if n == "command"@ {
        Some(Command::Command)
    } else if n == "select"@ {
        Some(Command::Select)
    } else if n == "set"@ {
        Some(Command::SetKey)
    } else if n == "get"@ {
        Some(Command::Get)
    } else if n == "config"@ {
        Some(Command::Config)
    } else if n == "keys"@ {
        Some(Command::Keys)
    } else if n == "info"@ {
        Some(Command::Info)
    } else {
        None
    }
}

impl Command {
    /// The command that the lower-case name `n` names.
    pub fn from_lowercase(n: &String) -> (r: Option<Command>)
        ensures
            r == command_named(n@),
    {
        if is_text(n, "echo") {
            Some(Command::Echo)
        } else if is_text(n, "ping") {
            Some(Command::Ping)
        } else if is_text(n, "command") {
            Some(Command::Command)
        } else if is_text(n, "select") {
            Some(Command::Select)
        } else if is_text(n, "set") {
            Some(Command::SetKey)
        } else if is_text(n, "get") {
            Some(Command::Get)
        } else if is_text(n, "config") {
            Some(Command::Config)
        } else if is_text(n, "keys") {
            Some(Command::Keys)
        } else if is_text(n, "info") {
            Some(Command::Info)
        } else {
            None
        }
    }

    /// The command that `name` names, in any case.
    pub fn from_name(name: &str) -> (r: Option<Command>)
        ensures
            r == command_named(lower_of(name@)),
    {
        Self::from_lowercase(&lowercase(name))
    }
}


/// What the arguments of a request are, as frames.
pub open spec fn frames(args: Seq<ResponseType>) -> Seq<Frame> {
    args.map_values(|a: ResponseType| a@)
}

/// The text of argument `i`, where it is a bulk string.
pub open spec fn arg_text(args: Seq<Frame>, i: int) -> Option<Seq<char>> {
    if 0 <= i < args.len() && args[i] is Bulk {
        Some(text_of(args[i]->Bulk_0))
    } else {
        None
    }
}

/// `+text\r\n` or `-text\r\n`.
pub open spec fn simple_reply(tag: u8, text: Seq<char>) -> Seq<u8> {
    seq![tag] + encode_utf8(text) + crlf()
}

/// The nil bulk string.
pub open spec fn nil_reply() -> Seq<u8> {
    seq![36u8, 45u8, 49u8] + crlf()
}

/// `text` as a bulk string.
pub open spec fn text_reply(text: Seq<char>) -> Seq<u8> {
    encode(Frame::Bulk(encode_utf8(text)))
}

/// The time to live that the options of a `SET` give, in nanoseconds:
/// `PX` milliseconds or `EX` seconds. `Err` holds an amount that is not a
/// `u64`.
pub open spec fn ttl_of(args: Seq<Frame>) -> Result<Option<nat>, Seq<char>> {
    if args.len() >= 4 && arg_text(args, 2) is Some && arg_text(args, 3) is Some {
        let option = arg_text(args, 2)->Some_0;
        let amount = arg_text(args, 3)->Some_0;
        let n = int_text_value(encode_utf8(amount), 0, u64::MAX as int);
        if option == "PX"@ || option == "px"@ {
            match n {
                Some(v) => Ok(Some((v * 1_000_000) as nat)),
                None => Err(amount),
            }
        } else if option == "EX"@ || option == "ex"@ {
            match n {
                Some(v) => Ok(Some((v * 1_000_000_000) as nat)),
                None => Err(amount),
            }
        } else {
            Ok(None)
        }
    } else {
        Ok(None)
    }
}

#[derive(Debug, Clone, Copy, PartialEq, Eq, Structural)]
pub enum ConfigField {
    Dir,
    DbFilename,
}

/// The fields that the arguments of `CONFIG GET` name, in order; other
/// arguments are passed over.
pub open spec fn config_fields(args: Seq<Frame>) -> Seq<ConfigField>
    decreases args.len(),
{
    if args.len() == 0 {
        seq![]
    } else {
        let before = config_fields(args.drop_last());
        let t = arg_text(args, args.len() - 1);
        if t == Some("DIR"@) || t == Some("dir"@) {
            before.push(ConfigField::Dir)
        } else if t == Some("DBFILENAME"@) || t == Some("dbfilename"@) {
            before.push(ConfigField::DbFilename)
        } else {
            before
        }
    }
}

/// What a request asks for.
pub enum CommandPlan {
    /// Nothing of the store or the configuration: the reply is ready.
    Reply(Vec<u8>),
    /// Select the namespace; the reply is `+OK`.
    Select(usize),
    /// Set a key to a text; the reply is `+OK`.
    SetKey { key: String, value: String, ttl: Option<u128> },
    /// Read a key; the reply is `render_get` of what was read.
    GetKey(String),
    /// List the keys of the selected namespace; the reply is `render_keys`.
    ListKeys,
    /// Read configuration fields; the reply is `render_config`.
    ConfigGet(Vec<ConfigField>),
    /// The replication section; the reply is `render_info`.
    Info,
}

pub enum CommandError {
    InvalidCommand(String),
    MissingArgument,
    InvalidNumber(String),
}

fn arg_string(args: &[ResponseType], i: usize) -> (r: Option<String>)
    ensures
        match r {
            Some(t) => arg_text(frames(args@), i as int) == Some(t@),
            None => arg_text(frames(args@), i as int) is None,
        },
{
    if i < args.len() {
        args[i].string()
    } else {
        None
    }
}

fn parse_ttl(args: &[ResponseType]) -> (r: Result<Option<u128>, CommandError>)
    ensures
        match ttl_of(frames(args@)) {
            Ok(t) => r matches Ok(x) && t == match x { Some(v) => Some(v as nat), None => None::<nat> },
            Err(text) => r matches Err(CommandError::InvalidNumber(x)) && x@ == text,
        },
{
    if args.len() < 4 {
        return Ok(None);
    }
    let option = match arg_string(args, 2) {
        Some(o) => o,
        None => return Ok(None),
    };
    let amount = match arg_string(args, 3) {
        Some(a) => a,
        None => return Ok(None),
    };
    let scale: u128 = if is_text(&option, "PX") || is_text(&option, "px") {
        1_000_000
    } else if is_text(&option, "EX") || is_text(&option, "ex") {
        1_000_000_000
    } else {
        return Ok(None);
    };
    match parse_int(amount.as_str().as_bytes(), 0, u64::MAX as i128) {
        Some(v) => {
            assert(v * scale <= u64::MAX as int * 1_000_000_000) by (nonlinear_arith)
                requires
                    0 <= v <= u64::MAX as int,
                    scale <= 1_000_000_000,
            ;
            Ok(Some(v as u128 * scale))
        },
        None => Err(CommandError::InvalidNumber(amount)),
    }
}

fn parse_config_fields(args: &[ResponseType]) -> (r: Vec<ConfigField>)
    requires
        args@.len() >= 1,
    ensures
        r@ == config_fields(frames(args@).skip(1)),
{
    let mut fields: Vec<ConfigField> = Vec::new();
    let mut i: usize = 1;
    let ghost all = frames(args@).skip(1);
    while i < args.len()
        invariant
            1 <= i <= args@.len(),
            all == frames(args@).skip(1),
            fields@ == config_fields(all.take(i - 1)),
        decreases args.len() - i,
    {
        let ghost upto = all.take(i as int);
        assert(upto.drop_last() =~= all.take(i - 1));
        assert(arg_text(upto, upto.len() - 1) == arg_text(frames(args@), i as int));
        match arg_string(args, i) {
            Some(t) => {
                if is_text(&t, "DIR") || is_text(&t, "dir") {
                    fields.push(ConfigField::Dir);
                } else if is_text(&t, "DBFILENAME") || is_text(&t, "dbfilename") {
                    fields.push(ConfigField::DbFilename);
                }
            },
            None => {},
        }
        i = i + 1;
    }
    assert(all.take(i - 1) =~= all);
    fields
}


/// What the plan `r` for `command` with the arguments `args` is.
pub open spec fn plan_matches(command: Command, args: Seq<Frame>, r: Result<CommandPlan, CommandError>) -> bool {
    let empty = Seq::<u8>::empty();
    match command {
        Command::Echo => if args.len() == 0 {
            r matches Err(CommandError::MissingArgument)
        } else {
            match arg_text(args, 0) {
                Some(t) => r matches Ok(CommandPlan::Reply(b)) && b@ == text_reply(t),
                None => r matches Ok(CommandPlan::Reply(b)) && b@ == empty,
            }
        },
        Command::Ping => r matches Ok(CommandPlan::Reply(b)) && b@ == simple_reply(43u8, "PONG"@),
        Command::Command => r matches Ok(CommandPlan::Reply(b))
            && b@ == simple_reply(45u8, "COMMAND not implemented"@),
        Command::Select => match arg_text(args, 0) {
            Some(t) => match int_text_value(encode_utf8(t), 0, usize::MAX as int) {
                Some(id) => r matches Ok(CommandPlan::Select(d)) && d == id,
                None => r matches Err(CommandError::InvalidNumber(x)) && x@ == t,
            },
            None => r matches Ok(CommandPlan::Reply(b)) && b@ == empty,
        },
        Command::SetKey => if args.len() < 2 {
            r matches Ok(CommandPlan::Reply(b)) && b@ == simple_reply(45u8, "Failed to set"@)
        } else {
            match ttl_of(args) {
                Err(t) => r matches Err(CommandError::InvalidNumber(x)) && x@ == t,
                Ok(ttl) => if arg_text(args, 0) is Some && arg_text(args, 1) is Some {
                    r matches Ok(CommandPlan::SetKey { key, value, ttl: t }) && Some(key@) == arg_text(args, 0)
                        && Some(value@) == arg_text(args, 1) && ttl == match t {
                        Some(v) => Some(v as nat),
                        None => None::<nat>,
                    }
                } else {
                    r matches Ok(CommandPlan::Reply(b)) && b@ == simple_reply(45u8, "Failed to set"@)
                },
            }
        },
        Command::Get => match arg_text(args, 0) {
            Some(k) => r matches Ok(CommandPlan::GetKey(key)) && key@ == k,
            None => r matches Ok(CommandPlan::Reply(b)) && b@ == nil_reply(),
        },
        Command::Config => match arg_text(args, 0) {
            Some(sub) => if sub == "GET"@ || sub == "get"@ {
                r matches Ok(CommandPlan::ConfigGet(f)) && f@ == config_fields(args.skip(1))
            } else {
                r matches Ok(CommandPlan::Reply(b)) && b@ == empty
            },
            None => r matches Ok(CommandPlan::Reply(b)) && b@ == empty,
        },
        Command::Keys => if arg_text(args, 0) == Some("*"@) {
            r matches Ok(CommandPlan::ListKeys)
        } else {
            r matches Ok(CommandPlan::Reply(b)) && b@ == empty
        },
        Command::Info => match arg_text(args, 0) {
            Some(c) => if lower_of(c) == "replication"@ {
                r matches Ok(CommandPlan::Info)
            } else {
                r matches Ok(CommandPlan::Reply(b)) && b@ == empty
            },
            None => r matches Ok(CommandPlan::Reply(b)) && b@ == empty,
        },
    }
}

/// Decides what `command` with `arguments` asks for.
pub fn plan_for(command: Command, arguments: &[ResponseType]) -> (r: Result<CommandPlan, CommandError>)
    ensures
        plan_matches(command, frames(arguments@), r),
{
    let mut reply: Vec<u8> = Vec::new();
    match command {
        Command::Echo => {
            if arguments.len() == 0 {
                return Err(CommandError::MissingArgument);
            }
            if let Some(text) = arg_string(arguments, 0) {
                write_bulk_string(&mut reply, text.as_str().as_bytes());
            }
        },
        Command::Ping => {
            write_simple_string(&mut reply, "PONG".as_bytes());
        },
        Command::Command => {
            write_simple_error(&mut reply, "COMMAND not implemented".as_bytes());
        },
        Command::Select => {
            if let Some(id_text) = arg_string(arguments, 0) {
                return match parse_int(id_text.as_str().as_bytes(), 0, usize::MAX as i128) {
                    Some(id) => Ok(CommandPlan::Select(id as usize)),
                    None => Err(CommandError::InvalidNumber(id_text)),
                };
            }
        },
        Command::SetKey => {
            if arguments.len() >= 2 {
                let ttl = parse_ttl(arguments)?;
                if let Some(key) = arg_string(arguments, 0) {
                    if let Some(value) = arg_string(arguments, 1) {
                        return Ok(CommandPlan::SetKey { key, value, ttl });
                    }
                }
            }
            write_simple_error(&mut reply, "Failed to set".as_bytes());
        },
        Command::Get => {
            match arg_string(arguments, 0) {
                Some(key) => return Ok(CommandPlan::GetKey(key)),
                None => write_nil_bulk_string(&mut reply),
            }
        },
        Command::Config => {
            if let Some(sub) = arg_string(arguments, 0) {
                if is_text(&sub, "GET") || is_text(&sub, "get") {
                    return Ok(CommandPlan::ConfigGet(parse_config_fields(arguments)));
                }
            }
        },
        Command::Keys => {
            if let Some(pattern) = arg_string(arguments, 0) {
                if is_text(&pattern, "*") {
                    return Ok(CommandPlan::ListKeys);
                }
            }
        },
        Command::Info => {
            if let Some(category) = arg_string(arguments, 0) {
                let lowered = lowercase(category.as_str());
                if is_text(&lowered, "replication") {
                    return Ok(CommandPlan::Info);
                }
            }
        },
    }
    proof {
        assert(simple_reply(45u8, "Failed to set"@) == seq![45u8] + encode_utf8("Failed to set"@) + crlf());
    }
    Ok(CommandPlan::Reply(reply))
}

/// Decides what the request `name` with `arguments` asks for.
pub fn plan_command(name: &String, arguments: &[ResponseType]) -> (r: Result<CommandPlan, CommandError>)
    ensures
        match command_named(lower_of(name@)) {
            None => r matches Err(CommandError::InvalidCommand(n)) && n@ == name@,
            Some(c) => plan_matches(c, frames(arguments@), r),
        },
{
    match Command::from_name(name.as_str()) {
        Some(c) => plan_for(c, arguments),
        None => Err(CommandError::InvalidCommand(name.clone())),
    }
}


/// The reply to a read: the text of a string value, and nil for anything
/// else or for nothing.
pub fn render_get(value: &Option<DataType>) -> (r: Vec<u8>)
    ensures
        match value {
            Some(DataType::String(s)) => r@ == text_reply(s@),
            _ => r@ == nil_reply(),
        },
{
    let mut reply: Vec<u8> = Vec::new();
    match value {
        Some(DataType::String(s)) => write_bulk_string(&mut reply, s.as_str().as_bytes()),
        _ => write_nil_bulk_string(&mut reply),
    }
    reply
}

/// The keys as an array of bulk strings.
pub open spec fn keys_frame(keys: Seq<String>) -> Frame {
    Frame::Array(keys.map_values(|k: String| Frame::Bulk(encode_utf8(k@))))
}

/// The reply to a listing of keys.
pub fn render_keys(keys: &Vec<String>) -> (r: Vec<u8>)
    ensures
        r@ == encode(keys_frame(keys@)),
{
    let mut items: Vec<ResponseType> = Vec::new();
    let mut i: usize = 0;
    while i < keys.len()
        invariant
            i <= keys@.len(),
            items@.len() == i,
            items@.map_values(|e: ResponseType| e@) =~= keys@.take(i as int).map_values(|k: String| Frame::Bulk(encode_utf8(k@))),
        decreases keys.len() - i,
    {
        let ghost before = items@;
        let bytes = keys[i].as_str().as_bytes();
        let item = ResponseType::BulkString(vstd::slice::slice_to_vec(bytes));
        assert(item@ == Frame::Bulk(encode_utf8(keys@[i as int]@)));
        items.push(item);
        let ghost now_items = items@.map_values(|e: ResponseType| e@);
        let ghost now_keys = keys@.take(i + 1).map_values(|k: String| Frame::Bulk(encode_utf8(k@)));
        assert forall|j: int| 0 <= j < i + 1 implies #[trigger] now_items[j] == now_keys[j] by {
            if j < i {
                assert(items@[j] == before[j]);
                assert(before.map_values(|e: ResponseType| e@)[j] == keys@.take(i as int).map_values(|k: String| Frame::Bulk(encode_utf8(k@)))[j]);
            }
        }
        assert(items@.map_values(|e: ResponseType| e@) =~= keys@.take(i + 1).map_values(|k: String| Frame::Bulk(encode_utf8(k@))));
        i = i + 1;
    }
    assert(keys@.take(i as int) =~= keys@);
    let value = ResponseType::Array(items);
    proof {
        crate::codec::lemma_array_view(items);
    }
    let mut reply: Vec<u8> = Vec::new();
    write_resp(&mut reply, &value);
    reply
}

pub open spec fn field_name(f: ConfigField) -> Seq<char> {
    match f {
        ConfigField::Dir => "dir"@,
        ConfigField::DbFilename => "dbfilename"@,
    }
}

/// A field's name and then its value, or nil where it has none.
pub open spec fn field_reply(f: ConfigField, v: Option<Seq<char>>) -> Seq<u8> {
    text_reply(field_name(f)) + match v {
        Some(t) => text_reply(t),
        None => nil_reply(),
    }
}

pub open spec fn fields_reply(entries: Seq<(ConfigField, Option<String>)>) -> Seq<u8>
    decreases entries.len(),
{
    if entries.len() == 0 {
        seq![]
    } else {
        let e = entries.last();
        fields_reply(entries.drop_last()) + field_reply(e.0, match e.1 {
            Some(s) => Some(s@),
            None => None,
        })
    }
}

/// The reply to `CONFIG GET`: an array of each field's name and value.
pub fn render_config(entries: &Vec<(ConfigField, Option<String>)>) -> (r: Vec<u8>)
    requires
        2 * entries@.len() <= u64::MAX,
    ensures
        r@ == seq![42u8] + decimal_digits(2 * entries@.len()) + crlf() + fields_reply(entries@),
{
    let mut reply: Vec<u8> = Vec::new();
    reply.push(42u8);
    push_decimal(&mut reply, (entries.len() as u64) * 2);
    reply.push(13u8);
    reply.push(10u8);
    let ghost header = reply@;
    let mut i: usize = 0;
    assert(entries@.take(0) =~= Seq::<(ConfigField, Option<String>)>::empty());
    while i < entries.len()
        invariant
            i <= entries@.len(),
            reply@ == header + fields_reply(entries@.take(i as int)),
        decreases entries.len() - i,
    {
        let (field, value) = &entries[i];
        let name = match field {
            ConfigField::Dir => "dir",
            ConfigField::DbFilename => "dbfilename",
        };
        write_bulk_string(&mut reply, name.as_bytes());
        match value {
            Some(v) => write_bulk_string(&mut reply, v.as_str().as_bytes()),
            None => write_nil_bulk_string(&mut reply),
        }
        assert(entries@.take(i + 1).drop_last() =~= entries@.take(i as int));
        assert(reply@ =~= header + fields_reply(entries@.take(i + 1)));
        i = i + 1;
    }
    assert(entries@.take(i as int) =~= entries@);
    reply
}

/// The replication section of `INFO`.
pub open spec fn info_text(is_replica: bool) -> Seq<char> {
    if is_replica {
        "# Replication\nrole:slave\n"@
    } else {
        "# Replication\n"@ + "role:master\n"@ + "master_replid:8371b4fb1155b71f4a04d3e1bc3e18c4a990aeeb\n"@
            + "master_repl_offset:0\n"@
    }
}

/// The reply to `INFO replication`.
pub fn render_info(is_replica: bool) -> (r: Vec<u8>)
    ensures
        r@ == text_reply(info_text(is_replica)),
{
    let mut text = <String as StringExecFns>::from_str("# Replication\n");
    if is_replica {
        text.append("role:slave\n");
    } else {
        text.append("role:master\n");
        text.append("master_replid:8371b4fb1155b71f4a04d3e1bc3e18c4a990aeeb\n");
        text.append("master_repl_offset:0\n");
    }
    let mut reply: Vec<u8> = Vec::new();
    write_bulk_string(&mut reply, text.as_str().as_bytes());
    proof {
        if is_replica {
            assert(text@ == "# Replication\n"@ + "role:slave\n"@);
            reveal_strlit("# Replication\n");
            reveal_strlit("role:slave\n");
            reveal_strlit("# Replication\nrole:slave\n");
            assert(text@ =~= info_text(is_replica));
        }
    }
    reply
}

} // verus!

//! Requests as commands: recognising them in decoded arrays and carrying
//! them out against the database.

use vstd::prelude::*;
use vstd::string::*;
use vstd::utf8::*;
use bytes::Bytes;
use crate::buffer::{bytes_content, freeze_vec};
use crate::config::opt_view;
use crate::rdb::{empty_rdb, empty_rdb_bytes};
use crate::resp::{
    array_frame, array_wire, bulk_wire, encoding_array, encoding_bulk_string, encoding_error,
    encoding_integer, encoding_simple_string, encoding_string_array, error_wire, integer_wire,
    null_bulk_string, null_bulk_wire, parse_array, push_rdb, push_simple, rdb_wire, simple_wire,
    utf8_all, RespError,
};
use crate::replication::{sends_to_all, SendRecord};
use crate::store::{after_lookup, deadline, live_part, lookup, strictly_sorted, texts, Database};
use crate::text::{decimal_chars, decimal_string, is_word, numeral_value, parse_u64, same_text, same_word};

verus! {

/// The commands this server understands; anything else is `Unknown`.
#[derive(Debug)]
pub enum Command {
    Ping,
    Echo(String),
    /// Key, value and an optional time to live in milliseconds.
    SetKey(String, String, Option<u64>),
    Get(String),
    Keys(String),
    ConfigGet(String),
    Info(Option<String>),
    /// The arguments after `REPLCONF`, as sent.
    Replconf(Vec<String>),
    /// Replication id and offset; `-1` stands for no offset.
    Psync(String, Option<u64>),
    /// Replica count and timeout in milliseconds.
    Wait(usize, u64),
    /// A known command whose arguments do not have the shape it takes.
    BadArguments,
    Unknown,
}

/// A command over texts.
pub enum CommandView {
    Ping,
    Echo(Seq<char>),
    SetKey(Seq<char>, Seq<char>, Option<u64>),
    Get(Seq<char>),
    Keys(Seq<char>),
    ConfigGet(Seq<char>),
    Info(Option<Seq<char>>),
    Replconf(Seq<Seq<char>>),
    Psync(Seq<char>, Option<u64>),
    Wait(usize, u64),
    BadArguments,
    Unknown,
}

impl View for Command {
    type V = CommandView;

    open spec fn view(&self) -> CommandView {
        match self {
            Command::Ping => CommandView::Ping,
            Command::Echo(s) => CommandView::Echo(s@),
            Command::SetKey(k, v, ttl) => CommandView::SetKey(k@, v@, *ttl),
            Command::Get(k) => CommandView::Get(k@),
            Command::Keys(p) => CommandView::Keys(p@),
            Command::ConfigGet(k) => CommandView::ConfigGet(k@),
            Command::Info(s) => CommandView::Info(
                match s {
                    Some(x) => Some(x@),
                    None => None,
                },
            ),
            Command::Replconf(args) => CommandView::Replconf(texts(args@)),
            Command::Psync(id, off) => CommandView::Psync(id@, *off),
            Command::Wait(n, t) => CommandView::Wait(*n, *t),
            Command::BadArguments => CommandView::BadArguments,
            Command::Unknown => CommandView::Unknown,
        }
    }
}

/// The command that an array of texts spells. The first element names it,
/// ignoring ASCII case; a known command whose arguments do not have the
/// shape it takes is `BadArguments`, an unknown name is `Unknown`.
pub open spec fn interpret(t: Seq<Seq<char>>) -> CommandView {
    if t.len() == 0 {
        CommandView::Unknown
    } else if same_word(t[0], "ping"@) {
        CommandView::Ping
    } else if same_word(t[0], "echo"@) {
        if t.len() == 2 {
            CommandView::Echo(t[1])
        } else {
            CommandView::BadArguments
        }
    } else if same_word(t[0], "set"@) {
        if t.len() == 3 {
            CommandView::SetKey(t[1], t[2], None)
        } else if t.len() == 5 && same_word(t[3], "px"@) && numeral_value(t[4]) is Some {
            CommandView::SetKey(t[1], t[2], numeral_value(t[4]))
        } else {
            CommandView::BadArguments
        }
    } else if same_word(t[0], "get"@) {
        if t.len() == 2 {
            CommandView::Get(t[1])
        } else {
            CommandView::BadArguments
        }
    } else if same_word(t[0], "keys"@) {
        if t.len() == 2 {
            CommandView::Keys(t[1])
        } else {
            CommandView::BadArguments
        }
    } else if same_word(t[0], "config"@) {
        if t.len() == 3 && same_word(t[1], "get"@) {
            CommandView::ConfigGet(t[2])
        } else {
            CommandView::BadArguments
        }
    } else if same_word(t[0], "info"@) {
        if t.len() < 2 {
            CommandView::Info(None)
        } else {
            CommandView::Info(Some(t[1]))
        }
    } else if same_word(t[0], "replconf"@) {
        CommandView::Replconf(t.drop_first())
    } else if same_word(t[0], "psync"@) {
        if t.len() == 3 && t[2] == "-1"@ {
            CommandView::Psync(t[1], None)
        } else if t.len() == 3 && numeral_value(t[2]) is Some {
            CommandView::Psync(t[1], numeral_value(t[2]))
        } else {
            CommandView::BadArguments
        }
    } else if same_word(t[0], "wait"@) {
        if t.len() == 3 && numeral_value(t[1]) is Some && numeral_value(t[2]) is Some
            && numeral_value(t[1])->0 <= usize::MAX {
            CommandView::Wait(numeral_value(t[1])->0 as usize, numeral_value(t[2])->0)
        } else {
            CommandView::BadArguments
        }
    } else {
        CommandView::Unknown
    }
}

/// Recognises the command in a decoded request array.
pub fn command_from_tokens(tokens: &Vec<String>) -> (r: Command)
    ensures
        r@ == interpret(texts(tokens@)),
{
    let ghost t = texts(tokens@);
    let n = tokens.len();
    if n == 0 {
        return Command::Unknown;
    }
    let name = tokens[0].as_str();
    if is_word(name, "ping") {
        Command::Ping
    } else if is_word(name, "echo") {
        if n == 2 {
            Command::Echo(tokens[1].clone())
        } else {
            Command::BadArguments
        }
    } else if is_word(name, "set") {
        if n == 3 {
            Command::SetKey(tokens[1].clone(), tokens[2].clone(), None)
        } else if n == 5 && is_word(tokens[3].as_str(), "px") {
            match parse_u64(tokens[4].as_str()) {
                Some(ms) => Command::SetKey(tokens[1].clone(), tokens[2].clone(), Some(ms)),
                None => Command::BadArguments,
            }
        } else {
            Command::BadArguments
        }
    } else if is_word(name, "get") {
        if n == 2 {
            Command::Get(tokens[1].clone())
        } else {
            Command::BadArguments
        }
    } else if is_word(name, "keys") {
        if n == 2 {
            Command::Keys(tokens[1].clone())
        } else {
            Command::BadArguments
        }
    } else if is_word(name, "config") {
        if n == 3 && is_word(tokens[1].as_str(), "get") {
            Command::ConfigGet(tokens[2].clone())
        } else {
            Command::BadArguments
        }
    } else if is_word(name, "info") {
        if n < 2 {
            Command::Info(None)
        } else {
            Command::Info(Some(tokens[1].clone()))
        }
    } else if is_word(name, "replconf") {
        let mut args: Vec<String> = Vec::new();
        let mut i: usize = 1;
        while i < n
            invariant
                1 <= i <= n,
                n == tokens@.len(),
                t == texts(tokens@),
                texts(args@) == t.subrange(1, i as int),
            decreases n - i,
        {
            let ghost prev = texts(args@);
            args.push(tokens[i].clone());
            proof {
                assert(texts(args@) =~= prev.push(t[i as int]));
                assert(t.subrange(1, i + 1) =~= t.subrange(1, i as int).push(t[i as int]));
            }
            i = i + 1;
        }
        proof {
            assert(t.subrange(1, n as int) =~= t.drop_first());
        }
        Command::Replconf(args)
    } else if is_word(name, "psync") {
        if n != 3 {
            return Command::BadArguments;
        }
        if same_text(tokens[2].as_str(), "-1") {
            Command::Psync(tokens[1].clone(), None)
        } else {
            match parse_u64(tokens[2].as_str()) {
                Some(off) => Command::Psync(tokens[1].clone(), Some(off)),
                None => Command::BadArguments,
            }
        }
    } else if is_word(name, "wait") {
        if n != 3 {
            return Command::BadArguments;
        }
        match (parse_u64(tokens[1].as_str()), parse_u64(tokens[2].as_str())) {
            (Some(count), Some(timeout)) => {
                if count <= usize::MAX as u64 {
                    Command::Wait(count as usize, timeout)
                } else {
                    Command::BadArguments
                }
            },
            _ => Command::BadArguments,
        }
    } else {
        Command::Unknown
    }
}

/// Decodes one request at the start of `buf` and recognises its command;
/// also returns the number of bytes the request took.
pub fn parse_command(buf: &[u8]) -> (r: Result<(Command, usize), RespError>)
    ensures
        match array_frame(buf@) {
            Ok((t, c)) => r matches Ok((cmd, n)) && cmd@ == interpret(t) && n == c,
            Err(e) => r is Err && r->Err_0 == e,
        },
        r matches Ok((cmd, n)) ==> n <= buf@.len(),
{
    match parse_array(buf) {
        Ok((tokens, n)) => Ok((command_from_tokens(&tokens), n)),
        Err(e) => Err(e),
    }
}

/// The replication id this server announces.
pub const REPLICATION_ID: &'static str = "8371b4fb1155b71f4a04d3e1bc3e18c4a990aeeb";

/// The `INFO` text: the role, the replication id and offset 0.
pub open spec fn info_block(replica: bool) -> Seq<char> {
    (if replica { "role:slave"@ } else { "role:master"@ }) + "\r\nmaster_replid:"@ + REPLICATION_ID@
        + "\r\nmaster_repl_offset:0"@
}

/// The canonical form in which a write is sent on to replicas.
pub open spec fn set_command_wire(k: Seq<char>, v: Seq<char>, ttl: Option<u64>) -> Seq<u8> {
    match ttl {
        None => array_wire(utf8_all(seq!["SET"@, k, v])),
        Some(ms) => array_wire(utf8_all(seq!["SET"@, k, v, "PX"@, decimal_chars(ms as nat)])),
    }
}

/// `REPLCONF` arguments that ask for an acknowledgement.
pub open spec fn is_getack(args: Seq<Seq<char>>) -> bool {
    args.len() >= 1 && same_word(args[0], "getack"@)
}

/// `REPLCONF` arguments that announce a replica's listening port.
pub open spec fn is_listening_port(args: Seq<Seq<char>>) -> bool {
    args.len() >= 1 && same_word(args[0], "listening-port"@)
}

/// What running a command produced.
pub struct Outcome {
    /// The reply to send back.
    pub reply: Bytes,
    /// The write as sent on to every replica, if the command was a write.
    pub propagated: Option<Bytes>,
    /// The connection has announced itself as a replica: its outbound
    /// channel should be registered.
    pub register_replica: bool,
}

/// What running `cmd` at time `now` (with replication offset `offset`) does:
/// `o` is the database before, `f` after, `out` what came back.
pub open spec fn execution(o: Database, f: Database, cmd: CommandView, now: u64, offset: u64, out: Outcome) -> bool {
    &&& f.wf()
    &&& f.settings() == o.settings()
    &&& f.replica_list() == o.replica_list()
    &&& f.sent_log() == o.sent_log() + match cmd {
        CommandView::SetKey(k, v, ttl) => sends_to_all(o.replica_list(), set_command_wire(k, v, ttl)),
        _ => Seq::<SendRecord>::empty(),
    }
    &&& out.register_replica == (cmd matches CommandView::Replconf(args) && is_listening_port(args))
    &&& (out.propagated is Some <==> cmd is SetKey)
    &&& (!(cmd is SetKey) && !(cmd is Get) && !(cmd is Keys) ==> f@ == o@)
    &&& (!(cmd is SetKey) && !(cmd is Wait) ==> f.pending() == o.pending())
    &&& match cmd {
        CommandView::Ping => bytes_content(out.reply) == simple_wire("PONG"@),
        CommandView::Echo(s) => bytes_content(out.reply) == bulk_wire(encode_utf8(s)),
        CommandView::SetKey(k, v, ttl) => {
            &&& bytes_content(out.reply) == simple_wire("OK"@)
            &&& f@ == o@.insert(
                k,
                (
                    v,
                    match ttl {
                        Some(ms) => Some(deadline(now, ms)),
                        None => None,
                    },
                ),
            )
            &&& f.pending() == 0
            &&& out.propagated matches Some(p) && bytes_content(p) == set_command_wire(k, v, ttl)
        },
        CommandView::Get(k) => {
            &&& bytes_content(out.reply) == match lookup(o@, k, now) {
                Some(v) => bulk_wire(encode_utf8(v)),
                None => null_bulk_wire(),
            }
            &&& f@ == after_lookup(o@, k, now)
        },
        CommandView::Keys(_) => {
            &&& f@ == live_part(o@, now)
            &&& exists|ks: Seq<Seq<char>>|
                strictly_sorted(ks) && (forall|k: Seq<char>|
                    live_part(o@, now).contains_key(k) <==> #[trigger] ks.contains(k))
                    && bytes_content(out.reply) == array_wire(utf8_all(ks))
        },
        CommandView::ConfigGet(k) => bytes_content(out.reply) == match (if k == "dir"@ {
            opt_view(o.settings().dir)
        } else if k == "dbfilename"@ {
            opt_view(o.settings().dbfilename)
        } else {
            None
        }) {
            Some(v) => array_wire(utf8_all(seq![k, v])),
            None => null_bulk_wire(),
        },
        CommandView::Info(section) => bytes_content(out.reply) == if section is None || same_word(
            section->0,
            "replication"@,
        ) {
            bulk_wire(encode_utf8(info_block(o.settings().replicaof is Some)))
        } else {
            bulk_wire(seq![])
        },
        CommandView::Replconf(args) => bytes_content(out.reply) == if is_getack(args) {
            array_wire(utf8_all(seq!["REPLCONF"@, "ACK"@, decimal_chars(offset as nat)]))
        } else {
            simple_wire("OK"@)
        },
        CommandView::Psync(_, _) => bytes_content(out.reply) == simple_wire(
            "FULLRESYNC "@ + REPLICATION_ID@ + " 0"@,
        ) + rdb_wire(empty_rdb_bytes()),
        CommandView::Wait(count, _) => {
            &&& bytes_content(out.reply) == integer_wire(o.pending())
            &&& f.pending() == if o.pending() >= count {
                0
            } else {
                o.pending()
            }
        },
        CommandView::BadArguments => bytes_content(out.reply) == error_wire("wrong arguments"@),
        CommandView::Unknown => bytes_content(out.reply) == error_wire("unknown command"@),
    }
}

/// Runs `cmd` against `db` at time `now`. `offset` is the number of bytes of
/// replication stream processed so far, reported by `REPLCONF GETACK`.
pub fn execute(db: &mut Database, cmd: &Command, now: u64, offset: u64) -> (r: Outcome)
    requires
        old(db).wf(),
    ensures
        execution(*old(db), *final(db), cmd@, now, offset, r),
{
    match cmd {
        Command::Ping => Outcome {
            reply: encoding_simple_string("PONG"),
            propagated: None,
            register_replica: false,
        },
        Command::Echo(s) => Outcome {
            reply: encoding_bulk_string(s.as_str()),
            propagated: None,
            register_replica: false,
        },
        Command::SetKey(k, v, ttl) => {
            let wire = match ttl {
                Some(ms) => {
                    let ms_text = decimal_string(*ms);
                    let parts: Vec<&str> = vec!["SET", k.as_str(), v.as_str(), "PX", ms_text.as_str()];
                    proof {
                        assert(crate::resp::str_views(parts@) =~= seq!["SET"@, k@, v@, "PX"@, decimal_chars(*ms as nat)]);
                    }
                    encoding_array(parts.as_slice())
                },
                None => {
                    let parts: Vec<&str> = vec!["SET", k.as_str(), v.as_str()];
                    proof {
                        assert(crate::resp::str_views(parts@) =~= seq!["SET"@, k@, v@]);
                    }
                    encoding_array(parts.as_slice())
                },
            };
            db.spread(&wire);
            match ttl {
                Some(ms) => db.set_with_expire(k.as_str(), v.as_str(), *ms, now),
                None => db.set(k.as_str(), v.as_str()),
            }
            Outcome {
                reply: encoding_simple_string("OK"),
                propagated: Some(wire),
                register_replica: false,
            }
        },
        Command::Get(k) => {
            let reply = match db.get(k.as_str(), now) {
                Some(v) => encoding_bulk_string(v.as_str()),
                None => null_bulk_string(),
            };
            Outcome { reply, propagated: None, register_replica: false }
        },
        Command::Keys(pattern) => {
            let names = db.keys(pattern.as_str(), now);
            Outcome { reply: encoding_string_array(&names), propagated: None, register_replica: false }
        },
        Command::ConfigGet(k) => {
            let reply = match db.config_get(k.as_str()) {
                Some(v) => {
                    let parts: Vec<&str> = vec![k.as_str(), v.as_str()];
                    proof {
                        assert(crate::resp::str_views(parts@) =~= seq![k@, v@]);
                    }
                    encoding_array(parts.as_slice())
                },
                None => null_bulk_string(),
            };
            Outcome { reply, propagated: None, register_replica: false }
        },
        Command::Info(section) => {
            let wanted = match section {
                Some(s) => is_word(s.as_str(), "replication"),
                None => true,
            };
            let reply = if wanted {
                let text = info_text(db.config().replicaof.is_some());
                encoding_bulk_string(text.as_str())
            } else {
                let r = encoding_bulk_string("");
                proof {
                    reveal_strlit("");
                    assert(encode_utf8(""@) =~= Seq::<u8>::empty());
                }
                r
            };
            Outcome { reply, propagated: None, register_replica: false }
        },
        Command::Replconf(args) => {
            let getack = args.len() >= 1 && is_word(args[0].as_str(), "getack");
            let listening = args.len() >= 1 && is_word(args[0].as_str(), "listening-port");
            let reply = if getack {
                let off = decimal_string(offset);
                let parts: Vec<&str> = vec!["REPLCONF", "ACK", off.as_str()];
                proof {
                    assert(crate::resp::str_views(parts@) =~= seq!["REPLCONF"@, "ACK"@, decimal_chars(offset as nat)]);
                }
                encoding_array(parts.as_slice())
            } else {
                encoding_simple_string("OK")
            };
            Outcome { reply, propagated: None, register_replica: listening }
        },
        Command::Psync(_, _) => {
            let mut head = String::from_str("FULLRESYNC ");
            head.append(REPLICATION_ID);
            head.append(" 0");
            let mut out: Vec<u8> = Vec::new();
            push_simple(&mut out, head.as_str());
            let snapshot = empty_rdb();
            push_rdb(&mut out, snapshot.as_slice());
            Outcome { reply: freeze_vec(out), propagated: None, register_replica: false }
        },
        Command::Wait(count, timeout) => {
            let pending = db.pending_count();
            db.wait(*count, *timeout);
            Outcome {
                reply: encoding_integer(pending as u64),
                propagated: None,
                register_replica: false,
            }
        },
        Command::BadArguments => Outcome {
            reply: encoding_error("wrong arguments"),
            propagated: None,
            register_replica: false,
        },
        Command::Unknown => Outcome {
            reply: encoding_error("unknown command"),
            propagated: None,
            register_replica: false,
        },
    }
}

/// On the link from its master a replica applies commands without replying;
/// only a request for an acknowledgement is answered.
pub fn answers_master(cmd: &Command) -> (r: bool)
    ensures
        r == (cmd@ matches CommandView::Replconf(args) && is_getack(args)),
{
    match cmd {
        Command::Replconf(args) => args.len() >= 1 && is_word(args[0].as_str(), "getack"),
        _ => false,
    }
}

/// The replication offset after a command of `consumed` bytes has been
/// processed (held at the largest `u64`).
pub fn advance_offset(offset: u64, consumed: usize) -> (r: u64)
    ensures
        r == if offset + consumed <= u64::MAX { (offset + consumed) as u64 } else { u64::MAX },
{
    let c = consumed as u64;
    if c <= u64::MAX - offset {
        offset + c
    } else {
        u64::MAX
    }
}

/// The `INFO` text for a master or a replica.
fn info_text(replica: bool) -> (r: String)
    ensures
        r@ == info_block(replica),
{
    let mut s = if replica {
        String::from_str("role:slave")
    } else {
        String::from_str("role:master")
    };
    s.append("\r\nmaster_replid:");
    s.append(REPLICATION_ID);
    s.append("\r\nmaster_repl_offset:0");
    s
}

} // verus!
